//! What holds of tallies as a whole.

use crate::metric::{EntryView, TokenCounts, Usd};
use crate::tally::{
    agent_counts, agent_tally, column, column_sum, final_turn, has_row, has_session, in_session,
    is_orphan, is_tally, later, lemma_column_sum_add, lemma_reported_costs_add, of_agent, orphans,
    orphans_counts, own_counts, plus_counts, readable, reported_costs, session_counts,
    session_keys, session_of, session_turns, sessions_counts, Column, TallyView,
};
use crate::text::{lemma_text_lt_irreflexive, lemma_text_lt_transitive, text_lt};
use vstd::multiset::Multiset;
use vstd::prelude::*;
use vstd::seq_lib::{commutative_foldl, lemma_fold_left_permutation, to_multiset_len};

verus! {

/// Whether no turn of the session is later than `turn`.
pub open spec fn latest(turns: Seq<EntryView>, turn: EntryView) -> bool {
    forall|k: int| 0 <= k < turns.len() ==> !later(#[trigger] turns[k], turn)
}

/// Whether the latest turns of a session, where there are several, agree on
/// the session counts.
pub open spec fn settled(turns: Seq<EntryView>) -> bool {
    forall|i: int, j: int|
        0 <= i < turns.len() && 0 <= j < turns.len() && latest(turns, #[trigger] turns[i])
            && latest(turns, #[trigger] turns[j]) ==> turns[i].turn->0.cumulative
            == turns[j].turn->0.cumulative
}

/// Whether two tallies of an agent show the same: every figure is equal, and
/// the costs to be added up are the same in some order.
pub open spec fn same_figures(a: TallyView, b: TallyView) -> bool {
    &&& a.agent == b.agent
    &&& a.turns == b.turns
    &&& a.sessions == b.sessions
    &&& a.input_tokens == b.input_tokens
    &&& a.output_tokens == b.output_tokens
    &&& a.cache_read_tokens == b.cache_read_tokens
    &&& a.cache_write_tokens == b.cache_write_tokens
    &&& a.costs.to_multiset() == b.costs.to_multiset()
    &&& a.undecryptable_turns == b.undecryptable_turns
}

/// The final turn is one of the turns, and none is later.
proof fn lemma_final_turn_latest(turns: Seq<EntryView>)
    requires
        turns.len() > 0,
    ensures
        latest(turns, final_turn(turns)),
        turns.contains(final_turn(turns)),
    decreases turns.len(),
{
    if turns.len() == 1 {
        assert(turns.contains(turns[0]));
    } else {
        let rest = turns.drop_last();
        lemma_final_turn_latest(rest);
        let best = final_turn(rest);
        let at = choose|at: int| 0 <= at < rest.len() && rest[at] == best;
        assert(turns[at] == best);
        assert(turns[turns.len() - 1] == turns.last());
        assert forall|k: int| 0 <= k < turns.len() implies !later(
            #[trigger] turns[k],
            final_turn(turns),
        ) by {
            if k < rest.len() {
                assert(rest[k] == turns[k]);
            }
        }
    }
}

/// A turn that is later than every other turn of its session, in whatever
/// order they came, decides what the session adds: its session counts, once.
pub proof fn law_latest_turn_decides(turns: Seq<EntryView>, at: int)
    requires
        0 <= at < turns.len(),
        forall|k: int| 0 <= k < turns.len() && k != at ==> later(turns[at], #[trigger] turns[k]),
    ensures
        final_turn(turns) == turns[at],
        turns[at].turn->0.cumulative matches Some(counts) ==> session_counts(turns) == seq![counts],
        turns[at].turn->0.cumulative is None ==> session_counts(turns) == own_counts(turns),
{
    lemma_final_turn_latest(turns);
    let k = choose|k: int| 0 <= k < turns.len() && turns[k] == final_turn(turns);
    if k != at {
        assert(later(turns[at], turns[k]));
    }
}

/// A column's sum as a fold.
proof fn lemma_column_sum_fold(counts: Seq<TokenCounts>, col: Column)
    ensures
        column_sum(counts, col) == counts.fold_left(
            0nat,
            |sum: nat, c: TokenCounts| sum + column(c, col),
        ),
    decreases counts.len(),
{
    if counts.len() > 0 {
        lemma_column_sum_fold(counts.drop_last(), col);
    }
}

/// The order of the counts does not change a column's sum.
pub proof fn lemma_column_sum_order(a: Seq<TokenCounts>, b: Seq<TokenCounts>, col: Column)
    requires
        a.to_multiset() == b.to_multiset(),
    ensures
        column_sum(a, col) == column_sum(b, col),
{
    let f = |sum: nat, c: TokenCounts| sum + column(c, col);
    lemma_column_sum_fold(a, col);
    lemma_column_sum_fold(b, col);
    assert(commutative_foldl(f));
    lemma_fold_left_permutation(a, b, f, 0nat);
}

/// Puts a reported cost with others.
spec fn with_cost(costs: Multiset<Usd>, counts: TokenCounts) -> Multiset<Usd> {
    match counts.cost_usd {
        Some(usd) => costs.insert(usd),
        None => costs,
    }
}

/// The reported costs, without their order, as a fold.
proof fn lemma_reported_costs_fold(counts: Seq<TokenCounts>)
    ensures
        reported_costs(counts).to_multiset() == counts.fold_left(
            Multiset::empty(),
            |costs: Multiset<Usd>, c: TokenCounts| with_cost(costs, c),
        ),
    decreases counts.len(),
{
    broadcast use vstd::seq_lib::group_to_multiset_ensures;

    if counts.len() > 0 {
        lemma_reported_costs_fold(counts.drop_last());
    } else {
        assert(reported_costs(counts).to_multiset() =~= Multiset::empty());
    }
}

/// The order of the counts does not change which costs were reported.
pub proof fn lemma_reported_costs_order(a: Seq<TokenCounts>, b: Seq<TokenCounts>)
    requires
        a.to_multiset() == b.to_multiset(),
    ensures
        reported_costs(a).to_multiset() == reported_costs(b).to_multiset(),
{
    let f = |costs: Multiset<Usd>, c: TokenCounts| with_cost(costs, c);
    lemma_reported_costs_fold(a);
    lemma_reported_costs_fold(b);
    assert forall|x: TokenCounts, y: TokenCounts, v: Multiset<Usd>| #[trigger]
        f(f(v, x), y) == f(f(v, y), x) by {
        assert(f(f(v, x), y) =~= f(f(v, y), x));
    }
    lemma_fold_left_permutation(a, b, f, Multiset::empty());
}

/// Puts a turn's own counts with others.
spec fn with_own(counts: Multiset<TokenCounts>, turn: EntryView) -> Multiset<TokenCounts> {
    match turn.turn->0.turn {
        Some(c) => counts.insert(c),
        None => counts,
    }
}

/// The turns' own counts, without their order, as a fold.
proof fn lemma_own_counts_fold(turns: Seq<EntryView>)
    ensures
        own_counts(turns).to_multiset() == turns.fold_left(
            Multiset::empty(),
            |counts: Multiset<TokenCounts>, e: EntryView| with_own(counts, e),
        ),
    decreases turns.len(),
{
    broadcast use vstd::seq_lib::group_to_multiset_ensures;

    if turns.len() > 0 {
        lemma_own_counts_fold(turns.drop_last());
    } else {
        assert(own_counts(turns).to_multiset() =~= Multiset::empty());
    }
}

/// The order of a settled session's turns does not change what it adds.
proof fn lemma_session_counts_order(a: Seq<EntryView>, b: Seq<EntryView>)
    requires
        a.len() > 0,
        a.to_multiset() == b.to_multiset(),
        settled(a),
    ensures
        session_counts(a).to_multiset() == session_counts(b).to_multiset(),
{
    broadcast use vstd::seq_lib::group_to_multiset_ensures;

    to_multiset_len(a);
    to_multiset_len(b);
    lemma_final_turn_latest(a);
    lemma_final_turn_latest(b);
    let x = final_turn(a);
    let y = final_turn(b);
    assert(b.to_multiset().count(y) > 0);
    assert(a.contains(y));
    assert forall|k: int| 0 <= k < a.len() implies !later(#[trigger] a[k], y) by {
        assert(a.contains(a[k]));
        assert(a.to_multiset().count(a[k]) > 0);
        assert(b.contains(a[k]));
        let j = choose|j: int| 0 <= j < b.len() && b[j] == a[k];
        assert(!later(b[j], y));
    }
    let i = choose|i: int| 0 <= i < a.len() && a[i] == x;
    let j = choose|j: int| 0 <= j < a.len() && a[j] == y;
    assert(latest(a, a[i]) && latest(a, a[j]));
    if x.turn->0.cumulative is None {
        let f = |counts: Multiset<TokenCounts>, e: EntryView| with_own(counts, e);
        lemma_own_counts_fold(a);
        lemma_own_counts_fold(b);
        assert forall|p: EntryView, q: EntryView, v: Multiset<TokenCounts>| #[trigger]
            f(f(v, p), q) == f(f(v, q), p) by {
            assert(f(f(v, p), q) =~= f(f(v, q), p));
        }
        lemma_fold_left_permutation(a, b, f, Multiset::empty());
    }
}

/// An agent's entries, without their order.
proof fn lemma_of_agent_multiset(entries: Seq<EntryView>, agent: Seq<char>)
    ensures
        of_agent(entries, agent).to_multiset() == entries.to_multiset().filter(
            |e: EntryView| e.agent == agent,
        ),
    decreases entries.len(),
{
    broadcast use vstd::seq_lib::group_to_multiset_ensures;

    let keep = |e: EntryView| e.agent == agent;
    if entries.len() == 0 {
        assert(of_agent(entries, agent).to_multiset() =~= entries.to_multiset().filter(keep));
    } else {
        lemma_of_agent_multiset(entries.drop_last(), agent);
        assert(entries =~= entries.drop_last().push(entries.last()));
        assert(of_agent(entries, agent).to_multiset() =~= entries.to_multiset().filter(keep));
    }
}

/// A session's turns, without their order.
proof fn lemma_session_turns_multiset(entries: Seq<EntryView>, key: Seq<char>)
    ensures
        session_turns(entries, key).to_multiset() == entries.to_multiset().filter(
            |e: EntryView| in_session(e, key),
        ),
    decreases entries.len(),
{
    broadcast use vstd::seq_lib::group_to_multiset_ensures;

    let keep = |e: EntryView| in_session(e, key);
    if entries.len() == 0 {
        assert(session_turns(entries, key).to_multiset() =~= entries.to_multiset().filter(keep));
    } else {
        lemma_session_turns_multiset(entries.drop_last(), key);
        assert(entries =~= entries.drop_last().push(entries.last()));
        assert(session_turns(entries, key).to_multiset() =~= entries.to_multiset().filter(keep));
    }
}

/// The number of readable turns, over entries without their order.
proof fn lemma_readable_multiset(entries: Seq<EntryView>)
    ensures
        readable(entries) == entries.to_multiset().filter(|e: EntryView| e.turn is Some).len(),
    decreases entries.len(),
{
    broadcast use vstd::seq_lib::group_to_multiset_ensures;

    let keep = |e: EntryView| e.turn is Some;
    if entries.len() == 0 {
        assert(entries.to_multiset().filter(keep) =~= Multiset::empty());
    } else {
        lemma_readable_multiset(entries.drop_last());
        let rest = entries.drop_last().to_multiset().filter(keep);
        assert(entries =~= entries.drop_last().push(entries.last()));
        if entries.last().turn is Some {
            assert(entries.to_multiset().filter(keep) =~= rest.insert(entries.last()));
        } else {
            assert(entries.to_multiset().filter(keep) =~= rest);
        }
    }
}

/// The sessions that occur are those with a turn, each listed once.
pub proof fn lemma_session_keys(entries: Seq<EntryView>)
    ensures
        session_keys(entries).no_duplicates(),
        forall|key: Seq<char>|
            session_keys(entries).contains(key) <==> #[trigger] session_turns(entries, key).len()
                > 0,
    decreases entries.len(),
{
    if entries.len() > 0 {
        let rest = entries.drop_last();
        let last = entries.last();
        let keys = session_keys(rest);
        lemma_session_keys(rest);
        assert forall|key: Seq<char>|
            session_keys(entries).contains(key) <==> #[trigger] session_turns(entries, key).len()
                > 0 by {
            assert(keys.contains(key) <==> session_turns(rest, key).len() > 0);
            if has_session(last) && !keys.contains(session_of(last)) {
                let all = keys.push(session_of(last));
                assert(all[keys.len() as int] == session_of(last));
                if keys.contains(key) {
                    let i = choose|i: int| 0 <= i < keys.len() && keys[i] == key;
                    assert(all[i] == key);
                }
                if all.contains(key) && key != session_of(last) {
                    let i = choose|i: int| 0 <= i < all.len() && all[i] == key;
                    assert(keys[i] == key);
                }
            }
        }
    }
}

/// Two lists without repetition that hold the same are the same in some order.
proof fn lemma_same_elements<A>(a: Seq<A>, b: Seq<A>)
    requires
        a.no_duplicates(),
        b.no_duplicates(),
        forall|x: A| a.contains(x) <==> #[trigger] b.contains(x),
    ensures
        a.to_multiset() == b.to_multiset(),
{
    broadcast use vstd::seq_lib::group_to_multiset_ensures;

    a.lemma_multiset_has_no_duplicates();
    b.lemma_multiset_has_no_duplicates();
    assert forall|x: A| #[trigger] a.to_multiset().count(x) == b.to_multiset().count(x) by {
        assert(a.contains(x) <==> b.contains(x));
        assert(a.to_multiset().contains(x) <==> a.contains(x));
        assert(b.to_multiset().contains(x) <==> b.contains(x));
        if a.contains(x) {
            assert(a.to_multiset().count(x) == 1);
            assert(b.to_multiset().count(x) == 1);
        }
    }
    assert(a.to_multiset() =~= b.to_multiset());
}

/// Appending adds up what both hold.
pub proof fn lemma_concat_multiset<A>(a: Seq<A>, b: Seq<A>)
    ensures
        (a + b).to_multiset() == a.to_multiset().add(b.to_multiset()),
    decreases b.len(),
{
    broadcast use vstd::seq_lib::group_to_multiset_ensures;

    if b.len() == 0 {
        assert(a + b =~= a);
        assert(b.to_multiset() =~= Multiset::empty());
        assert((a + b).to_multiset() =~= a.to_multiset().add(b.to_multiset()));
    } else {
        lemma_concat_multiset(a, b.drop_last());
        assert(a + b =~= (a + b.drop_last()).push(b.last()));
        assert(b =~= b.drop_last().push(b.last()));
        assert((a + b).to_multiset() =~= a.to_multiset().add(b.to_multiset()));
    }
}

/// What sessions add, without order, as a fold over their keys.
proof fn lemma_sessions_counts_fold(entries: Seq<EntryView>, keys: Seq<Seq<char>>)
    ensures
        sessions_counts(entries, keys).to_multiset() == keys.fold_left(
            Multiset::empty(),
            |m: Multiset<TokenCounts>, key: Seq<char>|
                m.add(session_counts(session_turns(entries, key)).to_multiset()),
        ),
    decreases keys.len(),
{
    broadcast use vstd::seq_lib::group_to_multiset_ensures;

    if keys.len() == 0 {
        assert(sessions_counts(entries, keys).to_multiset() =~= Multiset::empty());
    } else {
        lemma_sessions_counts_fold(entries, keys.drop_last());
        lemma_concat_multiset(
            sessions_counts(entries, keys.drop_last()),
            session_counts(session_turns(entries, keys.last())),
        );
    }
}

/// The same sessions with the same turns add the same, without order.
proof fn lemma_sessions_counts_same(
    a: Seq<EntryView>,
    b: Seq<EntryView>,
    keys: Seq<Seq<char>>,
)
    requires
        forall|i: int|
            0 <= i < keys.len() ==> session_counts(
                session_turns(a, #[trigger] keys[i]),
            ).to_multiset() == session_counts(session_turns(b, keys[i])).to_multiset(),
    ensures
        sessions_counts(a, keys).to_multiset() == sessions_counts(b, keys).to_multiset(),
    decreases keys.len(),
{
    if keys.len() > 0 {
        let rest = keys.drop_last();
        assert forall|i: int| 0 <= i < rest.len() implies session_counts(
            session_turns(a, #[trigger] rest[i]),
        ).to_multiset() == session_counts(session_turns(b, rest[i])).to_multiset() by {
            assert(rest[i] == keys[i]);
        }
        lemma_sessions_counts_same(a, b, rest);
        assert(keys.last() == keys[keys.len() - 1]);
        lemma_concat_multiset(
            sessions_counts(a, rest),
            session_counts(session_turns(a, keys.last())),
        );
        lemma_concat_multiset(
            sessions_counts(b, rest),
            session_counts(session_turns(b, keys.last())),
        );
    }
}

/// The turns without a session id, without their order.
proof fn lemma_orphans_multiset(entries: Seq<EntryView>)
    ensures
        orphans(entries).to_multiset() == entries.to_multiset().filter(
            |e: EntryView| is_orphan(e),
        ),
    decreases entries.len(),
{
    broadcast use vstd::seq_lib::group_to_multiset_ensures;

    let keep = |e: EntryView| is_orphan(e);
    if entries.len() == 0 {
        assert(orphans(entries).to_multiset() =~= entries.to_multiset().filter(keep));
    } else {
        lemma_orphans_multiset(entries.drop_last());
        assert(entries =~= entries.drop_last().push(entries.last()));
        assert(orphans(entries).to_multiset() =~= entries.to_multiset().filter(keep));
    }
}

/// What turns add that are a session of their own each, without order, as a
/// fold.
proof fn lemma_orphans_counts_fold(turns: Seq<EntryView>)
    ensures
        orphans_counts(turns).to_multiset() == turns.fold_left(
            Multiset::empty(),
            |m: Multiset<TokenCounts>, turn: EntryView|
                m.add(session_counts(seq![turn]).to_multiset()),
        ),
    decreases turns.len(),
{
    broadcast use vstd::seq_lib::group_to_multiset_ensures;

    if turns.len() == 0 {
        assert(orphans_counts(turns).to_multiset() =~= Multiset::empty());
    } else {
        lemma_orphans_counts_fold(turns.drop_last());
        lemma_concat_multiset(
            orphans_counts(turns.drop_last()),
            session_counts(seq![turns.last()]),
        );
    }
}

/// The order of turns that are a session of their own each does not change what
/// they add.
proof fn lemma_orphans_counts_order(a: Seq<EntryView>, b: Seq<EntryView>)
    requires
        a.to_multiset() == b.to_multiset(),
    ensures
        orphans_counts(a).to_multiset() == orphans_counts(b).to_multiset(),
{
    let f = |m: Multiset<TokenCounts>, turn: EntryView|
        m.add(session_counts(seq![turn]).to_multiset());
    lemma_orphans_counts_fold(a);
    lemma_orphans_counts_fold(b);
    assert forall|x: EntryView, y: EntryView, v: Multiset<TokenCounts>| #[trigger]
        f(f(v, x), y) == f(f(v, y), x) by {
        assert(f(f(v, x), y) =~= f(f(v, y), x));
    }
    lemma_fold_left_permutation(a, b, f, Multiset::empty());
}

/// Sessions that add the same, session by session, add the same together.
proof fn lemma_agent_counts_by_session(a: Seq<EntryView>, b: Seq<EntryView>)
    requires
        forall|key: Seq<char>| #[trigger]
            session_turns(a, key).len() > 0 <==> session_turns(b, key).len() > 0,
        forall|key: Seq<char>| #[trigger]
            session_turns(a, key).len() > 0 ==> session_counts(
                session_turns(a, key),
            ).to_multiset() == session_counts(session_turns(b, key)).to_multiset(),
        orphans(a).to_multiset() == orphans(b).to_multiset(),
    ensures
        agent_counts(a).to_multiset() == agent_counts(b).to_multiset(),
        session_keys(a).len() + orphans(a).len() == session_keys(b).len() + orphans(b).len(),
{
    let ka = session_keys(a);
    let kb = session_keys(b);
    lemma_session_keys(a);
    lemma_session_keys(b);
    assert forall|key: Seq<char>| ka.contains(key) <==> #[trigger] kb.contains(key) by {
        assert(ka.contains(key) <==> session_turns(a, key).len() > 0);
        assert(kb.contains(key) <==> session_turns(b, key).len() > 0);
    }
    lemma_same_elements(ka, kb);
    to_multiset_len(ka);
    to_multiset_len(kb);
    assert forall|i: int| 0 <= i < kb.len() implies session_counts(
        session_turns(a, #[trigger] kb[i]),
    ).to_multiset() == session_counts(session_turns(b, kb[i])).to_multiset() by {
        assert(kb.contains(kb[i]));
        assert(ka.contains(kb[i]));
        assert(session_turns(a, kb[i]).len() > 0);
    }
    lemma_sessions_counts_same(a, b, kb);
    lemma_sessions_counts_fold(a, ka);
    lemma_sessions_counts_fold(a, kb);
    let f = |m: Multiset<TokenCounts>, key: Seq<char>|
        m.add(session_counts(session_turns(a, key)).to_multiset());
    assert forall|x: Seq<char>, y: Seq<char>, v: Multiset<TokenCounts>| #[trigger]
        f(f(v, x), y) == f(f(v, y), x) by {
        assert(f(f(v, x), y) =~= f(f(v, y), x));
    }
    lemma_fold_left_permutation(ka, kb, f, Multiset::empty());
    lemma_orphans_counts_order(orphans(a), orphans(b));
    to_multiset_len(orphans(a));
    to_multiset_len(orphans(b));
    lemma_concat_multiset(sessions_counts(a, ka), orphans_counts(orphans(a)));
    lemma_concat_multiset(sessions_counts(b, kb), orphans_counts(orphans(b)));
}

/// What an agent's sessions add does not depend on the order of its entries.
proof fn lemma_agent_counts_order(a: Seq<EntryView>, b: Seq<EntryView>)
    requires
        a.to_multiset() == b.to_multiset(),
        forall|key: Seq<char>| settled(#[trigger] session_turns(a, key)),
    ensures
        agent_counts(a).to_multiset() == agent_counts(b).to_multiset(),
        session_keys(a).len() + orphans(a).len() == session_keys(b).len() + orphans(b).len(),
{
    lemma_orphans_multiset(a);
    lemma_orphans_multiset(b);
    assert forall|key: Seq<char>| #[trigger]
        session_turns(a, key).len() > 0 <==> session_turns(b, key).len() > 0 by {
        lemma_session_turns_multiset(a, key);
        lemma_session_turns_multiset(b, key);
        to_multiset_len(session_turns(a, key));
        to_multiset_len(session_turns(b, key));
    }
    assert forall|key: Seq<char>| #[trigger] session_turns(a, key).len() > 0 implies session_counts(
        session_turns(a, key),
    ).to_multiset() == session_counts(session_turns(b, key)).to_multiset() by {
        lemma_session_turns_multiset(a, key);
        lemma_session_turns_multiset(b, key);
        lemma_session_counts_order(session_turns(a, key), session_turns(b, key));
    }
    lemma_agent_counts_by_session(a, b);
}

/// The order in which an agent's entries come does not change its tally,
/// provided that each of its sessions is settled.
pub proof fn law_agent_order(agent: Seq<char>, a: Seq<EntryView>, b: Seq<EntryView>)
    requires
        a.to_multiset() == b.to_multiset(),
        forall|key: Seq<char>| settled(#[trigger] session_turns(a, key)),
    ensures
        same_figures(agent_tally(agent, a), agent_tally(agent, b)),
{
    broadcast use vstd::seq_lib::group_to_multiset_ensures;

    lemma_agent_counts_order(a, b);
    lemma_readable_multiset(a);
    lemma_readable_multiset(b);
    to_multiset_len(a);
    to_multiset_len(b);
    let x = agent_counts(a);
    let y = agent_counts(b);
    lemma_column_sum_order(x, y, Column::Input);
    lemma_column_sum_order(x, y, Column::Output);
    lemma_column_sum_order(x, y, Column::CacheRead);
    lemma_column_sum_order(x, y, Column::CacheWrite);
    lemma_reported_costs_order(x, y);
}

/// A session's turns in two lists of entries are those in the one, then those
/// in the other.
proof fn lemma_session_turns_concat(a: Seq<EntryView>, b: Seq<EntryView>, key: Seq<char>)
    ensures
        session_turns(a + b, key) == session_turns(a, key) + session_turns(b, key),
    decreases b.len(),
{
    if b.len() == 0 {
        assert(a + b =~= a);
        assert(session_turns(a, key) + session_turns(b, key) =~= session_turns(a, key));
    } else {
        lemma_session_turns_concat(a, b.drop_last(), key);
        assert((a + b).drop_last() =~= a + b.drop_last());
        assert(session_turns(a + b, key) =~= session_turns(a, key) + session_turns(b, key));
    }
}

/// The readable turns in two lists of entries.
proof fn lemma_readable_concat(a: Seq<EntryView>, b: Seq<EntryView>)
    ensures
        readable(a + b) == readable(a) + readable(b),
    decreases b.len(),
{
    if b.len() == 0 {
        assert(a + b =~= a);
    } else {
        lemma_readable_concat(a, b.drop_last());
        assert((a + b).drop_last() =~= a + b.drop_last());
    }
}

/// The turns without a session id in two lists of entries.
proof fn lemma_orphans_concat(a: Seq<EntryView>, b: Seq<EntryView>)
    ensures
        orphans(a + b) == orphans(a) + orphans(b),
    decreases b.len(),
{
    if b.len() == 0 {
        assert(a + b =~= a);
        assert(orphans(a) + orphans(b) =~= orphans(a));
    } else {
        lemma_orphans_concat(a, b.drop_last());
        assert((a + b).drop_last() =~= a + b.drop_last());
        assert(orphans(a + b) =~= orphans(a) + orphans(b));
    }
}

/// Whether a session is decided by one turn, which is later than all others and
/// has session counts.
pub open spec fn is_decided_by(turns: Seq<EntryView>, at: int) -> bool {
    &&& 0 <= at < turns.len()
    &&& forall|k: int| 0 <= k < turns.len() && k != at ==> later(turns[at], #[trigger] turns[k])
    &&& turns[at].turn->0.cumulative is Some
}

/// Leaving out a turn that does not decide changes nothing.
proof fn lemma_session_without_turn(
    before: Seq<EntryView>,
    dropped: EntryView,
    after: Seq<EntryView>,
    at: int,
)
    requires
        is_decided_by(before.push(dropped) + after, at),
        at != before.len(),
    ensures
        session_counts(before + after) == session_counts(before.push(dropped) + after),
        (before + after).len() > 0,
{
    let all = before.push(dropped) + after;
    let rest = before + after;
    let there = if at < before.len() {
        at
    } else {
        at - 1
    };
    assert(rest[there] == all[at]);
    assert forall|k: int| 0 <= k < rest.len() && k != there implies later(
        rest[there],
        #[trigger] rest[k],
    ) by {
        let k0 = if k < before.len() {
            k
        } else {
            k + 1
        };
        assert(rest[k] == all[k0]);
        assert(k0 != at);
    }
    law_latest_turn_decides(all, at);
    law_latest_turn_decides(rest, there);
}

/// A turn whose event never arrived is not missed: where a later turn of its
/// session decides the session, the tally without that event has one turn less
/// and is otherwise the same.
pub proof fn law_missing_event_is_not_missed(
    agent: Seq<char>,
    before: Seq<EntryView>,
    dropped: EntryView,
    after: Seq<EntryView>,
    at: int,
)
    requires
        has_session(dropped),
        is_decided_by(session_turns(before.push(dropped) + after, session_of(dropped)), at),
        at != session_turns(before, session_of(dropped)).len(),
    ensures
        ({
            let whole = agent_tally(agent, before.push(dropped) + after);
            let rest = agent_tally(agent, before + after);
            &&& whole.turns == rest.turns + 1
            &&& same_figures(whole, TallyView { turns: whole.turns, ..rest })
        }),
{
    let a = before.push(dropped) + after;
    let b = before + after;
    let key = session_of(dropped);
    assert forall|k: Seq<char>|
        session_turns(a, k) == (if k == key {
            session_turns(before, k).push(dropped)
        } else {
            session_turns(before, k)
        }) + session_turns(after, k) && #[trigger] session_turns(b, k) == session_turns(before, k)
            + session_turns(after, k) by {
        lemma_session_turns_concat(before.push(dropped), after, k);
        lemma_session_turns_concat(before, after, k);
        assert(before.push(dropped).drop_last() =~= before);
    }
    let x = session_turns(before, key);
    let y = session_turns(after, key);
    assert(session_turns(b, key) == x + y);
    assert(session_turns(a, key) == x.push(dropped) + y);
    lemma_session_without_turn(x, dropped, y, at);
    assert forall|k: Seq<char>| #[trigger]
        session_turns(a, k).len() > 0 <==> session_turns(b, k).len() > 0 by {
        assert(session_turns(b, k) == session_turns(before, k) + session_turns(after, k));
    }
    assert forall|k: Seq<char>| #[trigger] session_turns(a, k).len() > 0 implies session_counts(
        session_turns(a, k),
    ).to_multiset() == session_counts(session_turns(b, k)).to_multiset() by {
        assert(session_turns(b, k) == session_turns(before, k) + session_turns(after, k));
    }
    lemma_orphans_concat(before.push(dropped), after);
    lemma_orphans_concat(before, after);
    assert(before.push(dropped).drop_last() =~= before);
    lemma_agent_counts_by_session(a, b);
    lemma_readable_concat(before.push(dropped), after);
    lemma_readable_concat(before, after);
    lemma_readable_bound(a);
    lemma_readable_bound(b);
    let p = agent_counts(a);
    let q = agent_counts(b);
    lemma_column_sum_order(p, q, Column::Input);
    lemma_column_sum_order(p, q, Column::Output);
    lemma_column_sum_order(p, q, Column::CacheRead);
    lemma_column_sum_order(p, q, Column::CacheWrite);
    lemma_reported_costs_order(p, q);
}

/// Two strictly ordered lists of the same texts are the same list.
proof fn lemma_same_order(a: Seq<Seq<char>>, b: Seq<Seq<char>>)
    requires
        forall|i: int, j: int|
            0 <= i < j < a.len() ==> text_lt(#[trigger] a[i], #[trigger] a[j]),
        forall|i: int, j: int|
            0 <= i < j < b.len() ==> text_lt(#[trigger] b[i], #[trigger] b[j]),
        forall|x: Seq<char>| a.contains(x) <==> #[trigger] b.contains(x),
    ensures
        a == b,
    decreases a.len(),
{
    if a.len() == 0 {
        if b.len() > 0 {
            assert(b.contains(b[0]));
        }
        assert(a =~= b);
    } else {
        assert(a.contains(a.last()));
        assert(b.contains(a.last()));
        assert(b.contains(b.last()));
        assert(a.contains(b.last()));
        let i = choose|i: int| 0 <= i < a.len() && a[i] == b.last();
        let j = choose|j: int| 0 <= j < b.len() && b[j] == a.last();
        if i < a.len() - 1 && j < b.len() - 1 {
            assert(text_lt(a[i], a[a.len() - 1]));
            assert(text_lt(b[j], b[b.len() - 1]));
            lemma_text_lt_transitive(a[i], b[j], a[i]);
            lemma_text_lt_irreflexive(a[i]);
        }
        assert(a.last() == b.last());
        let ra = a.drop_last();
        let rb = b.drop_last();
        assert forall|x: Seq<char>| ra.contains(x) <==> #[trigger] rb.contains(x) by {
            lemma_text_lt_irreflexive(x);
            if ra.contains(x) {
                let k = choose|k: int| 0 <= k < ra.len() && ra[k] == x;
                assert(a[k] == x);
                assert(text_lt(a[k], a[a.len() - 1]));
                assert(b.contains(x));
                let m = choose|m: int| 0 <= m < b.len() && b[m] == x;
                assert(rb[m] == x);
            }
            if rb.contains(x) {
                let k = choose|k: int| 0 <= k < rb.len() && rb[k] == x;
                assert(b[k] == x);
                assert(text_lt(b[k], b[b.len() - 1]));
                assert(b.contains(x));
                assert(a.contains(x));
                let m = choose|m: int| 0 <= m < a.len() && a[m] == x;
                assert(ra[m] == x);
            }
        }
        lemma_same_order(ra, rb);
        assert(a =~= ra.push(a.last()));
        assert(b =~= rb.push(b.last()));
    }
}

/// The agents of a tally.
pub open spec fn agents_of(rows: Seq<TallyView>) -> Seq<Seq<char>> {
    Seq::new(rows.len(), |i: int| rows[i].agent)
}

/// An agent with entries is the agent of one of them.
proof fn lemma_of_agent_present(entries: Seq<EntryView>, agent: Seq<char>)
    ensures
        of_agent(entries, agent).len() > 0 <==> exists|k: int|
            0 <= k < entries.len() && (#[trigger] entries[k]).agent == agent,
    decreases entries.len(),
{
    if entries.len() > 0 {
        let rest = entries.drop_last();
        lemma_of_agent_present(rest, agent);
        if exists|k: int| 0 <= k < rest.len() && (#[trigger] rest[k]).agent == agent {
            let k = choose|k: int| 0 <= k < rest.len() && (#[trigger] rest[k]).agent == agent;
            assert(entries[k].agent == agent);
        }
        if exists|k: int| 0 <= k < entries.len() && (#[trigger] entries[k]).agent == agent {
            let k = choose|k: int|
                0 <= k < entries.len() && (#[trigger] entries[k]).agent == agent;
            if k < rest.len() {
                assert(rest[k].agent == agent);
            }
        }
        if entries.last().agent == agent {
            assert(entries[entries.len() - 1].agent == agent);
        }
    }
}

/// The agents of a tally are those with an entry.
proof fn lemma_tally_agents(entries: Seq<EntryView>, rows: Seq<TallyView>, agent: Seq<char>)
    requires
        is_tally(entries, rows),
    ensures
        agents_of(rows).contains(agent) <==> of_agent(entries, agent).len() > 0,
{
    lemma_of_agent_present(entries, agent);
    if agents_of(rows).contains(agent) {
        let i = choose|i: int| 0 <= i < agents_of(rows).len() && agents_of(rows)[i] == agent;
        assert(rows[i].agent == agent);
    }
    if of_agent(entries, agent).len() > 0 {
        let k = choose|k: int| 0 <= k < entries.len() && (#[trigger] entries[k]).agent == agent;
        assert(has_row(rows, entries[k].agent));
        let i = choose|i: int| 0 <= i < rows.len() && (#[trigger] rows[i]).agent == agent;
        assert(agents_of(rows)[i] == agent);
    }
}

/// Entries of the same agents give tallies of the same agents in the same order.
pub proof fn lemma_tallies_of_same_agents(
    a: Seq<EntryView>,
    b: Seq<EntryView>,
    rows_a: Seq<TallyView>,
    rows_b: Seq<TallyView>,
)
    requires
        forall|agent: Seq<char>| #[trigger]
            of_agent(a, agent).len() == of_agent(b, agent).len(),
        is_tally(a, rows_a),
        is_tally(b, rows_b),
    ensures
        rows_a.len() == rows_b.len(),
        agents_of(rows_a) == agents_of(rows_b),
{
    let ga = agents_of(rows_a);
    let gb = agents_of(rows_b);
    assert forall|x: Seq<char>| ga.contains(x) <==> #[trigger] gb.contains(x) by {
        lemma_tally_agents(a, rows_a, x);
        lemma_tally_agents(b, rows_b, x);
        assert(of_agent(a, x).len() == of_agent(b, x).len());
    }
    assert forall|i: int, j: int| 0 <= i < j < ga.len() implies text_lt(
        #[trigger] ga[i],
        #[trigger] ga[j],
    ) by {
        assert(text_lt(rows_a[i].agent, rows_a[j].agent));
    }
    assert forall|i: int, j: int| 0 <= i < j < gb.len() implies text_lt(
        #[trigger] gb[i],
        #[trigger] gb[j],
    ) by {
        assert(text_lt(rows_b[i].agent, rows_b[j].agent));
    }
    lemma_same_order(ga, gb);
    assert(rows_a.len() == ga.len() && rows_b.len() == gb.len());
}

/// The order in which entries come does not change the tallies, provided that
/// every session is settled: the same agents are listed in the same order with
/// the same figures.
pub proof fn law_order_of_arrival(
    a: Seq<EntryView>,
    b: Seq<EntryView>,
    rows_a: Seq<TallyView>,
    rows_b: Seq<TallyView>,
)
    requires
        a.to_multiset() == b.to_multiset(),
        forall|agent: Seq<char>, key: Seq<char>|
            settled(#[trigger] session_turns(of_agent(a, agent), key)),
        is_tally(a, rows_a),
        is_tally(b, rows_b),
    ensures
        rows_a.len() == rows_b.len(),
        forall|i: int|
            0 <= i < rows_a.len() ==> same_figures(#[trigger] rows_a[i], #[trigger] rows_b[i]),
{
    assert forall|x: Seq<char>| #[trigger] of_agent(a, x).len() == of_agent(b, x).len() by {
        lemma_of_agent_multiset(a, x);
        lemma_of_agent_multiset(b, x);
        to_multiset_len(of_agent(a, x));
        to_multiset_len(of_agent(b, x));
    }
    lemma_tallies_of_same_agents(a, b, rows_a, rows_b);
    let ga = agents_of(rows_a);
    let gb = agents_of(rows_b);
    assert(rows_a.len() == ga.len() && rows_b.len() == gb.len());
    assert forall|i: int| 0 <= i < rows_a.len() implies same_figures(
        #[trigger] rows_a[i],
        #[trigger] rows_b[i],
    ) by {
        let agent = rows_a[i].agent;
        assert(ga[i] == gb[i]);
        assert(rows_b[i].agent == agent);
        lemma_of_agent_multiset(a, agent);
        lemma_of_agent_multiset(b, agent);
        law_agent_order(agent, of_agent(a, agent), of_agent(b, agent));
        assert(rows_a[i] == agent_tally(agent, of_agent(a, agent)));
        assert(rows_b[i] == agent_tally(agent, of_agent(b, agent)));
    }
}

/// All turns of all tallies, readable or not.
pub open spec fn turns_in(rows: Seq<TallyView>) -> nat
    decreases rows.len(),
{
    if rows.len() == 0 {
        0
    } else {
        turns_in(rows.drop_last()) + rows.last().turns + rows.last().undecryptable_turns
    }
}

/// How many entries belong to the given agents.
spec fn entries_of(entries: Seq<EntryView>, agents: Seq<Seq<char>>) -> nat
    decreases agents.len(),
{
    if agents.len() == 0 {
        0
    } else {
        entries_of(entries, agents.drop_last()) + of_agent(entries, agents.last()).len()
    }
}

/// One more entry is one more for the agents that it belongs to.
proof fn lemma_entries_of_push(
    entries: Seq<EntryView>,
    entry: EntryView,
    agents: Seq<Seq<char>>,
)
    requires
        agents.no_duplicates(),
    ensures
        entries_of(entries.push(entry), agents) == entries_of(entries, agents) + if agents.contains(
            entry.agent,
        ) {
            1nat
        } else {
            0nat
        },
    decreases agents.len(),
{
    if agents.len() > 0 {
        let rest = agents.drop_last();
        lemma_entries_of_push(entries, entry, rest);
        assert(entries.push(entry).drop_last() =~= entries);
        assert(agents[agents.len() - 1] == agents.last());
        if rest.contains(entry.agent) {
            let i = choose|i: int| 0 <= i < rest.len() && rest[i] == entry.agent;
            assert(agents[i] == entry.agent);
        }
        if agents.contains(entry.agent) && agents.last() != entry.agent {
            let i = choose|i: int| 0 <= i < agents.len() && agents[i] == entry.agent;
            assert(rest[i] == entry.agent);
        }
    }
}

/// Agents that cover all entries have them all.
proof fn lemma_entries_of_all(entries: Seq<EntryView>, agents: Seq<Seq<char>>)
    requires
        agents.no_duplicates(),
        forall|k: int|
            0 <= k < entries.len() ==> agents.contains((#[trigger] entries[k]).agent),
    ensures
        entries_of(entries, agents) == entries.len(),
    decreases entries.len(),
{
    if entries.len() == 0 {
        lemma_entries_of_none(entries, agents);
    } else {
        let rest = entries.drop_last();
        assert forall|k: int| 0 <= k < rest.len() implies agents.contains(
            (#[trigger] rest[k]).agent,
        ) by {
            assert(entries[k] == rest[k]);
        }
        lemma_entries_of_all(rest, agents);
        lemma_entries_of_push(rest, entries.last(), agents);
        assert(entries =~= rest.push(entries.last()));
        assert(entries[entries.len() - 1] == entries.last());
    }
}

/// Nobody has entries where there are none.
proof fn lemma_entries_of_none(entries: Seq<EntryView>, agents: Seq<Seq<char>>)
    requires
        entries.len() == 0,
    ensures
        entries_of(entries, agents) == 0,
    decreases agents.len(),
{
    if agents.len() > 0 {
        lemma_entries_of_none(entries, agents.drop_last());
    }
}

/// There are no more readable turns than entries.
pub proof fn lemma_readable_bound(entries: Seq<EntryView>)
    ensures
        readable(entries) <= entries.len(),
    decreases entries.len(),
{
    if entries.len() > 0 {
        lemma_readable_bound(entries.drop_last());
    }
}

/// The turns of the rows are the entries of their agents.
proof fn lemma_turns_in(entries: Seq<EntryView>, rows: Seq<TallyView>)
    requires
        forall|i: int|
            0 <= i < rows.len() ==> #[trigger] rows[i] == agent_tally(
                rows[i].agent,
                of_agent(entries, rows[i].agent),
            ),
    ensures
        turns_in(rows) == entries_of(entries, agents_of(rows)),
    decreases rows.len(),
{
    if rows.len() > 0 {
        let rest = rows.drop_last();
        assert forall|i: int| 0 <= i < rest.len() implies #[trigger] rest[i] == agent_tally(
            rest[i].agent,
            of_agent(entries, rest[i].agent),
        ) by {
            assert(rest[i] == rows[i]);
        }
        lemma_turns_in(entries, rest);
        assert(agents_of(rows).drop_last() =~= agents_of(rest));
        let last = rows[rows.len() - 1];
        assert(last == agent_tally(last.agent, of_agent(entries, last.agent)));
        lemma_readable_bound(of_agent(entries, last.agent));
    }
}

/// No turn is lost and none is counted twice: each row counts as many turns,
/// readable or not, as its agent has entries, and all rows together count as
/// many as there are entries.
pub proof fn law_every_turn_counted_once(entries: Seq<EntryView>, rows: Seq<TallyView>)
    requires
        is_tally(entries, rows),
    ensures
        forall|i: int|
            0 <= i < rows.len() ==> (#[trigger] rows[i]).turns + rows[i].undecryptable_turns
                == of_agent(entries, rows[i].agent).len(),
        turns_in(rows) == entries.len(),
{
    let agents = agents_of(rows);
    assert forall|i: int| 0 <= i < rows.len() implies (#[trigger] rows[i]).turns
        + rows[i].undecryptable_turns == of_agent(entries, rows[i].agent).len() by {
        lemma_readable_bound(of_agent(entries, rows[i].agent));
    }
    assert forall|i: int, j: int|
        0 <= i < agents.len() && 0 <= j < agents.len() && i != j implies agents[i]
        != agents[j] by {
        lemma_text_lt_irreflexive(agents[i]);
        if i < j {
            assert(text_lt(rows[i].agent, rows[j].agent));
        } else {
            assert(text_lt(rows[j].agent, rows[i].agent));
        }
    }
    assert forall|k: int| 0 <= k < entries.len() implies agents.contains(
        (#[trigger] entries[k]).agent,
    ) by {
        assert(has_row(rows, entries[k].agent));
        let i = choose|i: int|
            0 <= i < rows.len() && (#[trigger] rows[i]).agent == entries[k].agent;
        assert(agents[i] == entries[k].agent);
    }
    lemma_turns_in(entries, rows);
    lemma_entries_of_all(entries, agents);
}

/// Every agent that occurs has exactly one row, also where none of its turns
/// can be read, and nobody else has one.
pub proof fn law_every_agent_listed_once(
    entries: Seq<EntryView>,
    rows: Seq<TallyView>,
    agent: Seq<char>,
)
    requires
        is_tally(entries, rows),
    ensures
        (exists|k: int| 0 <= k < entries.len() && (#[trigger] entries[k]).agent == agent)
            <==> has_row(rows, agent),
        forall|i: int, j: int|
            0 <= i < rows.len() && 0 <= j < rows.len() && #[trigger] rows[i].agent == agent
                && #[trigger] rows[j].agent == agent ==> i == j,
{
    lemma_tally_agents(entries, rows, agent);
    lemma_of_agent_present(entries, agent);
    let agents = agents_of(rows);
    if agents.contains(agent) {
        let i = choose|i: int| 0 <= i < agents.len() && agents[i] == agent;
        assert(rows[i].agent == agent);
    }
    if has_row(rows, agent) {
        let i = choose|i: int| 0 <= i < rows.len() && (#[trigger] rows[i]).agent == agent;
        assert(agents[i] == agent);
    }
    lemma_text_lt_irreflexive(agent);
}

/// An entry of another agent, wherever it stands, does not touch an agent's
/// tally.
pub proof fn law_agents_stay_separate(
    before: Seq<EntryView>,
    other: EntryView,
    after: Seq<EntryView>,
    agent: Seq<char>,
)
    requires
        other.agent != agent,
    ensures
        agent_tally(agent, of_agent(before.push(other) + after, agent)) == agent_tally(
            agent,
            of_agent(before + after, agent),
        ),
{
    lemma_of_agent_without(before, other, after, agent);
}

/// An entry of another agent is not among an agent's entries.
proof fn lemma_of_agent_without(
    before: Seq<EntryView>,
    other: EntryView,
    after: Seq<EntryView>,
    agent: Seq<char>,
)
    requires
        other.agent != agent,
    ensures
        of_agent(before.push(other) + after, agent) == of_agent(before + after, agent),
    decreases after.len(),
{
    if after.len() == 0 {
        assert(before.push(other) + after =~= before.push(other));
        assert(before.push(other).drop_last() =~= before);
        assert(before + after =~= before);
    } else {
        lemma_of_agent_without(before, other, after.drop_last(), agent);
        assert((before.push(other) + after).drop_last() =~= before.push(other)
            + after.drop_last());
        assert((before + after).drop_last() =~= before + after.drop_last());
    }
}

/// A turn that cannot be read is counted as such and adds to nothing else.
pub proof fn law_unreadable_turn(agent: Seq<char>, entries: Seq<EntryView>, entry: EntryView)
    requires
        entry.turn is None,
    ensures
        agent_tally(agent, entries.push(entry)) == (TallyView {
            undecryptable_turns: agent_tally(agent, entries).undecryptable_turns + 1,
            ..agent_tally(agent, entries)
        }),
{
    let next = entries.push(entry);
    assert(next.drop_last() =~= entries);
    assert(session_keys(next) == session_keys(entries));
    lemma_readable_bound(entries);
    lemma_sessions_counts_other(entries, entry, session_keys(entries));
}

/// What sessions with an id add does not change with an entry that has none.
proof fn lemma_sessions_counts_other(
    entries: Seq<EntryView>,
    entry: EntryView,
    keys: Seq<Seq<char>>,
)
    requires
        !has_session(entry),
    ensures
        sessions_counts(entries.push(entry), keys) == sessions_counts(entries, keys),
    decreases keys.len(),
{
    if keys.len() > 0 {
        lemma_sessions_counts_other(entries, entry, keys.drop_last());
        assert(entries.push(entry).drop_last() =~= entries);
    }
}

/// A turn without a session id joins no session that has one, whatever that id
/// is.
pub proof fn law_orphan_joins_no_session(
    before: Seq<EntryView>,
    orphan: EntryView,
    after: Seq<EntryView>,
    key: Seq<char>,
)
    requires
        is_orphan(orphan),
    ensures
        session_turns(before.push(orphan) + after, key) == session_turns(before + after, key),
{
    lemma_session_turns_concat(before.push(orphan), after, key);
    lemma_session_turns_concat(before, after, key);
    assert(before.push(orphan).drop_last() =~= before);
}

/// Every readable turn without a session id is a session of its own, whatever
/// other turns there are: it adds one turn and one session, and what it counts
/// for by itself. So no two of them are taken for one.
pub proof fn law_orphan_is_its_own_session(
    agent: Seq<char>,
    entries: Seq<EntryView>,
    orphan: EntryView,
)
    requires
        is_orphan(orphan),
    ensures
        ({
            let whole = agent_tally(agent, entries.push(orphan));
            let rest = agent_tally(agent, entries);
            &&& whole == plus_counts(
                TallyView { turns: rest.turns + 1, sessions: rest.sessions + 1, ..rest },
                session_counts(seq![orphan]),
            )
        }),
{
    let next = entries.push(orphan);
    assert(next.drop_last() =~= entries);
    assert(session_keys(next) == session_keys(entries));
    assert(orphans(next) == orphans(entries).push(orphan));
    assert(orphans(next).drop_last() =~= orphans(entries));
    lemma_sessions_counts_other(entries, orphan, session_keys(entries));
    let own = session_counts(seq![orphan]);
    assert(agent_counts(next) =~= agent_counts(entries) + own);
    let c = agent_counts(entries);
    lemma_column_sum_add(c, own, Column::Input);
    lemma_column_sum_add(c, own, Column::Output);
    lemma_column_sum_add(c, own, Column::CacheRead);
    lemma_column_sum_add(c, own, Column::CacheWrite);
    lemma_reported_costs_add(c, own);
    lemma_readable_bound(entries);
    let rest = agent_tally(agent, entries);
    assert(agent_tally(agent, next) =~= plus_counts(
        TallyView { turns: rest.turns + 1, sessions: rest.sessions + 1, ..rest },
        own,
    ));
}

/// A turn counts by its session counts, or else by its own, where it is a
/// session of its own.
pub proof fn law_what_an_orphan_adds(orphan: EntryView)
    requires
        is_orphan(orphan),
    ensures
        session_counts(seq![orphan]) == match orphan.turn->0.cumulative {
            Some(counts) => seq![counts],
            None => match orphan.turn->0.turn {
                Some(counts) => seq![counts],
                None => Seq::empty(),
            },
        },
{
    reveal_with_fuel(own_counts, 2);
    assert(seq![orphan].drop_last() =~= Seq::empty());
    assert(own_counts(seq![orphan]) =~= match orphan.turn->0.turn {
        Some(counts) => seq![counts],
        None => Seq::empty(),
    });
}

/// The counts of a list that keep a column within the input column.
proof fn lemma_column_within_input(counts: Seq<TokenCounts>, col: Column)
    requires
        forall|i: int|
            0 <= i < counts.len() ==> column(#[trigger] counts[i], col) <= column(
                counts[i],
                Column::Input,
            ),
    ensures
        column_sum(counts, col) <= column_sum(counts, Column::Input),
    decreases counts.len(),
{
    if counts.len() > 0 {
        let rest = counts.drop_last();
        assert forall|i: int| 0 <= i < rest.len() implies column(#[trigger] rest[i], col)
            <= column(rest[i], Column::Input) by {
            assert(rest[i] == counts[i]);
        }
        lemma_column_within_input(rest, col);
        assert(counts[counts.len() - 1] == counts.last());
    }
}

/// Whether the cache figures of counts are parts of their input figure.
pub open spec fn cache_within_input(counts: TokenCounts) -> bool {
    &&& column(counts, Column::CacheRead) <= column(counts, Column::Input)
    &&& column(counts, Column::CacheWrite) <= column(counts, Column::Input)
}

/// Adding counts keeps the cache figures parts of the input figure where they
/// are, also where a sum stops at the largest number, and makes no token column
/// smaller.
pub proof fn law_cache_stays_within_input(out: TallyView, counts: Seq<TokenCounts>)
    requires
        out.input_tokens <= u64::MAX,
        out.output_tokens <= u64::MAX,
        out.cache_read_tokens <= out.input_tokens,
        out.cache_write_tokens <= out.input_tokens,
        forall|i: int| 0 <= i < counts.len() ==> cache_within_input(#[trigger] counts[i]),
    ensures
        ({
            let sum = plus_counts(out, counts);
            &&& sum.cache_read_tokens <= sum.input_tokens
            &&& sum.cache_write_tokens <= sum.input_tokens
            &&& sum.input_tokens >= out.input_tokens
            &&& sum.output_tokens >= out.output_tokens
            &&& sum.cache_read_tokens >= out.cache_read_tokens
            &&& sum.cache_write_tokens >= out.cache_write_tokens
        }),
{
    assert forall|i: int| 0 <= i < counts.len() implies column(
        #[trigger] counts[i],
        Column::CacheRead,
    ) <= column(counts[i], Column::Input) && column(counts[i], Column::CacheWrite) <= column(
        counts[i],
        Column::Input,
    ) by {
        assert(cache_within_input(counts[i]));
    }
    lemma_column_within_input(counts, Column::CacheRead);
    lemma_column_within_input(counts, Column::CacheWrite);
}

/// No token column gets smaller by adding counts, whatever they are.
pub proof fn law_columns_never_shrink(out: TallyView, counts: Seq<TokenCounts>)
    requires
        out.input_tokens <= u64::MAX,
        out.output_tokens <= u64::MAX,
        out.cache_read_tokens <= u64::MAX,
        out.cache_write_tokens <= u64::MAX,
    ensures
        plus_counts(out, counts).input_tokens >= out.input_tokens,
        plus_counts(out, counts).output_tokens >= out.output_tokens,
        plus_counts(out, counts).cache_read_tokens >= out.cache_read_tokens,
        plus_counts(out, counts).cache_write_tokens >= out.cache_write_tokens,
{
}

/// Whether the cache figures of all counts that an entry reports are parts of
/// their input figures.
pub open spec fn reports_cache_within_input(entry: EntryView) -> bool {
    entry.turn matches Some(turn) ==> {
        &&& turn.turn matches Some(counts) ==> cache_within_input(counts)
        &&& turn.cumulative matches Some(counts) ==> cache_within_input(counts)
    }
}

/// Whether the cache figures of all counts are parts of their input figures.
spec fn all_within(counts: Seq<TokenCounts>) -> bool {
    forall|i: int| 0 <= i < counts.len() ==> cache_within_input(#[trigger] counts[i])
}

/// Whether this holds of all counts that readable turns report.
spec fn turns_within(turns: Seq<EntryView>) -> bool {
    forall|i: int|
        0 <= i < turns.len() ==> (#[trigger] turns[i]).turn is Some && reports_cache_within_input(
            turns[i],
        )
}

/// The turns' own counts have it from the turns.
proof fn lemma_own_counts_within(turns: Seq<EntryView>)
    requires
        turns_within(turns),
    ensures
        all_within(own_counts(turns)),
    decreases turns.len(),
{
    if turns.len() > 0 {
        let rest = turns.drop_last();
        assert forall|i: int| 0 <= i < rest.len() implies (#[trigger] rest[i]).turn is Some
            && reports_cache_within_input(rest[i]) by {
            assert(rest[i] == turns[i]);
        }
        lemma_own_counts_within(rest);
        let last = turns[turns.len() - 1];
        assert(last.turn is Some && reports_cache_within_input(last));
        let before = own_counts(rest);
        assert forall|i: int| 0 <= i < own_counts(turns).len() implies cache_within_input(
            #[trigger] own_counts(turns)[i],
        ) by {
            if i < before.len() {
                assert(cache_within_input(before[i]));
            }
        }
    }
}

/// What a session adds has it from the session's turns.
proof fn lemma_session_counts_within(turns: Seq<EntryView>)
    requires
        turns.len() > 0,
        turns_within(turns),
    ensures
        all_within(session_counts(turns)),
{
    lemma_own_counts_within(turns);
    lemma_final_turn_latest(turns);
    let at = choose|at: int| 0 <= at < turns.len() && turns[at] == final_turn(turns);
    assert(reports_cache_within_input(turns[at]));
}

/// The turns of a session are among the entries.
proof fn lemma_session_turns_within(entries: Seq<EntryView>, key: Seq<char>)
    requires
        forall|i: int| 0 <= i < entries.len() ==> reports_cache_within_input(#[trigger] entries[i]),
    ensures
        turns_within(session_turns(entries, key)),
        turns_within(orphans(entries)),
    decreases entries.len(),
{
    if entries.len() > 0 {
        let rest = entries.drop_last();
        assert forall|i: int| 0 <= i < rest.len() implies reports_cache_within_input(
            #[trigger] rest[i],
        ) by {
            assert(rest[i] == entries[i]);
        }
        lemma_session_turns_within(rest, key);
        assert(reports_cache_within_input(entries[entries.len() - 1]));
        let a = session_turns(rest, key);
        let b = session_turns(entries, key);
        assert forall|i: int| 0 <= i < b.len() implies (#[trigger] b[i]).turn is Some
            && reports_cache_within_input(b[i]) by {
            if i < a.len() {
                assert(b[i] == a[i]);
            }
        }
        let c = orphans(rest);
        let d = orphans(entries);
        assert forall|i: int| 0 <= i < d.len() implies (#[trigger] d[i]).turn is Some
            && reports_cache_within_input(d[i]) by {
            if i < c.len() {
                assert(d[i] == c[i]);
            }
        }
    }
}

/// Two lists that have it have it together.
proof fn lemma_all_within_concat(a: Seq<TokenCounts>, b: Seq<TokenCounts>)
    requires
        all_within(a),
        all_within(b),
    ensures
        all_within(a + b),
{
    assert forall|i: int| 0 <= i < (a + b).len() implies cache_within_input(
        #[trigger] (a + b)[i],
    ) by {
        if i < a.len() {
            assert(cache_within_input(a[i]));
        } else {
            assert(cache_within_input(b[i - a.len()]));
        }
    }
}

/// What the sessions with an id add has it.
proof fn lemma_sessions_counts_within(entries: Seq<EntryView>, keys: Seq<Seq<char>>)
    requires
        forall|i: int| 0 <= i < entries.len() ==> reports_cache_within_input(#[trigger] entries[i]),
        forall|i: int|
            0 <= i < keys.len() ==> session_turns(entries, #[trigger] keys[i]).len() > 0,
    ensures
        all_within(sessions_counts(entries, keys)),
    decreases keys.len(),
{
    if keys.len() > 0 {
        let rest = keys.drop_last();
        assert forall|i: int| 0 <= i < rest.len() implies session_turns(
            entries,
            #[trigger] rest[i],
        ).len() > 0 by {
            assert(rest[i] == keys[i]);
        }
        lemma_sessions_counts_within(entries, rest);
        let key = keys[keys.len() - 1];
        assert(session_turns(entries, key).len() > 0);
        lemma_session_turns_within(entries, key);
        lemma_session_counts_within(session_turns(entries, key));
        lemma_all_within_concat(
            sessions_counts(entries, rest),
            session_counts(session_turns(entries, key)),
        );
    }
}

/// What the turns without a session id add has it.
proof fn lemma_orphans_counts_within(turns: Seq<EntryView>)
    requires
        turns_within(turns),
    ensures
        all_within(orphans_counts(turns)),
    decreases turns.len(),
{
    if turns.len() > 0 {
        let rest = turns.drop_last();
        assert forall|i: int| 0 <= i < rest.len() implies (#[trigger] rest[i]).turn is Some
            && reports_cache_within_input(rest[i]) by {
            assert(rest[i] == turns[i]);
        }
        lemma_orphans_counts_within(rest);
        let last = turns[turns.len() - 1];
        assert(last.turn is Some && reports_cache_within_input(last));
        lemma_session_counts_within(seq![last]);
        lemma_all_within_concat(orphans_counts(rest), session_counts(seq![last]));
    }
}

/// Where the cache figures of every report are parts of its input figure, so
/// are those of an agent's tally.
pub proof fn law_tally_keeps_cache_within_input(agent: Seq<char>, entries: Seq<EntryView>)
    requires
        forall|i: int| 0 <= i < entries.len() ==> reports_cache_within_input(#[trigger] entries[i]),
    ensures
        agent_tally(agent, entries).cache_read_tokens <= agent_tally(agent, entries).input_tokens,
        agent_tally(agent, entries).cache_write_tokens <= agent_tally(agent, entries).input_tokens,
{
    let keys = session_keys(entries);
    lemma_session_keys(entries);
    assert forall|i: int| 0 <= i < keys.len() implies session_turns(
        entries,
        #[trigger] keys[i],
    ).len() > 0 by {
        assert(keys.contains(keys[i]));
    }
    lemma_sessions_counts_within(entries, keys);
    lemma_session_turns_within(entries, Seq::empty());
    lemma_orphans_counts_within(orphans(entries));
    let counts = agent_counts(entries);
    lemma_all_within_concat(sessions_counts(entries, keys), orphans_counts(orphans(entries)));
    assert forall|i: int| 0 <= i < counts.len() implies column(
        #[trigger] counts[i],
        Column::CacheRead,
    ) <= column(counts[i], Column::Input) && column(counts[i], Column::CacheWrite) <= column(
        counts[i],
        Column::Input,
    ) by {
        assert(cache_within_input(counts[i]));
    }
    lemma_column_within_input(counts, Column::CacheRead);
    lemma_column_within_input(counts, Column::CacheWrite);
}

} // verus!
