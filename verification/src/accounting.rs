//! What the figures of an agent are, entry by entry.
//!
//! Each figure of a tally is a sum over the agent's entries. What an entry adds
//! is told here by the fields of the entries alone.

use crate::metric::{
    entry_views, MetricEntry, TokenCounts, Usd,
};
use crate::tally::{
    agent_counts, agent_tally, capped, column, column_sum, final_turn, has_row, has_session, in_session,
    is_orphan, is_tally, later, of_agent, orphans, orphans_counts, own_counts, readable,
    reported_costs, session_counts, session_keys, session_of, session_turns, sessions_counts,
    tally_views, AgentTally, Column,
};
use crate::tally_laws::{
    law_what_an_orphan_adds, lemma_column_sum_order, lemma_concat_multiset, lemma_readable_bound,
    lemma_reported_costs_order, lemma_session_keys,
};
use crate::text::{lemma_text_lt_irreflexive, text_lt};
use vstd::multiset::Multiset;
use vstd::prelude::*;

verus! {

/// The sum of `f` over the first `n` places.
pub open spec fn sum_to(n: int, f: spec_fn(int) -> nat) -> nat
    decreases n,
{
    if n <= 0 {
        0
    } else {
        sum_to(n - 1, f) + f(n - 1)
    }
}

/// How many of the first `n` places have `p`.
pub open spec fn count_to(n: int, p: spec_fn(int) -> bool) -> nat
    decreases n,
{
    if n <= 0 {
        0
    } else {
        count_to(n - 1, p) + if p(n - 1) {
            1nat
        } else {
            0nat
        }
    }
}

/// A number that was not reported counts as zero.
pub open spec fn number_or_zero(number: Option<u64>) -> nat {
    match number {
        Some(n) => n as nat,
        None => 0,
    }
}

/// Whether both entries can be read and have the same session id.
pub open spec fn same_session(a: MetricEntry, b: MetricEntry) -> bool {
    &&& a.payload is Some
    &&& b.payload is Some
    &&& a.payload->0.session_id is Some
    &&& b.payload->0.session_id is Some
    &&& a.payload->0.session_id->0@ == b.payload->0.session_id->0@
}

/// Whether the turn `a` comes after the turn `b`: by its number, then by its
/// time.
pub open spec fn comes_after(a: MetricEntry, b: MetricEntry) -> bool {
    let m = number_or_zero(a.payload->0.turn_seq);
    let n = number_or_zero(b.payload->0.turn_seq);
    m > n || m == n && a.created_at > b.created_at
}

/// Whether the turn at `d` is the final one of the session that the turn at `i`
/// belongs to: none comes after it, and it stands behind those that come neither
/// before nor after it.
pub open spec fn is_final_of(own: Seq<MetricEntry>, d: int, i: int) -> bool {
    &&& 0 <= d < own.len()
    &&& same_session(own[d], own[i])
    &&& forall|j: int|
        0 <= j < own.len() && j != d && same_session(#[trigger] own[j], own[i]) ==> comes_after(
            own[d],
            own[j],
        ) || !comes_after(own[j], own[d]) && j < d
}

/// Whether the final turn of the session of the turn at `i` has session counts.
pub open spec fn has_session_counts(own: Seq<MetricEntry>, i: int) -> bool {
    exists|d: int| #[trigger] is_final_of(own, d, i) && own[d].payload->0.cumulative is Some
}

/// What the entry at `i` adds to its agent's figures, if anything. A turn without
/// a session id adds its session counts, or else its own. Of a session whose
/// final turn has session counts only that turn adds them; of any other session
/// each turn adds its own.
pub open spec fn added_by(own: Seq<MetricEntry>, i: int) -> Option<TokenCounts> {
    match own[i].payload {
        None => None,
        Some(payload) => if payload.session_id is None {
            if payload.cumulative is Some {
                payload.cumulative
            } else {
                payload.turn
            }
        } else if has_session_counts(own, i) {
            if is_final_of(own, i, i) {
                payload.cumulative
            } else {
                None
            }
        } else {
            payload.turn
        },
    }
}

/// Whether a session begins with the entry at `i`: a turn without a session id,
/// or the first with its id.
pub open spec fn begins_session(own: Seq<MetricEntry>, i: int) -> bool {
    &&& own[i].payload is Some
    &&& own[i].payload->0.session_id is None || forall|j: int|
        0 <= j < i ==> !same_session(#[trigger] own[j], own[i])
}

/// The largest number that a figure can show.
pub open spec fn at_most_max(sum: nat) -> nat {
    if sum > 0xffff_ffff_ffff_ffff {
        0xffff_ffff_ffff_ffff
    } else {
        sum
    }
}

/// What a token figure gets from counts that may be missing.
pub open spec fn figure_of(
    counts: Option<TokenCounts>,
    figure: spec_fn(TokenCounts) -> Option<u64>,
) -> nat {
    match counts {
        Some(c) => number_or_zero(figure(c)),
        None => 0,
    }
}

/// Whether a token figure is the sum of what the entries add to it.
pub open spec fn is_token_sum(
    own: Seq<MetricEntry>,
    shown: u64,
    figure: spec_fn(TokenCounts) -> Option<u64>,
) -> bool {
    shown == at_most_max(
        sum_to(own.len() as int, |i: int| figure_of(added_by(own, i), figure)),
    )
}

/// The entries of one agent.
pub open spec fn entries_with(entries: Seq<MetricEntry>, agent: Seq<char>) -> Seq<MetricEntry> {
    entries.filter(|e: MetricEntry| e.agent_pubkey@ == agent)
}

/// Whether a tally is what the entries of its agent add up to.
pub open spec fn accounts_for(entries: Seq<MetricEntry>, row: AgentTally) -> bool {
    let own = entries_with(entries, row.agent_pubkey@);
    &&& row.turns == count_to(own.len() as int, |i: int| own[i].payload is Some)
    &&& row.undecryptable_turns == count_to(own.len() as int, |i: int| own[i].payload is None)
    &&& row.sessions == count_to(own.len() as int, |i: int| begins_session(own, i))
    &&& is_token_sum(own, row.input_tokens, |c: TokenCounts| c.input_tokens)
    &&& is_token_sum(own, row.output_tokens, |c: TokenCounts| c.output_tokens)
    &&& is_token_sum(own, row.cache_read_tokens, |c: TokenCounts| c.cache_read_tokens)
    &&& is_token_sum(own, row.cache_write_tokens, |c: TokenCounts| c.cache_write_tokens)
    &&& forall|usd: Usd| #[trigger]
        row.costs@.to_multiset().count(usd) == count_to(
            own.len() as int,
            |i: int| added_by(own, i) is Some && added_by(own, i)->0.cost_usd == Some(usd),
        )
}

/// An agent's entries and their views.
proof fn lemma_entries_with(entries: Seq<MetricEntry>, agent: Seq<char>)
    ensures
        entry_views(entries_with(entries, agent)) == of_agent(entry_views(entries), agent),
    decreases entries.len(),
{
    reveal(Seq::filter);
    let views = entry_views(entries);
    if entries.len() == 0 {
        assert(entry_views(entries_with(entries, agent)) =~= of_agent(views, agent));
    } else {
        let rest = entries.drop_last();
        lemma_entries_with(rest, agent);
        assert(views.drop_last() =~= entry_views(rest));
        assert(views.last() == entries.last()@);
        assert(entry_views(entries_with(entries, agent)) =~= of_agent(views, agent));
    }
}

/// What the first `n` entries add, one after the other.
spec fn added(own: Seq<MetricEntry>, n: int) -> Seq<TokenCounts>
    decreases n,
{
    if n <= 0 {
        Seq::empty()
    } else {
        match added_by(own, n - 1) {
            Some(counts) => added(own, n - 1).push(counts),
            None => added(own, n - 1),
        }
    }
}

/// What the first `n` entries add that have the session id `key`.
spec fn added_in(own: Seq<MetricEntry>, n: int, key: Seq<char>) -> Seq<TokenCounts>
    decreases n,
{
    if n <= 0 {
        Seq::empty()
    } else {
        match added_by(own, n - 1) {
            Some(counts) => if in_session(own[n - 1]@, key) {
                added_in(own, n - 1, key).push(counts)
            } else {
                added_in(own, n - 1, key)
            },
            None => added_in(own, n - 1, key),
        }
    }
}

/// What the first `n` entries add that have no session id.
spec fn added_alone(own: Seq<MetricEntry>, n: int) -> Seq<TokenCounts>
    decreases n,
{
    if n <= 0 {
        Seq::empty()
    } else {
        match added_by(own, n - 1) {
            Some(counts) => if is_orphan(own[n - 1]@) {
                added_alone(own, n - 1).push(counts)
            } else {
                added_alone(own, n - 1)
            },
            None => added_alone(own, n - 1),
        }
    }
}

/// What the first `n` entries add that have one of the session ids.
spec fn added_in_all(own: Seq<MetricEntry>, n: int, keys: Seq<Seq<char>>) -> Seq<TokenCounts>
    decreases keys.len(),
{
    if keys.len() == 0 {
        Seq::empty()
    } else {
        added_in_all(own, n, keys.drop_last()) + added_in(own, n, keys.last())
    }
}

/// One more entry adds to its session, and to no other.
proof fn lemma_added_in_all(own: Seq<MetricEntry>, n: int, keys: Seq<Seq<char>>)
    requires
        0 < n <= own.len(),
        keys.no_duplicates(),
    ensures
        added_in_all(own, n, keys).to_multiset() == if has_session(own[n - 1]@) && keys.contains(
            session_of(own[n - 1]@),
        ) && added_by(own, n - 1) is Some {
            added_in_all(own, n - 1, keys).to_multiset().insert(added_by(own, n - 1)->0)
        } else {
            added_in_all(own, n - 1, keys).to_multiset()
        },
    decreases keys.len(),
{
    broadcast use vstd::seq_lib::group_to_multiset_ensures;

    if keys.len() > 0 {
        let rest = keys.drop_last();
        let last = keys.last();
        let entry = own[n - 1]@;
        lemma_added_in_all(own, n, rest);
        lemma_concat_multiset(added_in_all(own, n, rest), added_in(own, n, last));
        lemma_concat_multiset(added_in_all(own, n - 1, rest), added_in(own, n - 1, last));
        assert(keys[keys.len() - 1] == last);
        if has_session(entry) {
            let key = session_of(entry);
            if rest.contains(key) {
                let i = choose|i: int| 0 <= i < rest.len() && rest[i] == key;
                assert(keys[i] == key);
                assert(key != last);
            }
            if keys.contains(key) && key != last {
                let i = choose|i: int| 0 <= i < keys.len() && keys[i] == key;
                assert(rest[i] == key);
            }
            if key == last {
                assert(keys.contains(key));
            }
        }
        let before = added_in_all(own, n - 1, keys).to_multiset();
        let after = added_in_all(own, n, keys).to_multiset();
        if has_session(entry) && keys.contains(session_of(entry)) && added_by(own, n - 1) is Some {
            assert(after =~= before.insert(added_by(own, n - 1)->0));
        } else {
            assert(after =~= before);
        }
    }
}

/// What entries add is what those in sessions and those without add.
proof fn lemma_added_parts(own: Seq<MetricEntry>, n: int, keys: Seq<Seq<char>>)
    requires
        0 <= n <= own.len(),
        keys.no_duplicates(),
        forall|i: int|
            0 <= i < n && has_session((#[trigger] own[i])@) ==> keys.contains(session_of(own[i]@)),
    ensures
        added(own, n).to_multiset() == added_in_all(own, n, keys).to_multiset().add(
            added_alone(own, n).to_multiset(),
        ),
    decreases n,
{
    broadcast use vstd::seq_lib::group_to_multiset_ensures;

    if n > 0 {
        lemma_added_parts(own, n - 1, keys);
        lemma_added_in_all(own, n, keys);
        let entry = own[n - 1]@;
        assert(added_by(own, n - 1) is Some ==> has_session(entry) || is_orphan(entry));
        assert(!(has_session(entry) && is_orphan(entry)));
        assert(added(own, n).to_multiset() =~= added_in_all(own, n, keys).to_multiset().add(
            added_alone(own, n).to_multiset(),
        ));
    } else {
        lemma_added_in_none(own, keys);
        assert(added(own, n).to_multiset() =~= added_in_all(own, n, keys).to_multiset().add(
            added_alone(own, n).to_multiset(),
        ));
    }
}

/// No entries add nothing.
proof fn lemma_added_in_none(own: Seq<MetricEntry>, keys: Seq<Seq<char>>)
    ensures
        added_in_all(own, 0, keys) == Seq::<TokenCounts>::empty(),
    decreases keys.len(),
{
    if keys.len() > 0 {
        lemma_added_in_none(own, keys.drop_last());
        assert(added_in_all(own, 0, keys) =~= Seq::empty());
    }
}

/// What the turns without a session id add.
proof fn lemma_added_alone(own: Seq<MetricEntry>, n: int)
    requires
        0 <= n <= own.len(),
    ensures
        added_alone(own, n) == orphans_counts(orphans(entry_views(own).take(n))),
    decreases n,
{
    let views = entry_views(own);
    if n == 0 {
        assert(views.take(0) =~= Seq::empty());
        assert(added_alone(own, n) =~= orphans_counts(orphans(views.take(n))));
    } else {
        lemma_added_alone(own, n - 1);
        assert(views.take(n).drop_last() =~= views.take(n - 1));
        let entry = own[n - 1]@;
        assert(views.take(n).last() == entry);
        if is_orphan(entry) {
            law_what_an_orphan_adds(entry);
            let rest = orphans(views.take(n - 1));
            assert(rest.push(entry).drop_last() =~= rest);
            assert(added_alone(own, n) =~= orphans_counts(rest) + session_counts(seq![entry]));
        }
    }
}

/// The final turn of a session among the first `n` entries, by its place.
proof fn lemma_final_place(own: Seq<MetricEntry>, n: int, key: Seq<char>) -> (d: int)
    requires
        0 <= n <= own.len(),
        session_turns(entry_views(own).take(n), key).len() > 0,
    ensures
        0 <= d < n,
        in_session(own[d]@, key),
        own[d]@ == final_turn(session_turns(entry_views(own).take(n), key)),
        forall|j: int|
            0 <= j < n && j != d && in_session((#[trigger] own[j])@, key) ==> later(
                own[d]@,
                own[j]@,
            ) || !later(own[j]@, own[d]@) && j < d,
    decreases n,
{
    let views = entry_views(own);
    let turns = session_turns(views.take(n), key);
    assert(views.take(n).drop_last() =~= views.take(n - 1));
    let rest = session_turns(views.take(n - 1), key);
    let entry = own[n - 1]@;
    assert(views.take(n).last() == entry);
    if in_session(entry, key) {
        assert(turns == rest.push(entry));
        assert(turns.drop_last() =~= rest);
        if rest.len() == 0 {
            assert forall|j: int| 0 <= j < n - 1 implies !in_session(
                (#[trigger] own[j])@,
                key,
            ) by {
                lemma_not_in_session(own, n - 1, key, j);
            }
            n - 1
        } else {
            let d = lemma_final_place(own, n - 1, key);
            if later(own[d]@, entry) {
                d
            } else {
                assert forall|j: int|
                    0 <= j < n && j != n - 1 && in_session((#[trigger] own[j])@, key) implies later(
                    entry,
                    own[j]@,
                ) || !later(own[j]@, entry) && j < n - 1 by {
                    if j != d {
                        assert(later(own[d]@, own[j]@) || !later(own[j]@, own[d]@));
                    }
                }
                n - 1
            }
        }
    } else {
        lemma_final_place(own, n - 1, key)
    }
}

/// Where a session has no turns, no entry is one.
proof fn lemma_not_in_session(own: Seq<MetricEntry>, n: int, key: Seq<char>, j: int)
    requires
        0 <= j < n <= own.len(),
        session_turns(entry_views(own).take(n), key).len() == 0,
    ensures
        !in_session(own[j]@, key),
    decreases n,
{
    let views = entry_views(own);
    assert(views.take(n).drop_last() =~= views.take(n - 1));
    assert(views.take(n).last() == own[n - 1]@);
    if j < n - 1 {
        lemma_not_in_session(own, n - 1, key, j);
    }
}

/// What `later` says of entries.
proof fn lemma_later(a: MetricEntry, b: MetricEntry)
    requires
        a.payload is Some,
        b.payload is Some,
    ensures
        later(a@, b@) == comes_after(a, b),
{
}

/// What being in a session says of entries.
proof fn lemma_in_session(own: Seq<MetricEntry>, i: int, key: Seq<char>)
    requires
        0 <= i < own.len(),
        in_session(own[i]@, key),
    ensures
        own[i].payload is Some,
        own[i].payload->0.session_id is Some,
        own[i].payload->0.session_id->0@ == key,
        forall|j: int|
            0 <= j < own.len() ==> (in_session((#[trigger] own[j])@, key) <==> same_session(
                own[j],
                own[i],
            )),
{
}

/// What the turns of a session add.
proof fn lemma_added_in(own: Seq<MetricEntry>, key: Seq<char>)
    requires
        session_turns(entry_views(own), key).len() > 0,
    ensures
        added_in(own, own.len() as int, key) == session_counts(
            session_turns(entry_views(own), key),
        ),
{
    let views = entry_views(own);
    let n = own.len() as int;
    assert(views.take(n) =~= views);
    let d = lemma_final_place(own, n, key);
    lemma_in_session(own, d, key);
    assert forall|i: int| 0 <= i < n && in_session((#[trigger] own[i])@, key) implies is_final_of(
        own,
        d,
        i,
    ) && (is_final_of(own, i, i) ==> i == d) by {
        lemma_in_session(own, i, key);
        assert forall|j: int|
            0 <= j < own.len() && j != d && same_session(
                #[trigger] own[j],
                own[i],
            ) implies comes_after(own[d], own[j]) || !comes_after(own[j], own[d]) && j < d by {
            lemma_later(own[d], own[j]);
            lemma_later(own[j], own[d]);
        }
        if is_final_of(own, i, i) && i != d {
            assert(same_session(own[d], own[i]));
            lemma_later(own[d], own[i]);
            lemma_later(own[i], own[d]);
        }
    }
    let cumulative = own[d].payload->0.cumulative;
    assert forall|i: int| 0 <= i < n && in_session((#[trigger] own[i])@, key) implies (
    has_session_counts(own, i) <==> cumulative is Some) by {
        lemma_in_session(own, i, key);
        assert(is_final_of(own, d, i));
        if has_session_counts(own, i) {
            let e = choose|e: int| #[trigger]
                is_final_of(own, e, i) && own[e].payload->0.cumulative is Some;
            assert(same_session(own[e], own[i]));
            if e != d {
                assert(same_session(own[d], own[i]));
                lemma_later(own[d], own[e]);
                lemma_later(own[e], own[d]);
            }
        }
    }
    if cumulative is Some {
        lemma_added_once(own, n, key, d);
    } else {
        lemma_added_each(own, n, key);
    }
}

/// A session that is decided by its final turn adds that turn's session counts.
proof fn lemma_added_once(own: Seq<MetricEntry>, n: int, key: Seq<char>, d: int)
    requires
        0 <= n <= own.len(),
        0 <= d < own.len(),
        in_session(own[d]@, key),
        own[d].payload->0.cumulative is Some,
        is_final_of(own, d, d),
        forall|i: int|
            0 <= i < own.len() && in_session((#[trigger] own[i])@, key) ==> has_session_counts(
                own,
                i,
            ) && (is_final_of(own, i, i) ==> i == d),
    ensures
        added_in(own, n, key) == if d < n {
            seq![own[d].payload->0.cumulative->0]
        } else {
            Seq::empty()
        },
    decreases n,
{
    if n > 0 {
        lemma_added_once(own, n - 1, key, d);
        let i = n - 1;
        if in_session(own[i]@, key) {
            lemma_in_session(own, i, key);
            assert(has_session_counts(own, i));
            assert(added_by(own, i) == if i == d {
                own[i].payload->0.cumulative
            } else {
                None
            });
        }
        assert(added_in(own, n, key) =~= if d < n {
            seq![own[d].payload->0.cumulative->0]
        } else {
            Seq::empty()
        });
    }
}

/// Any other session adds its turns' own counts.
proof fn lemma_added_each(own: Seq<MetricEntry>, n: int, key: Seq<char>)
    requires
        0 <= n <= own.len(),
        forall|i: int|
            0 <= i < own.len() && in_session((#[trigger] own[i])@, key) ==> !has_session_counts(
                own,
                i,
            ),
    ensures
        added_in(own, n, key) == own_counts(session_turns(entry_views(own).take(n), key)),
    decreases n,
{
    let views = entry_views(own);
    if n == 0 {
        assert(views.take(0) =~= Seq::empty());
        assert(added_in(own, n, key) =~= own_counts(session_turns(views.take(n), key)));
    } else {
        lemma_added_each(own, n - 1, key);
        assert(views.take(n).drop_last() =~= views.take(n - 1));
        assert(views.take(n).last() == own[n - 1]@);
        let rest = session_turns(views.take(n - 1), key);
        if in_session(own[n - 1]@, key) {
            lemma_in_session(own, n - 1, key);
            assert(!has_session_counts(own, n - 1));
            assert(rest.push(own[n - 1]@).drop_last() =~= rest);
        }
    }
}

/// What all sessions with an id add.
proof fn lemma_added_sessions(own: Seq<MetricEntry>, keys: Seq<Seq<char>>)
    requires
        forall|i: int|
            0 <= i < keys.len() ==> session_turns(entry_views(own), #[trigger] keys[i]).len() > 0,
    ensures
        added_in_all(own, own.len() as int, keys) == sessions_counts(entry_views(own), keys),
    decreases keys.len(),
{
    if keys.len() > 0 {
        let rest = keys.drop_last();
        assert forall|i: int| 0 <= i < rest.len() implies session_turns(
            entry_views(own),
            #[trigger] rest[i],
        ).len() > 0 by {
            assert(rest[i] == keys[i]);
        }
        lemma_added_sessions(own, rest);
        assert(session_turns(entry_views(own), keys[keys.len() - 1]).len() > 0);
        lemma_added_in(own, keys.last());
    }
}

/// What an agent's entries add, without order.
proof fn lemma_added(own: Seq<MetricEntry>)
    ensures
        added(own, own.len() as int).to_multiset() == agent_counts(
            entry_views(own),
        ).to_multiset(),
{
    let views = entry_views(own);
    let n = own.len() as int;
    let keys = session_keys(views);
    assert(views.take(n) =~= views);
    lemma_session_keys(views);
    assert forall|i: int| 0 <= i < n && has_session((#[trigger] own[i])@) implies keys.contains(
        session_of(own[i]@),
    ) by {
        let key = session_of(own[i]@);
        if session_turns(views, key).len() == 0 {
            lemma_not_in_session(own, n, key, i);
        }
    }
    assert forall|i: int| 0 <= i < keys.len() implies session_turns(
        views,
        #[trigger] keys[i],
    ).len() > 0 by {
        assert(keys.contains(keys[i]));
    }
    lemma_added_parts(own, n, keys);
    lemma_added_sessions(own, keys);
    lemma_added_alone(own, n);
    lemma_concat_multiset(sessions_counts(views, keys), orphans_counts(orphans(views)));
}

/// A column's sum, entry by entry.
proof fn lemma_column_by_entry(
    own: Seq<MetricEntry>,
    n: int,
    col: Column,
    figure: spec_fn(TokenCounts) -> Option<u64>,
    f: spec_fn(int) -> nat,
)
    requires
        0 <= n,
        forall|c: TokenCounts| #[trigger] column(c, col) == number_or_zero(figure(c)),
        forall|i: int| #[trigger] f(i) == figure_of(added_by(own, i), figure),
    ensures
        column_sum(added(own, n), col) == sum_to(n, f),
    decreases n,
{
    if n > 0 {
        lemma_column_by_entry(own, n - 1, col, figure, f);
        assert(f(n - 1) == figure_of(added_by(own, n - 1), figure));
        if added_by(own, n - 1) is Some {
            let rest = added(own, n - 1);
            let counts = added_by(own, n - 1)->0;
            assert(rest.push(counts).drop_last() =~= rest);
            assert(column(counts, col) == number_or_zero(figure(counts)));
        }
    }
}

/// A token figure is the sum of what the entries add to it.
proof fn lemma_token_sum(
    own: Seq<MetricEntry>,
    shown: u64,
    col: Column,
    figure: spec_fn(TokenCounts) -> Option<u64>,
)
    requires
        forall|c: TokenCounts| #[trigger] column(c, col) == number_or_zero(figure(c)),
        shown == capped(column_sum(agent_counts(entry_views(own)), col)),
    ensures
        is_token_sum(own, shown, figure),
{
    let n = own.len() as int;
    let f = |i: int| figure_of(added_by(own, i), figure);
    lemma_added(own);
    lemma_column_sum_order(added(own, n), agent_counts(entry_views(own)), col);
    lemma_column_by_entry(own, n, col, figure, f);
}

/// The reported costs, entry by entry.
proof fn lemma_costs_by_entry(
    own: Seq<MetricEntry>,
    n: int,
    usd: Usd,
    p: spec_fn(int) -> bool,
)
    requires
        0 <= n,
        forall|i: int| #[trigger]
            p(i) == (added_by(own, i) is Some && added_by(own, i)->0.cost_usd == Some(usd)),
    ensures
        reported_costs(added(own, n)).to_multiset().count(usd) == count_to(n, p),
    decreases n,
{
    broadcast use vstd::seq_lib::group_to_multiset_ensures;

    if n > 0 {
        lemma_costs_by_entry(own, n - 1, usd, p);
        assert(p(n - 1) == (added_by(own, n - 1) is Some && added_by(own, n - 1)->0.cost_usd
            == Some(usd)));
        if added_by(own, n - 1) is Some {
            let rest = added(own, n - 1);
            let counts = added_by(own, n - 1)->0;
            assert(rest.push(counts).drop_last() =~= rest);
        }
    } else {
        assert(reported_costs(added(own, n)).to_multiset() =~= Multiset::empty());
    }
}

/// The readable turns, entry by entry.
proof fn lemma_readable_by_entry(
    own: Seq<MetricEntry>,
    n: int,
    p: spec_fn(int) -> bool,
    q: spec_fn(int) -> bool,
)
    requires
        0 <= n <= own.len(),
        forall|i: int| #[trigger] p(i) == (own[i].payload is Some),
        forall|i: int| #[trigger] q(i) == (own[i].payload is None),
    ensures
        readable(entry_views(own).take(n)) == count_to(n, p),
        n - readable(entry_views(own).take(n)) == count_to(n, q),
    decreases n,
{
    let views = entry_views(own);
    if n > 0 {
        lemma_readable_by_entry(own, n - 1, p, q);
        assert(views.take(n).drop_last() =~= views.take(n - 1));
        assert(views.take(n).last() == own[n - 1]@);
        assert(p(n - 1) == (own[n - 1].payload is Some));
        assert(q(n - 1) == (own[n - 1].payload is None));
    }
}

/// The sessions, entry by entry.
proof fn lemma_sessions_by_entry(own: Seq<MetricEntry>, n: int, p: spec_fn(int) -> bool)
    requires
        0 <= n <= own.len(),
        forall|i: int| #[trigger] p(i) == begins_session(own, i),
    ensures
        session_keys(entry_views(own).take(n)).len() + orphans(entry_views(own).take(n)).len()
            == count_to(n, p),
    decreases n,
{
    let views = entry_views(own);
    if n == 0 {
        assert(views.take(0) =~= Seq::empty());
    } else {
        lemma_sessions_by_entry(own, n - 1, p);
        let rest = views.take(n - 1);
        let entry = own[n - 1]@;
        assert(views.take(n).drop_last() =~= rest);
        assert(views.take(n).last() == entry);
        assert(p(n - 1) == begins_session(own, n - 1));
        if has_session(entry) {
            let key = session_of(entry);
            lemma_session_keys(rest);
            lemma_in_session(own, n - 1, key);
            assert(session_keys(rest).contains(key) <==> session_turns(rest, key).len() > 0);
            if session_turns(rest, key).len() > 0 {
                let d = lemma_final_place(own, n - 1, key);
                assert(same_session(own[d], own[n - 1]));
            } else {
                assert forall|j: int| 0 <= j < n - 1 implies !same_session(
                    #[trigger] own[j],
                    own[n - 1],
                ) by {
                    lemma_not_in_session(own, n - 1, key, j);
                }
            }
        }
    }
}

/// Every row of a tally is what the entries of its agent add up to. A turn counts
/// with its session by the whole session id; a session counts once, by its final
/// turn; a turn without a session id counts by itself; and a turn that cannot be
/// read counts as that.
pub proof fn law_tally_accounts_for_entries(
    entries: Seq<MetricEntry>,
    rows: Seq<AgentTally>,
    at: int,
)
    requires
        is_tally(entry_views(entries), tally_views(rows)),
        0 <= at < rows.len(),
    ensures
        accounts_for(entries, rows[at]),
{
    let row = rows[at];
    let agent = row.agent_pubkey@;
    let own = entries_with(entries, agent);
    let views = entry_views(own);
    let n = own.len() as int;
    lemma_entries_with(entries, agent);
    assert(tally_views(rows)[at] == row@);
    assert(row@ == agent_tally(agent, views));
    assert(views.take(n) =~= views);
    lemma_readable_bound(views);
    lemma_readable_by_entry(
        own,
        n,
        |i: int| own[i].payload is Some,
        |i: int| own[i].payload is None,
    );
    lemma_sessions_by_entry(own, n, |i: int| begins_session(own, i));
    lemma_token_sum(own, row.input_tokens, Column::Input, |c: TokenCounts| c.input_tokens);
    lemma_token_sum(own, row.output_tokens, Column::Output, |c: TokenCounts| c.output_tokens);
    lemma_token_sum(
        own,
        row.cache_read_tokens,
        Column::CacheRead,
        |c: TokenCounts| c.cache_read_tokens,
    );
    lemma_token_sum(
        own,
        row.cache_write_tokens,
        Column::CacheWrite,
        |c: TokenCounts| c.cache_write_tokens,
    );
    lemma_added(own);
    lemma_reported_costs_order(added(own, n), agent_counts(views));
    assert forall|usd: Usd| #[trigger] row.costs@.to_multiset().count(usd) == count_to(
        n,
        |i: int| added_by(own, i) is Some && added_by(own, i)->0.cost_usd == Some(usd),
    ) by {
        lemma_costs_by_entry(
            own,
            n,
            usd,
            |i: int| added_by(own, i) is Some && added_by(own, i)->0.cost_usd == Some(usd),
        );
    }
}

/// Where an agent has entries, there is one that names it.
proof fn lemma_has_entry(entries: Seq<MetricEntry>, agent: Seq<char>) -> (k: int)
    requires
        entries_with(entries, agent).len() > 0,
    ensures
        0 <= k < entries.len(),
        entries[k].agent_pubkey@ == agent,
    decreases entries.len(),
{
    reveal(Seq::filter);
    if entries.len() > 0 && entries.last().agent_pubkey@ == agent {
        entries.len() - 1
    } else {
        lemma_has_entry(entries.drop_last(), agent)
    }
}

/// A tally has a row for every agent that an entry names, one for each and none
/// besides, in the order of their pubkeys.
pub proof fn law_tally_lists_the_agents(entries: Seq<MetricEntry>, rows: Seq<AgentTally>)
    requires
        is_tally(entry_views(entries), tally_views(rows)),
    ensures
        forall|i: int, j: int|
            0 <= i < j < rows.len() ==> text_lt(
                (#[trigger] rows[i]).agent_pubkey@,
                (#[trigger] rows[j]).agent_pubkey@,
            ),
        forall|i: int, j: int|
            0 <= i < j < rows.len() ==> (#[trigger] rows[i]).agent_pubkey@ != (
            #[trigger] rows[j]).agent_pubkey@,
        forall|k: int|
            0 <= k < entries.len() ==> exists|i: int|
                0 <= i < rows.len() && (#[trigger] rows[i]).agent_pubkey@ == (
                #[trigger] entries[k]).agent_pubkey@,
        forall|i: int|
            0 <= i < rows.len() ==> exists|k: int|
                0 <= k < entries.len() && (#[trigger] entries[k]).agent_pubkey@ == (
                #[trigger] rows[i]).agent_pubkey@,
{
    let views = entry_views(entries);
    let out = tally_views(rows);
    assert forall|i: int, j: int| 0 <= i < j < rows.len() implies text_lt(
        (#[trigger] rows[i]).agent_pubkey@,
        (#[trigger] rows[j]).agent_pubkey@,
    ) && rows[i].agent_pubkey@ != rows[j].agent_pubkey@ by {
        assert(text_lt(out[i].agent, out[j].agent));
        lemma_text_lt_irreflexive(out[i].agent);
    }
    assert forall|k: int| 0 <= k < entries.len() implies exists|i: int|
        0 <= i < rows.len() && (#[trigger] rows[i]).agent_pubkey@ == (
        #[trigger] entries[k]).agent_pubkey@ by {
        assert(has_row(out, views[k].agent));
        let i = choose|i: int| 0 <= i < out.len() && (#[trigger] out[i]).agent == views[k].agent;
        assert(rows[i].agent_pubkey@ == entries[k].agent_pubkey@);
    }
    assert forall|i: int| 0 <= i < rows.len() implies exists|k: int|
        0 <= k < entries.len() && (#[trigger] entries[k]).agent_pubkey@ == (
        #[trigger] rows[i]).agent_pubkey@ by {
        let agent = rows[i].agent_pubkey@;
        assert(out[i].agent == agent);
        assert(of_agent(views, out[i].agent).len() > 0);
        lemma_entries_with(entries, agent);
        let k = lemma_has_entry(entries, agent);
        assert(entries[k].agent_pubkey@ == agent);
    }
}

} // verus!
