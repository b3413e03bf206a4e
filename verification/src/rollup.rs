//! Tallies with their costs added up, the dearest agent first.

use crate::metric::Usd;
use crate::rollup_laws::{is_row_of, law_rollup_keeps_tallies};
use crate::tally::AgentTally;
use crate::text::{
    lemma_text_lt_irreflexive, lemma_text_lt_total, lemma_text_lt_transitive, text_less, text_lt,
};
use vstd::prelude::*;
use vstd::seq_lib::to_multiset_len;

verus! {

/// The totals of one agent.
#[derive(Clone, Debug, PartialEq)]
pub struct AgentRollup {
    /// Hex pubkey of the agent these totals belong to.
    pub agent_pubkey: String,
    /// Turns whose payload was read.
    pub turns: u64,
    /// Distinct sessions behind these totals.
    pub sessions: u64,
    /// Input tokens, including the cache figures below.
    pub input_tokens: u64,
    /// Output tokens.
    pub output_tokens: u64,
    /// Cache-read tokens, a part of `input_tokens` that is billed at a lower rate.
    pub cache_read_tokens: u64,
    /// Cache-write tokens, a part of `input_tokens`.
    pub cache_write_tokens: u64,
    /// Cost as the providers reported it, summed over the sessions.
    pub cost_usd: Usd,
    /// Turns of this agent whose payload could not be read. Their tokens are
    /// missing from the totals above.
    pub undecryptable_turns: u64,
}

/// An agent's totals, with the agent's name by its characters.
#[verifier::ext_equal]
pub struct RollupView {
    pub agent: Seq<char>,
    pub turns: u64,
    pub sessions: u64,
    pub input_tokens: u64,
    pub output_tokens: u64,
    pub cache_read_tokens: u64,
    pub cache_write_tokens: u64,
    pub cost_usd: Usd,
    pub undecryptable_turns: u64,
}

impl View for AgentRollup {
    type V = RollupView;

    open spec fn view(&self) -> RollupView {
        RollupView {
            agent: self.agent_pubkey@,
            turns: self.turns,
            sessions: self.sessions,
            input_tokens: self.input_tokens,
            output_tokens: self.output_tokens,
            cache_read_tokens: self.cache_read_tokens,
            cache_write_tokens: self.cache_write_tokens,
            cost_usd: self.cost_usd,
            undecryptable_turns: self.undecryptable_turns,
        }
    }
}

impl Default for AgentRollup {
    fn default() -> (nothing: Self)
        ensures
            nothing@.agent == Seq::<char>::empty(),
            nothing@.turns == 0,
            nothing@.sessions == 0,
            nothing@.input_tokens == 0,
            nothing@.output_tokens == 0,
            nothing@.cache_read_tokens == 0,
            nothing@.cache_write_tokens == 0,
            nothing@.cost_usd@ == 0,
            nothing@.undecryptable_turns == 0,
    {
        AgentRollup {
            agent_pubkey: String::new(),
            turns: 0,
            sessions: 0,
            input_tokens: 0,
            output_tokens: 0,
            cache_read_tokens: 0,
            cache_write_tokens: 0,
            cost_usd: Usd::zero(),
            undecryptable_turns: 0,
        }
    }
}

/// A tally together with its cost.
pub open spec fn priced(tally: AgentTally, cost_usd: Usd) -> RollupView {
    RollupView {
        agent: tally.agent_pubkey@,
        turns: tally.turns,
        sessions: tally.sessions,
        input_tokens: tally.input_tokens,
        output_tokens: tally.output_tokens,
        cache_read_tokens: tally.cache_read_tokens,
        cache_write_tokens: tally.cache_write_tokens,
        cost_usd,
        undecryptable_turns: tally.undecryptable_turns,
    }
}

/// Tallies together with their costs, in their order.
pub open spec fn priced_views(rows: Seq<(AgentTally, Usd)>) -> Seq<RollupView> {
    Seq::new(rows.len(), |i: int| priced(rows[i].0, rows[i].1))
}

/// The views of a sequence of totals.
pub open spec fn rollup_views(rows: Seq<AgentRollup>) -> Seq<RollupView> {
    Seq::new(rows.len(), |i: int| rows[i]@)
}

/// Whether `a` is listed before `b`: it cost more, or it cost the same and its
/// pubkey comes first.
pub open spec fn outranks(a: RollupView, b: RollupView) -> bool {
    a.cost_usd@ > b.cost_usd@ || a.cost_usd@ == b.cost_usd@ && text_lt(a.agent, b.agent)
}

/// Whether no row is outranked by a row below it.
pub open spec fn is_ranked(rows: Seq<RollupView>) -> bool {
    forall|i: int, j: int|
        0 <= i < j < rows.len() ==> !outranks(#[trigger] rows[j], #[trigger] rows[i])
}

/// The ranked rows with one more row, put below all rows that it does not
/// outrank.
pub open spec fn placed(rows: Seq<RollupView>, row: RollupView) -> Seq<RollupView>
    decreases rows.len(),
{
    if rows.len() == 0 || !outranks(row, rows.last()) {
        rows.push(row)
    } else {
        placed(rows.drop_last(), row).push(rows.last())
    }
}

/// The rows, ranked. Rows that do not outrank each other keep their order.
pub open spec fn ranking(rows: Seq<RollupView>) -> Seq<RollupView>
    decreases rows.len(),
{
    if rows.len() == 0 {
        Seq::empty()
    } else {
        placed(ranking(rows.drop_last()), rows.last())
    }
}

/// No row outranks itself.
proof fn lemma_outranks_irreflexive(a: RollupView)
    ensures
        !outranks(a, a),
{
    lemma_text_lt_irreflexive(a.agent);
}

/// Ranks are transitive.
proof fn lemma_outranks_transitive(a: RollupView, b: RollupView, c: RollupView)
    requires
        outranks(a, b),
        outranks(b, c),
    ensures
        outranks(a, c),
{
    if a.cost_usd@ == b.cost_usd@ && b.cost_usd@ == c.cost_usd@ {
        lemma_text_lt_transitive(a.agent, b.agent, c.agent);
    }
}

/// A row outranks what the rows below it do not outrank.
proof fn lemma_not_outranked(a: RollupView, b: RollupView, c: RollupView)
    requires
        !outranks(b, a),
        !outranks(c, b),
    ensures
        !outranks(c, a),
{
    if outranks(c, a) {
        lemma_text_lt_total(a.agent, b.agent);
        lemma_text_lt_total(b.agent, c.agent);
        if a.cost_usd@ == b.cost_usd@ && b.cost_usd@ == c.cost_usd@ {
            if text_lt(a.agent, b.agent) {
                lemma_text_lt_transitive(c.agent, a.agent, b.agent);
            }
        }
    }
}

/// Placing a row keeps the rows ranked and holds that row and all others.
proof fn lemma_placed(rows: Seq<RollupView>, row: RollupView)
    requires
        is_ranked(rows),
    ensures
        is_ranked(placed(rows, row)),
        placed(rows, row).to_multiset() == rows.to_multiset().insert(row),
        placed(rows, row).len() == rows.len() + 1,
    decreases rows.len(),
{
    broadcast use vstd::seq_lib::group_to_multiset_ensures;

    if rows.len() == 0 || !outranks(row, rows.last()) {
        let all = rows.push(row);
        assert forall|i: int, j: int| 0 <= i < j < all.len() implies !outranks(
            #[trigger] all[j],
            #[trigger] all[i],
        ) by {
            if j == rows.len() && i < rows.len() - 1 {
                assert(!outranks(rows[rows.len() - 1], rows[i]));
                lemma_not_outranked(rows[i], rows.last(), row);
            }
        }
    } else {
        let rest = rows.drop_last();
        let inner = placed(rest, row);
        lemma_placed(rest, row);
        let all = inner.push(rows.last());
        assert forall|i: int, j: int| 0 <= i < j < all.len() implies !outranks(
            #[trigger] all[j],
            #[trigger] all[i],
        ) by {
            if j == inner.len() {
                assert(inner.to_multiset().count(inner[i]) > 0);
                if inner[i] == row {
                    if outranks(rows.last(), row) {
                        lemma_outranks_transitive(rows.last(), row, rows.last());
                        lemma_outranks_irreflexive(rows.last());
                    }
                } else {
                    assert(rest.contains(inner[i]));
                    let k = choose|k: int| 0 <= k < rest.len() && rest[k] == inner[i];
                    assert(rows[k] == inner[i]);
                    assert(!outranks(rows[rows.len() - 1], rows[k]));
                }
            }
        }
        assert(rows =~= rest.push(rows.last()));
        assert(all.to_multiset() =~= rows.to_multiset().insert(row));
    }
}

/// A ranking is ranked and holds the rows that were given, no more and no
/// fewer.
pub proof fn law_ranking(rows: Seq<RollupView>)
    ensures
        is_ranked(ranking(rows)),
        ranking(rows).to_multiset() == rows.to_multiset(),
        ranking(rows).len() == rows.len(),
    decreases rows.len(),
{
    broadcast use vstd::seq_lib::group_to_multiset_ensures;

    if rows.len() > 0 {
        law_ranking(rows.drop_last());
        lemma_placed(ranking(rows.drop_last()), rows.last());
        assert(rows =~= rows.drop_last().push(rows.last()));
    } else {
        assert(rows =~= Seq::empty());
    }
}

/// Whether no agent has two rows.
pub open spec fn distinct_agents(rows: Seq<RollupView>) -> bool {
    forall|i: int, j: int|
        0 <= i < j < rows.len() ==> (#[trigger] rows[i]).agent != (#[trigger] rows[j]).agent
}

/// No agent has two rows, over rows without their order.
pub proof fn lemma_distinct_agents_order(a: Seq<RollupView>, b: Seq<RollupView>)
    requires
        distinct_agents(a),
        a.to_multiset() == b.to_multiset(),
    ensures
        distinct_agents(b),
{
    broadcast use vstd::seq_lib::group_to_multiset_ensures;

    assert forall|i: int, j: int| 0 <= i < j < b.len() implies (#[trigger] b[i]).agent != (
    #[trigger] b[j]).agent by {
        if b[i].agent == b[j].agent {
            let m = a.to_multiset();
            assert(b.contains(b[i]) && b.contains(b[j]));
            assert(m.count(b[i]) > 0 && m.count(b[j]) > 0);
            assert(a.contains(b[i]) && a.contains(b[j]));
            let p = choose|p: int| 0 <= p < a.len() && a[p] == b[i];
            let q = choose|q: int| 0 <= q < a.len() && a[q] == b[j];
            if p == q {
                assert(a.no_duplicates());
                a.lemma_multiset_has_no_duplicates();
                b.lemma_multiset_has_no_duplicates_conv();
                assert(b[i] != b[j]);
            }
        }
    }
}

/// There is only one way to rank rows of distinct agents.
proof fn lemma_ranked_unique(a: Seq<RollupView>, b: Seq<RollupView>)
    requires
        a.to_multiset() == b.to_multiset(),
        is_ranked(a),
        is_ranked(b),
        distinct_agents(a),
    ensures
        a == b,
    decreases a.len(),
{
    broadcast use vstd::seq_lib::group_to_multiset_ensures;

    to_multiset_len(a);
    to_multiset_len(b);
    if a.len() == 0 {
        assert(a =~= b);
    } else {
        let x = a.last();
        let y = b.last();
        assert(a.contains(x) && b.contains(y));
        assert(a.to_multiset().count(x) > 0);
        assert(b.to_multiset().count(y) > 0);
        assert(b.contains(x) && a.contains(y));
        let i = choose|i: int| 0 <= i < a.len() && a[i] == y;
        let j = choose|j: int| 0 <= j < b.len() && b[j] == x;
        if i != a.len() - 1 {
            assert(!outranks(a[a.len() - 1], a[i]));
            assert(a[i].agent != a[a.len() - 1].agent);
            if j != b.len() - 1 {
                assert(!outranks(b[b.len() - 1], b[j]));
            }
            lemma_text_lt_total(x.agent, y.agent);
        }
        assert(x == y);
        assert(a.drop_last() =~= a.remove(a.len() - 1));
        assert(b.drop_last() =~= b.remove(b.len() - 1));
        lemma_ranked_unique(a.drop_last(), b.drop_last());
        assert(a =~= a.drop_last().push(x));
        assert(b =~= b.drop_last().push(y));
    }
}

/// Where no agent has two rows, the ranking has no two either and does not
/// depend on the order in which the rows are given.
pub proof fn law_ranking_ignores_order(a: Seq<RollupView>, b: Seq<RollupView>)
    requires
        a.to_multiset() == b.to_multiset(),
        distinct_agents(a),
    ensures
        distinct_agents(ranking(a)),
        ranking(a) == ranking(b),
{
    law_ranking(a);
    law_ranking(b);
    lemma_distinct_agents_order(a, ranking(a));
    lemma_ranked_unique(ranking(a), ranking(b));
}

/// Whether `a` is listed before `b`.
fn goes_before(a: &AgentRollup, b: &AgentRollup) -> (before: bool)
    ensures
        before == outranks(a@, b@),
{
    let x: u64 = a.cost_usd.bits();
    let y: u64 = b.cost_usd.bits();
    x > y || x == y && text_less(a.agent_pubkey.as_str(), b.agent_pubkey.as_str())
}

/// Puts a row among ranked rows.
fn place(rows: &mut Vec<AgentRollup>, row: AgentRollup)
    ensures
        rollup_views(final(rows)@) == placed(rollup_views(old(rows)@), row@),
{
    let ghost views = rollup_views(rows@);
    let mut at: usize = rows.len();
    assert(views.take(at as int) =~= views);
    assert(placed(views, row@) =~= placed(views, row@) + views.skip(at as int));
    while at > 0 && goes_before(&row, &rows[at - 1])
        invariant
            views == rollup_views(rows@),
            at <= rows@.len(),
            placed(views, row@) == placed(views.take(at as int), row@) + views.skip(at as int),
        decreases at,
    {
        proof {
            let head = views.take(at as int);
            assert(head.last() == views[at - 1]);
            assert(head.drop_last() =~= views.take(at - 1));
            assert(placed(head, row@) + views.skip(at as int) =~= placed(views.take(at - 1), row@)
                + views.skip(at - 1));
        }
        at = at - 1;
    }
    proof {
        let head = views.take(at as int);
        if at > 0 {
            assert(head.last() == views[at - 1]);
        }
        assert(placed(head, row@) == head.push(row@));
        assert(head.push(row@) + views.skip(at as int) =~= views.insert(at as int, row@));
    }
    rows.insert(at, row);
    assert(rollup_views(rows@) =~= views.insert(at as int, row@));
}

/// The totals of agents from their tallies and the sums of their costs, the
/// dearest agent first; agents that cost the same are listed by pubkey.
pub fn rollup(tallies: &Vec<(AgentTally, Usd)>) -> (rows: Vec<AgentRollup>)
    ensures
        rollup_views(rows@) == ranking(priced_views(tallies@)),
        is_ranked(rollup_views(rows@)),
        rollup_views(rows@).to_multiset() == priced_views(tallies@).to_multiset(),
        rows@.len() == tallies@.len(),
        forall|i: int|
            0 <= i < rows@.len() ==> exists|k: int|
                0 <= k < tallies@.len() && is_row_of(
                    #[trigger] rows@[i],
                    (#[trigger] tallies@[k]).0,
                    tallies@[k].1,
                ),
        forall|i: int, j: int|
            0 <= i < j < rows@.len() ==> (#[trigger] rows@[i]).cost_usd@ >= (
            #[trigger] rows@[j]).cost_usd@,
        forall|i: int, j: int|
            0 <= i < j < rows@.len() && (#[trigger] rows@[i]).cost_usd@ == (
            #[trigger] rows@[j]).cost_usd@ ==> rows@[i].agent_pubkey@ == rows@[j].agent_pubkey@
                || text_lt(rows@[i].agent_pubkey@, rows@[j].agent_pubkey@),
{
    let ghost views = priced_views(tallies@);
    let mut rows: Vec<AgentRollup> = Vec::new();
    let mut i: usize = 0;
    assert(rollup_views(rows@) =~= ranking(views.take(0)));
    while i < tallies.len()
        invariant
            views == priced_views(tallies@),
            i <= tallies@.len(),
            rollup_views(rows@) == ranking(views.take(i as int)),
        decreases tallies@.len() - i,
    {
        let tally = &tallies[i].0;
        let row = AgentRollup {
            agent_pubkey: tally.agent_pubkey.clone(),
            turns: tally.turns,
            sessions: tally.sessions,
            input_tokens: tally.input_tokens,
            output_tokens: tally.output_tokens,
            cache_read_tokens: tally.cache_read_tokens,
            cache_write_tokens: tally.cache_write_tokens,
            cost_usd: tallies[i].1,
            undecryptable_turns: tally.undecryptable_turns,
        };
        proof {
            assert(row@ =~= views[i as int]);
            assert(views.take(i + 1).drop_last() =~= views.take(i as int));
        }
        place(&mut rows, row);
        i = i + 1;
    }
    proof {
        assert(views.take(tallies@.len() as int) =~= views);
        law_ranking(views);
        let places = law_rollup_keeps_tallies(tallies@, rows@);
        assert forall|i: int| 0 <= i < rows@.len() implies exists|k: int|
            0 <= k < tallies@.len() && is_row_of(
                #[trigger] rows@[i],
                (#[trigger] tallies@[k]).0,
                tallies@[k].1,
            ) by {
            let k = places[i];
            assert(is_row_of(rows@[i], tallies@[k].0, tallies@[k].1));
        }
    }
    rows
}

} // verus!
