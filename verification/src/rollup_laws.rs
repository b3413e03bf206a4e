//! What holds of the rollup of a tally.

use crate::metric::{EntryView, Usd};
use crate::rollup::{
    distinct_agents, is_ranked, law_ranking, lemma_distinct_agents_order, outranks, priced_views,
    ranking, rollup_views, AgentRollup, RollupView,
};
use crate::tally::{agent_tally, has_row, is_tally, of_agent, AgentTally, TallyView};
use crate::tally_laws::law_every_agent_listed_once;
use crate::text::{lemma_text_lt_irreflexive, lemma_text_lt_total, text_lt};
use vstd::prelude::*;

verus! {

/// The tallies among tallies with their costs.
pub open spec fn tallies_of(priced: Seq<(AgentTally, Usd)>) -> Seq<TallyView> {
    Seq::new(priced.len(), |i: int| priced[i].0@)
}

/// Whether a row shows the counts of a tally.
pub open spec fn shows_tally(row: RollupView, tally: TallyView) -> bool {
    &&& row.agent == tally.agent
    &&& row.turns == tally.turns
    &&& row.sessions == tally.sessions
    &&& row.input_tokens == tally.input_tokens
    &&& row.output_tokens == tally.output_tokens
    &&& row.cache_read_tokens == tally.cache_read_tokens
    &&& row.cache_write_tokens == tally.cache_write_tokens
    &&& row.undecryptable_turns == tally.undecryptable_turns
}

/// Whether an agent has a row.
pub open spec fn is_shown(rows: Seq<RollupView>, agent: Seq<char>) -> bool {
    exists|i: int| 0 <= i < rows.len() && (#[trigger] rows[i]).agent == agent
}

/// A ranking has the rows that were ranked.
proof fn lemma_ranking_rows(rows: Seq<RollupView>, row: RollupView)
    ensures
        ranking(rows).contains(row) <==> rows.contains(row),
{
    broadcast use vstd::seq_lib::group_to_multiset_ensures;

    law_ranking(rows);
    assert(ranking(rows).contains(row) <==> ranking(rows).to_multiset().count(row) > 0);
    assert(rows.contains(row) <==> rows.to_multiset().count(row) > 0);
}

/// Whether a row of the rollup holds a tally's own counts, and the cost that was
/// given with it.
pub open spec fn is_row_of(row: AgentRollup, tally: AgentTally, cost_usd: Usd) -> bool {
    &&& row.agent_pubkey@ == tally.agent_pubkey@
    &&& row.turns == tally.turns
    &&& row.sessions == tally.sessions
    &&& row.input_tokens == tally.input_tokens
    &&& row.output_tokens == tally.output_tokens
    &&& row.cache_read_tokens == tally.cache_read_tokens
    &&& row.cache_write_tokens == tally.cache_write_tokens
    &&& row.undecryptable_turns == tally.undecryptable_turns
    &&& row.cost_usd == cost_usd
}

/// Sequences with the same items have them in some order of places.
proof fn lemma_places<A>(a: Seq<A>, b: Seq<A>) -> (places: Seq<int>)
    requires
        a.to_multiset() == b.to_multiset(),
    ensures
        places.len() == b.len(),
        a.len() == b.len(),
        places.no_duplicates(),
        forall|i: int|
            0 <= i < b.len() ==> 0 <= #[trigger] places[i] < a.len() && b[i] == a[places[i]],
    decreases b.len(),
{
    broadcast use vstd::seq_lib::group_to_multiset_ensures;

    vstd::seq_lib::to_multiset_len(a);
    vstd::seq_lib::to_multiset_len(b);
    if b.len() == 0 {
        Seq::empty()
    } else {
        let x = b.last();
        assert(b.contains(x));
        assert(b.to_multiset().count(x) > 0);
        assert(a.contains(x));
        let k = choose|k: int| 0 <= k < a.len() && a[k] == x;
        assert(b.drop_last() =~= b.remove(b.len() - 1));
        let rest = lemma_places(a.remove(k), b.drop_last());
        let places = Seq::new(
            b.len(),
            |i: int|
                if i == b.len() - 1 {
                    k
                } else if rest[i] < k {
                    rest[i]
                } else {
                    rest[i] + 1
                },
        );
        assert forall|i: int| 0 <= i < b.len() implies 0 <= #[trigger] places[i] < a.len() && b[i]
            == a[places[i]] by {
            if i < b.len() - 1 {
                assert(0 <= rest[i] < a.len() - 1);
                assert(b.drop_last()[i] == a.remove(k)[rest[i]]);
            }
        }
        assert forall|i: int, j: int| 0 <= i < j < b.len() implies places[i] != places[j] by {
            if j < b.len() - 1 {
                assert(rest[i] != rest[j]);
            }
        }
        places
    }
}

/// A rollup has one row for each tally that was given, with that tally's own
/// counts and its cost. An agent that cost more comes first; of agents that cost
/// the same, none comes behind one whose pubkey is greater. The places of the
/// tallies are handed back in the order of the rows.
pub proof fn law_rollup_keeps_tallies(
    tallies: Seq<(AgentTally, Usd)>,
    rows: Seq<AgentRollup>,
) -> (places: Seq<int>)
    requires
        rollup_views(rows) == ranking(priced_views(tallies)),
    ensures
        rows.len() == tallies.len(),
        places.len() == rows.len(),
        places.no_duplicates(),
        forall|i: int|
            0 <= i < rows.len() ==> 0 <= #[trigger] places[i] < tallies.len() && is_row_of(
                rows[i],
                tallies[places[i]].0,
                tallies[places[i]].1,
            ),
        forall|i: int, j: int|
            0 <= i < j < rows.len() ==> (#[trigger] rows[i]).cost_usd@ >= (
            #[trigger] rows[j]).cost_usd@,
        forall|i: int, j: int|
            0 <= i < j < rows.len() && (#[trigger] rows[i]).cost_usd@ == (
            #[trigger] rows[j]).cost_usd@ ==> rows[i].agent_pubkey@ == rows[j].agent_pubkey@
                || text_lt(rows[i].agent_pubkey@, rows[j].agent_pubkey@),
{
    let given = priced_views(tallies);
    let views = rollup_views(rows);
    law_ranking(given);
    let places = lemma_places(given, views);
    assert forall|i: int| 0 <= i < rows.len() implies 0 <= #[trigger] places[i] < tallies.len()
        && is_row_of(rows[i], tallies[places[i]].0, tallies[places[i]].1) by {
        assert(views[i] == rows[i]@);
        assert(views[i] == given[places[i]]);
    }
    assert forall|i: int, j: int| 0 <= i < j < rows.len() implies (#[trigger] rows[i]).cost_usd@
        >= (#[trigger] rows[j]).cost_usd@ by {
        assert(!outranks(views[j], views[i]));
    }
    assert forall|i: int, j: int|
        0 <= i < j < rows.len() && (#[trigger] rows[i]).cost_usd@ == (
        #[trigger] rows[j]).cost_usd@ implies rows[i].agent_pubkey@ == rows[j].agent_pubkey@
        || text_lt(rows[i].agent_pubkey@, rows[j].agent_pubkey@) by {
        assert(!outranks(views[j], views[i]));
        lemma_text_lt_total(rows[i].agent_pubkey@, rows[j].agent_pubkey@);
    }
    places
}

/// The rollup of a tally has one row for each agent that occurs and for no
/// other, each with the counts of its agent's entries. Its rows are strictly
/// ordered: an agent that cost more comes first, and of agents that cost the
/// same the one whose pubkey comes first.
pub proof fn law_rollup_of_a_tally(entries: Seq<EntryView>, priced: Seq<(AgentTally, Usd)>)
    requires
        is_tally(entries, tallies_of(priced)),
    ensures
        ({
            let rows = ranking(priced_views(priced));
            &&& rows.len() == priced.len()
            &&& distinct_agents(rows)
            &&& forall|i: int, j: int|
                0 <= i < j < rows.len() ==> outranks(#[trigger] rows[i], #[trigger] rows[j])
            &&& forall|i: int|
                0 <= i < rows.len() ==> shows_tally(
                    #[trigger] rows[i],
                    agent_tally(rows[i].agent, of_agent(entries, rows[i].agent)),
                )
            &&& forall|agent: Seq<char>| #[trigger]
                is_shown(rows, agent) <==> exists|k: int|
                    0 <= k < entries.len() && (#[trigger] entries[k]).agent == agent
        }),
{
    let given = priced_views(priced);
    let tallies = tallies_of(priced);
    let rows = ranking(given);
    law_ranking(given);
    assert forall|i: int, j: int| 0 <= i < j < given.len() implies (#[trigger] given[i]).agent != (
    #[trigger] given[j]).agent by {
        assert(text_lt(tallies[i].agent, tallies[j].agent));
        lemma_text_lt_irreflexive(tallies[i].agent);
    }
    lemma_distinct_agents_order(given, rows);
    assert forall|i: int, j: int| 0 <= i < j < rows.len() implies outranks(
        #[trigger] rows[i],
        #[trigger] rows[j],
    ) by {
        assert(is_ranked(rows));
        assert(!outranks(rows[j], rows[i]));
        assert(rows[i].agent != rows[j].agent);
        lemma_text_lt_total(rows[i].agent, rows[j].agent);
    }
    assert forall|i: int| 0 <= i < rows.len() implies shows_tally(
        #[trigger] rows[i],
        agent_tally(rows[i].agent, of_agent(entries, rows[i].agent)),
    ) by {
        assert(rows.contains(rows[i]));
        lemma_ranking_rows(given, rows[i]);
        let k = choose|k: int| 0 <= k < given.len() && given[k] == rows[i];
        assert(tallies[k] == agent_tally(
            tallies[k].agent,
            of_agent(entries, tallies[k].agent),
        ));
    }
    assert forall|agent: Seq<char>| #[trigger] is_shown(rows, agent) <==> exists|k: int|
        0 <= k < entries.len() && (#[trigger] entries[k]).agent == agent by {
        law_every_agent_listed_once(entries, tallies, agent);
        if is_shown(rows, agent) {
            let i = choose|i: int| 0 <= i < rows.len() && (#[trigger] rows[i]).agent == agent;
            assert(rows.contains(rows[i]));
            lemma_ranking_rows(given, rows[i]);
            let k = choose|k: int| 0 <= k < given.len() && given[k] == rows[i];
            assert(tallies[k].agent == agent);
            assert(has_row(tallies, agent));
        }
        if has_row(tallies, agent) {
            let k = choose|k: int| 0 <= k < tallies.len() && (#[trigger] tallies[k]).agent == agent;
            assert(given[k].agent == agent);
            assert(given.contains(given[k]));
            lemma_ranking_rows(given, given[k]);
            let i = choose|i: int| 0 <= i < rows.len() && rows[i] == given[k];
            assert(rows[i].agent == agent);
        }
    }
}

} // verus!
