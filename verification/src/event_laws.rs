//! What events are taken for, and what holds of those that a reader's keys do not
//! open.

use crate::events::{
    agent_in_tag, agent_of_tags, event_in_json, events_in_json, law_author_without_agent_tag,
    law_first_agent_tag_decides, metric_entries, paired_events, paired_turns, tag_view, RelayEvent,
    RelayEventView,
};
use crate::metric::{entry_views, AgentTurnMetricPayload, EntryView, MetricEntry, TurnView};
use crate::tally::{
    agent_tally, is_tally, of_agent, orphans, readable, session_keys, TallyView,
};
use crate::tally_laws::{agents_of, law_every_turn_counted_once, lemma_tallies_of_same_agents};
use vstd::prelude::*;

verus! {

/// Whether no entry can be read.
spec fn none_readable(entries: Seq<EntryView>) -> bool {
    forall|i: int| 0 <= i < entries.len() ==> (#[trigger] entries[i]).turn is None
}

/// Of an agent none of whose turns can be read nothing is counted but these
/// turns.
proof fn lemma_unread_tally(agent: Seq<char>, entries: Seq<EntryView>)
    requires
        none_readable(entries),
    ensures
        readable(entries) == 0,
        session_keys(entries).len() == 0,
        orphans(entries).len() == 0,
        agent_tally(agent, entries) == unread_tally(agent, entries.len()),
    decreases entries.len(),
{
    if entries.len() > 0 {
        let rest = entries.drop_last();
        assert forall|i: int| 0 <= i < rest.len() implies (#[trigger] rest[i]).turn is None by {
            assert(rest[i] == entries[i]);
        }
        lemma_unread_tally(agent, rest);
        assert(entries[entries.len() - 1].turn is None);
    }
    assert(session_keys(entries) =~= Seq::empty());
    assert(orphans(entries) =~= Seq::empty());
    assert(agent_tally(agent, entries) =~= unread_tally(agent, entries.len()));
}

/// The tally of an agent with so many turns, none of which can be read.
pub open spec fn unread_tally(agent: Seq<char>, turns: nat) -> TallyView {
    TallyView {
        agent,
        turns: 0,
        sessions: 0,
        input_tokens: 0,
        output_tokens: 0,
        cache_read_tokens: 0,
        cache_write_tokens: 0,
        costs: Seq::empty(),
        undecryptable_turns: turns,
    }
}

/// Entries that differ only in what was read of their turns have the same
/// agents.
proof fn lemma_same_attribution(a: Seq<EntryView>, b: Seq<EntryView>, agent: Seq<char>)
    requires
        a.len() == b.len(),
        forall|i: int| 0 <= i < a.len() ==> (#[trigger] a[i]).agent == (#[trigger] b[i]).agent,
    ensures
        of_agent(a, agent).len() == of_agent(b, agent).len(),
    decreases a.len(),
{
    if a.len() > 0 {
        let ra = a.drop_last();
        let rb = b.drop_last();
        assert forall|i: int| 0 <= i < ra.len() implies (#[trigger] ra[i]).agent == (
        #[trigger] rb[i]).agent by {
            assert(a[i].agent == b[i].agent);
        }
        lemma_same_attribution(ra, rb, agent);
        assert(a[a.len() - 1].agent == b[b.len() - 1].agent);
    }
}

/// An agent's entries cannot be read where no entry can.
proof fn lemma_of_agent_unread(entries: Seq<EntryView>, agent: Seq<char>)
    requires
        none_readable(entries),
    ensures
        none_readable(of_agent(entries, agent)),
    decreases entries.len(),
{
    if entries.len() > 0 {
        let rest = entries.drop_last();
        assert forall|i: int| 0 <= i < rest.len() implies (#[trigger] rest[i]).turn is None by {
            assert(rest[i] == entries[i]);
        }
        lemma_of_agent_unread(rest, agent);
        assert(entries[entries.len() - 1].turn is None);
        let before = of_agent(rest, agent);
        assert forall|i: int| 0 <= i < of_agent(entries, agent).len() implies (
        #[trigger] of_agent(entries, agent)[i]).turn is None by {
            if i < before.len() {
                assert(before[i].turn is None);
            }
        }
    }
}

/// The same events for a reader whose keys open none of them. A turn is read
/// only out of a message, so without messages no turn is read. Each event still
/// has its entry, with the same agent and time. The same agents are listed in
/// the same order, and each has as many unreadable turns as it has events, and
/// nothing else.
pub proof fn law_unopened_events_are_unreadable_turns(
    events: Seq<RelayEventView>,
    read: Seq<Option<TurnView>>,
    messages: Seq<Option<Seq<char>>>,
    unread: Seq<Option<TurnView>>,
    rows: Seq<TallyView>,
    unread_rows: Seq<TallyView>,
)
    requires
        messages.len() == events.len(),
        forall|i: int| 0 <= i < events.len() ==> #[trigger] messages[i] is None,
        forall|i: int|
            0 <= i < events.len() ==> (#[trigger] unread[i] is Some ==> messages[i] is Some),
        is_tally(metric_entries(events, read), rows),
        is_tally(metric_entries(events, unread), unread_rows),
    ensures
        metric_entries(events, unread).len() == metric_entries(events, read).len(),
        forall|i: int|
            #![trigger metric_entries(events, unread)[i]]
            0 <= i < events.len() ==> {
                let entry = metric_entries(events, unread)[i];
                &&& entry.turn is None
                &&& entry.agent == metric_entries(events, read)[i].agent
                &&& entry.created_at == metric_entries(events, read)[i].created_at
            },
        unread_rows.len() == rows.len(),
        forall|i: int|
            0 <= i < rows.len() ==> #[trigger] unread_rows[i] == unread_tally(
                rows[i].agent,
                rows[i].turns + rows[i].undecryptable_turns,
            ),
{
    let a = metric_entries(events, read);
    let b = metric_entries(events, unread);
    assert forall|i: int| 0 <= i < b.len() implies (#[trigger] b[i]).turn is None by {
        assert(messages[i] is None);
        assert(unread[i] is None);
    }
    assert forall|agent: Seq<char>| #[trigger] of_agent(a, agent).len() == of_agent(
        b,
        agent,
    ).len() by {
        lemma_same_attribution(a, b, agent);
    }
    lemma_tallies_of_same_agents(a, b, rows, unread_rows);
    law_every_turn_counted_once(a, rows);
    assert forall|i: int| 0 <= i < rows.len() implies #[trigger] unread_rows[i] == unread_tally(
        rows[i].agent,
        rows[i].turns + rows[i].undecryptable_turns,
    ) by {
        let agent = rows[i].agent;
        assert(agents_of(rows)[i] == agents_of(unread_rows)[i]);
        assert(unread_rows[i].agent == agent);
        assert(unread_rows[i] == agent_tally(agent, of_agent(b, agent)));
        lemma_of_agent_unread(b, agent);
        lemma_unread_tally(agent, of_agent(b, agent));
        assert(of_agent(a, agent).len() == of_agent(b, agent).len());
    }
}

/// Whether a tag names an agent: its first string is the word agent, and its
/// second is not empty.
pub open spec fn names_an_agent(tag: Seq<String>) -> bool {
    tag.len() >= 2 && tag[0]@ == "agent"@ && tag[1]@.len() > 0
}

/// An event belongs to the agent that stands second in its first tag that names
/// one, and to its author where no tag does.
pub proof fn law_event_belongs_to_its_tagged_agent(event: RelayEvent)
    ensures
        forall|at: int|
            0 <= at < event.tags@.len() && names_an_agent((#[trigger] event.tags@[at])@) && (
            forall|i: int| 0 <= i < at ==> !names_an_agent((#[trigger] event.tags@[i])@))
                ==> agent_of_tags(event@.tags, event@.pubkey) == event.tags@[at]@[1]@,
        (forall|i: int|
            0 <= i < event.tags@.len() ==> !names_an_agent((#[trigger] event.tags@[i])@))
            ==> agent_of_tags(event@.tags, event@.pubkey) == event.pubkey@,
{
    let tags = event@.tags;
    assert forall|i: int| 0 <= i < event.tags@.len() implies (names_an_agent(
        (#[trigger] event.tags@[i])@,
    ) <==> agent_in_tag(tags[i]) is Some) by {
        assert(tags[i] == tag_view(event.tags@[i]@));
    }
    assert forall|at: int|
        0 <= at < event.tags@.len() && names_an_agent((#[trigger] event.tags@[at])@) && (
        forall|i: int|
            0 <= i < at ==> !names_an_agent((#[trigger] event.tags@[i])@)) implies agent_of_tags(
        event@.tags,
        event@.pubkey,
    ) == event.tags@[at]@[1]@ by {
        assert forall|i: int| 0 <= i < at implies agent_in_tag(#[trigger] tags[i]) is None by {
            assert(!names_an_agent(event.tags@[i]@));
        }
        law_first_agent_tag_decides(tags, at, event@.pubkey);
        assert(tags[at] == tag_view(event.tags@[at]@));
    }
    if forall|i: int|
        0 <= i < event.tags@.len() ==> !names_an_agent((#[trigger] event.tags@[i])@) {
        assert forall|i: int| 0 <= i < tags.len() implies agent_in_tag(
            #[trigger] tags[i],
        ) is None by {
            assert(!names_an_agent(event.tags@[i]@));
        }
        law_author_without_agent_tag(tags, event@.pubkey);
    }
}

/// Every text that holds an event gives that event, and every other text none;
/// the events of two lists of texts, one behind the other, are those of the first
/// and then those of the second.
pub proof fn law_every_event_is_read_in_order(
    a: Seq<Seq<char>>,
    b: Seq<Seq<char>>,
    text: Seq<char>,
)
    ensures
        events_in_json(a + b) == events_in_json(a) + events_in_json(b),
        event_in_json(text) is Some ==> events_in_json(seq![text]) == seq![event_in_json(text)->0],
        event_in_json(text) is None ==> events_in_json(seq![text]).len() == 0,
    decreases b.len(),
{
    assert(seq![text].drop_last() =~= Seq::empty());
    reveal_with_fuel(events_in_json, 2);
    if event_in_json(text) is Some {
        assert(events_in_json(seq![text]) =~= seq![event_in_json(text)->0]);
    }
    if b.len() == 0 {
        assert(a + b =~= a);
        assert(events_in_json(a) + events_in_json(b) =~= events_in_json(a));
    } else {
        law_every_event_is_read_in_order(a, b.drop_last(), text);
        assert((a + b).drop_last() =~= a + b.drop_last());
        assert((a + b).last() == b.last());
        assert(events_in_json(a + b) =~= events_in_json(a) + events_in_json(b));
    }
}

/// Each event has its entry, in its place, with its agent, its time and what was
/// read of its turn.
pub proof fn law_every_event_has_its_entry(
    events: Seq<(RelayEvent, Option<AgentTurnMetricPayload>)>,
    entries: Seq<MetricEntry>,
)
    requires
        entry_views(entries) == metric_entries(paired_events(events), paired_turns(events)),
    ensures
        entries.len() == events.len(),
        forall|i: int|
            #![trigger entries[i]]
            0 <= i < events.len() ==> {
                let payload = events[i].1;
                &&& entries[i].created_at == events[i].0.created_at
                &&& entries[i].payload is Some <==> payload is Some
                &&& payload is Some ==> {
                    &&& entries[i].payload->0.turn_seq == payload->0.turn_seq
                    &&& entries[i].payload->0.turn == payload->0.turn
                    &&& entries[i].payload->0.cumulative == payload->0.cumulative
                    &&& entries[i].payload->0.session_id is Some <==> payload->0.session_id is Some
                    &&& payload->0.session_id is Some ==> entries[i].payload->0.session_id->0@
                        == payload->0.session_id->0@
                }
                &&& entries[i].agent_pubkey@ == agent_of_tags(
                    events[i].0@.tags,
                    events[i].0.pubkey@,
                )
            },
{
    let views = entry_views(entries);
    let given = metric_entries(paired_events(events), paired_turns(events));
    assert(views.len() == given.len());
    assert forall|i: int|
        #![trigger entries[i]]
        0 <= i < events.len() implies given[i] == entries[i]@ by {
        assert(views[i] == entries[i]@);
    }
}

} // verus!
