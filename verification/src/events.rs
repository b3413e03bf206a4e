//! Turn metric events as they come from a relay.

use crate::event_laws::{law_event_belongs_to_its_tagged_agent, names_an_agent};
use crate::metric::{entry_views, AgentTurnMetricPayload, EntryView, MetricEntry, TurnView};
use crate::text::same_text;
use vstd::prelude::*;

verus! {

/// A relay event, as far as it is read here.
#[derive(Clone, Debug)]
pub struct RelayEvent {
    /// Event id in hex.
    pub id: String,
    /// The author's pubkey in hex.
    pub pubkey: String,
    /// When the event was created, in seconds.
    pub created_at: u64,
    /// The tags, each a list of strings.
    pub tags: Vec<Vec<String>>,
    /// The content, which is encrypted in a turn metric.
    pub content: String,
}

/// A relay event by its characters.
#[verifier::ext_equal]
pub struct RelayEventView {
    pub id: Seq<char>,
    pub pubkey: Seq<char>,
    pub created_at: u64,
    pub tags: Seq<Seq<Seq<char>>>,
    pub content: Seq<char>,
}

/// The strings of a tag.
pub open spec fn tag_view(tag: Seq<String>) -> Seq<Seq<char>> {
    Seq::new(tag.len(), |i: int| tag[i]@)
}

/// The strings of tags.
pub open spec fn tags_view(tags: Seq<Vec<String>>) -> Seq<Seq<Seq<char>>> {
    Seq::new(tags.len(), |i: int| tag_view(tags[i]@))
}

impl View for RelayEvent {
    type V = RelayEventView;

    open spec fn view(&self) -> RelayEventView {
        RelayEventView {
            id: self.id@,
            pubkey: self.pubkey@,
            created_at: self.created_at,
            tags: tags_view(self.tags@),
            content: self.content@,
        }
    }
}

/// The views of relay events.
pub open spec fn relay_event_views(events: Seq<RelayEvent>) -> Seq<RelayEventView> {
    Seq::new(events.len(), |i: int| events[i]@)
}

/// The event in JSON text, if it holds one.
pub uninterp spec fn event_in_json(text: Seq<char>) -> Option<RelayEventView>;

/// Reads an event with `serde_json::from_str` into a `nostr::Event` and takes
/// over its id, author, time, tags and content. What counts as an event is left
/// to those crates; the signature is not looked at.
#[verifier::external_body]
pub(crate) fn read_event(text: &str) -> (event: Option<RelayEvent>)
    ensures
        event is Some <==> event_in_json(text@) is Some,
        event matches Some(e) ==> e@ == event_in_json(text@)->0,
{
    let event: nostr::Event = serde_json::from_str(text).ok()?;
    Some(
        RelayEvent {
            id: event.id.to_hex(),
            pubkey: event.pubkey.to_hex(),
            created_at: event.created_at.as_secs(),
            tags: event.tags.iter().map(|tag| tag.as_slice().to_vec()).collect(),
            content: event.content,
        },
    )
}

/// The events among JSON texts, in their order. A text that holds no event is
/// left out: there is nobody to attribute it to.
pub open spec fn events_in_json(texts: Seq<Seq<char>>) -> Seq<RelayEventView>
    decreases texts.len(),
{
    if texts.len() == 0 {
        Seq::empty()
    } else {
        let rest = events_in_json(texts.drop_last());
        match event_in_json(texts.last()) {
            Some(event) => rest.push(event),
            None => rest,
        }
    }
}

/// Keeps an event that was read; where none was, nothing changes.
pub fn keep_event(events: &mut Vec<RelayEvent>, event: Option<RelayEvent>)
    ensures
        relay_event_views(final(events)@) == match event {
            Some(e) => relay_event_views(old(events)@).push(e@),
            None => relay_event_views(old(events)@),
        },
{
    match event {
        Some(e) => {
            events.push(e);
            assert(relay_event_views(events@) =~= relay_event_views(old(events)@).push(e@));
        },
        None => {},
    }
}

/// The events among JSON texts, in their order.
pub fn events_from_json(texts: &Vec<String>) -> (events: Vec<RelayEvent>)
    ensures
        relay_event_views(events@) == events_in_json(tag_view(texts@)),
{
    let ghost views = tag_view(texts@);
    let mut events: Vec<RelayEvent> = Vec::new();
    let mut i: usize = 0;
    assert(views.take(0) =~= Seq::empty());
    assert(relay_event_views(events@) =~= Seq::empty());
    while i < texts.len()
        invariant
            views == tag_view(texts@),
            i <= texts@.len(),
            relay_event_views(events@) == events_in_json(views.take(i as int)),
        decreases texts@.len() - i,
    {
        proof {
            assert(views.take(i + 1).drop_last() =~= views.take(i as int));
            assert(views.take(i + 1).last() == views[i as int]);
        }
        let event = read_event(texts[i].as_str());
        keep_event(&mut events, event);
        i = i + 1;
    }
    assert(views.take(texts@.len() as int) =~= views);
    events
}

/// The agent that a tag names, if it is an agent tag that names one.
pub open spec fn agent_in_tag(tag: Seq<Seq<char>>) -> Option<Seq<char>> {
    if tag.len() >= 2 && tag[0] == "agent"@ && tag[1].len() > 0 {
        Some(tag[1])
    } else {
        None
    }
}

/// The agent that the first tag of its kind names, or else the author.
pub open spec fn agent_of_tags(tags: Seq<Seq<Seq<char>>>, author: Seq<char>) -> Seq<char>
    decreases tags.len(),
{
    if tags.len() == 0 {
        author
    } else {
        match agent_in_tag(tags[0]) {
            Some(agent) => agent,
            None => agent_of_tags(tags.drop_first(), author),
        }
    }
}

/// The agent that an event belongs to: the one that its agent tag names, or,
/// where it has none, its author. The tag is preferred because it survives a
/// change of signer.
pub fn agent_pubkey_of(event: &RelayEvent) -> (agent: String)
    ensures
        agent@ == agent_of_tags(event@.tags, event@.pubkey),
        forall|at: int|
            0 <= at < event.tags@.len() && names_an_agent((#[trigger] event.tags@[at])@) && (
            forall|i: int| 0 <= i < at ==> !names_an_agent((#[trigger] event.tags@[i])@)) ==> agent@
                == event.tags@[at]@[1]@,
        (forall|i: int|
            0 <= i < event.tags@.len() ==> !names_an_agent((#[trigger] event.tags@[i])@)) ==> agent@
            == event.pubkey@,
{
    proof {
        law_event_belongs_to_its_tagged_agent(*event);
    }
    let ghost tags = event@.tags;
    let mut i: usize = 0;
    assert(tags.skip(0) =~= tags);
    while i < event.tags.len()
        invariant
            tags == event@.tags,
            i <= event.tags@.len(),
            agent_of_tags(tags, event@.pubkey) == agent_of_tags(tags.skip(i as int), event@.pubkey),
        decreases event.tags@.len() - i,
    {
        let tag = &event.tags[i];
        proof {
            assert(tags.skip(i as int)[0] == tag_view(tag@));
            assert(tags.skip(i as int).drop_first() =~= tags.skip(i + 1));
        }
        if tag.len() >= 2 && same_text(tag[0].as_str(), "agent") && !tag[1].as_str().is_empty() {
            proof {
                law_event_belongs_to_its_tagged_agent(*event);
            }
            return tag[1].clone();
        }
        i = i + 1;
    }
    event.pubkey.clone()
}

/// What a NIP-44 message from `author` to the holder of `secret_key` says, if
/// that key opens it. Keys are given in hex.
pub uninterp spec fn nip44_message(
    secret_key: Seq<char>,
    author: Seq<char>,
    content: Seq<char>,
) -> Option<Seq<char>>;

/// Decrypts with `nostr::nips::nip44::decrypt`, after reading both keys from
/// hex with `SecretKey::from_hex` and `PublicKey::from_hex`. There is no message
/// where a key cannot be read or the content does not decrypt. That another
/// secret key does not open a message is a matter of that crate's cryptography
/// and is not stated.
#[verifier::external_body]
pub(crate) fn decrypt(secret_key: &str, author: &str, content: &str) -> (message: Option<String>)
    ensures
        message is Some <==> nip44_message(secret_key@, author@, content@) is Some,
        message matches Some(m) ==> m@ == nip44_message(secret_key@, author@, content@)->0,
{
    let secret_key = nostr::SecretKey::from_hex(secret_key).ok()?;
    let author = nostr::PublicKey::from_hex(author).ok()?;
    nostr::nips::nip44::decrypt(&secret_key, &author, content).ok()
}

/// The characters of an optional message.
pub open spec fn message_view(message: Option<String>) -> Option<Seq<char>> {
    match message {
        Some(m) => Some(m@),
        None => None,
    }
}

/// What each event says to the holder of the secret key, event by event.
pub fn messages_from_events(secret_key: &str, events: &Vec<RelayEvent>) -> (messages: Vec<
    Option<String>,
>)
    ensures
        messages@.len() == events@.len(),
        forall|i: int|
            0 <= i < events@.len() ==> message_view(#[trigger] messages@[i]) == nip44_message(
                secret_key@,
                events@[i]@.pubkey,
                events@[i]@.content,
            ),
        forall|i: int|
            0 <= i < events@.len() ==> {
                let said = nip44_message(secret_key@, events@[i].pubkey@, events@[i].content@);
                &&& #[trigger] messages@[i] is Some <==> said is Some
                &&& messages@[i] matches Some(m) ==> m@ == said->0
            },
{
    let mut messages: Vec<Option<String>> = Vec::new();
    let mut i: usize = 0;
    while i < events.len()
        invariant
            i <= events@.len(),
            messages@.len() == i,
            forall|j: int|
                0 <= j < i ==> message_view(#[trigger] messages@[j]) == nip44_message(
                    secret_key@,
                    events@[j]@.pubkey,
                    events@[j]@.content,
                ),
        decreases events@.len() - i,
    {
        let event = &events[i];
        let message = decrypt(secret_key, event.pubkey.as_str(), event.content.as_str());
        messages.push(message);
        i = i + 1;
    }
    assert forall|i: int| 0 <= i < events@.len() implies {
        let said = nip44_message(secret_key@, events@[i].pubkey@, events@[i].content@);
        &&& #[trigger] messages@[i] is Some <==> said is Some
        &&& messages@[i] matches Some(m) ==> m@ == said->0
    } by {
        assert(message_view(messages@[i]) == nip44_message(
            secret_key@,
            events@[i]@.pubkey,
            events@[i]@.content,
        ));
    }
    messages
}

/// The metric entries of events, each with what was read of its turn.
pub open spec fn metric_entries(
    events: Seq<RelayEventView>,
    turns: Seq<Option<TurnView>>,
) -> Seq<EntryView> {
    Seq::new(
        events.len(),
        |i: int|
            EntryView {
                agent: agent_of_tags(events[i].tags, events[i].pubkey),
                created_at: events[i].created_at,
                turn: turns[i],
            },
    )
}

/// The events of a list of events with payloads.
pub open spec fn paired_events(
    pairs: Seq<(RelayEvent, Option<AgentTurnMetricPayload>)>,
) -> Seq<RelayEventView> {
    Seq::new(pairs.len(), |i: int| pairs[i].0@)
}

/// What was read of the turns in a list of events with payloads.
pub open spec fn paired_turns(
    pairs: Seq<(RelayEvent, Option<AgentTurnMetricPayload>)>,
) -> Seq<Option<TurnView>> {
    Seq::new(
        pairs.len(),
        |i: int|
            match pairs[i].1 {
                Some(payload) => Some(payload@),
                None => None,
            },
    )
}

/// The metric entries of turn metric events, each given with its payload where
/// that could be read. An event that cannot be read stays attributed to its
/// agent.
pub fn entries_from_events(
    events: Vec<(RelayEvent, Option<AgentTurnMetricPayload>)>,
) -> (entries: Vec<MetricEntry>)
    ensures
        entries@.len() == events@.len(),
        forall|i: int|
            #![trigger entries@[i]]
            0 <= i < events@.len() ==> {
                &&& entries@[i].agent_pubkey@ == agent_of_tags(
                    events@[i].0@.tags,
                    events@[i].0@.pubkey,
                )
                &&& entries@[i].created_at == events@[i].0.created_at
                &&& entries@[i].payload == events@[i].1
            },
        entry_views(entries@) == metric_entries(paired_events(events@), paired_turns(events@)),
{
    let ghost all = events@;
    let mut entries: Vec<MetricEntry> = Vec::new();
    for pair in it: events.into_iter()
        invariant
            it.seq() == all,
            entries@.len() == it.index(),
            forall|i: int|
                #![trigger entries@[i]]
                0 <= i < it.index() ==> {
                    &&& entries@[i].agent_pubkey@ == agent_of_tags(all[i].0@.tags, all[i].0@.pubkey)
                    &&& entries@[i].created_at == all[i].0.created_at
                    &&& entries@[i].payload == all[i].1
                },
    {
        let agent_pubkey = agent_pubkey_of(&pair.0);
        entries.push(
            MetricEntry { agent_pubkey, created_at: pair.0.created_at, payload: pair.1 },
        );
    }
    assert(entry_views(entries@) =~= metric_entries(paired_events(all), paired_turns(all)));
    entries
}

/// The first agent tag that names an agent decides, whatever tags follow it.
pub proof fn law_first_agent_tag_decides(
    tags: Seq<Seq<Seq<char>>>,
    at: int,
    author: Seq<char>,
)
    requires
        0 <= at < tags.len(),
        agent_in_tag(tags[at]) is Some,
        forall|i: int| 0 <= i < at ==> agent_in_tag(#[trigger] tags[i]) is None,
    ensures
        agent_of_tags(tags, author) == agent_in_tag(tags[at])->0,
    decreases at,
{
    if at > 0 {
        let rest = tags.drop_first();
        assert(agent_in_tag(tags[0]) is None);
        assert forall|i: int| 0 <= i < at - 1 implies agent_in_tag(#[trigger] rest[i]) is None by {
            assert(rest[i] == tags[i + 1]);
        }
        law_first_agent_tag_decides(rest, at - 1, author);
    }
}

/// An event none of whose tags names an agent belongs to its author.
pub proof fn law_author_without_agent_tag(tags: Seq<Seq<Seq<char>>>, author: Seq<char>)
    requires
        forall|i: int| 0 <= i < tags.len() ==> agent_in_tag(#[trigger] tags[i]) is None,
    ensures
        agent_of_tags(tags, author) == author,
    decreases tags.len(),
{
    if tags.len() > 0 {
        let rest = tags.drop_first();
        assert(agent_in_tag(tags[0]) is None);
        assert forall|i: int| 0 <= i < rest.len() implies agent_in_tag(
            #[trigger] rest[i],
        ) is None by {
            assert(rest[i] == tags[i + 1]);
        }
        law_author_without_agent_tag(rest, author);
    }
}

} // verus!
