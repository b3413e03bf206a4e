use buzz_agents::digest::{digest_output, output_of, DigestOutput};
use buzz_agents::events::{
    agent_pubkey_of, entries_from_events, events_from_json, keep_event, messages_from_events,
    RelayEvent,
};
use buzz_agents::json::get_str;
use buzz_agents::metric::{AgentTurnMetricPayload, TokenCounts, Usd};
use buzz_agents::names::Names;
use buzz_agents::profile::{
    add_profile, names_from_profiles, names_from_response, profile_events, profile_name,
    ProfileEvent,
};
use buzz_agents::relay::{metric_filter, profile_filter, Paging, USAGE_PAGE_SIZE};
use buzz_agents::report::agent_usage_rollup;
use buzz_agents::rollup::{rollup, AgentRollup};
use buzz_agents::tally::{tally, AgentTally};
use nostr::nips::nip44::{self, Version};
use nostr::{EventBuilder, Keys, Kind, PublicKey, Tag};
use serde_json::Value;

const METRIC_KIND: u16 = 44200;

fn usd(amount: f64) -> Usd {
    Usd::reported(amount.to_bits()).expect("a cost that is finite and not negative")
}

fn dollars(amount: Usd) -> f64 {
    f64::from_bits(amount.bits())
}

fn rolled_up(entries: &Vec<buzz_agents::metric::MetricEntry>) -> Vec<AgentRollup> {
    let priced: Vec<(AgentTally, Usd)> = tally(entries)
        .into_iter()
        .map(|t| {
            let sum = usd(t.costs.iter().fold(0.0, |sum, cost| sum + dollars(*cost)));
            (t, sum)
        })
        .collect();
    rollup(&priced)
}

/// The text of a payload with session counts.
fn payload_text(session: &str, turn_seq: u64, counts: (u64, u64, u64, u64, f64)) -> String {
    format!(
        "{{\"harness\":\"goose\",\"sessionId\":\"{session}\",\"turnId\":\"turn-{turn_seq}\",\
         \"turnSeq\":{turn_seq},\"timestamp\":\"2026-08-08T00:00:00.000Z\",\"cumulative\":{{\
         \"inputTokens\":{},\"outputTokens\":{},\"cacheReadTokens\":{},\"cacheWriteTokens\":{},\
         \"costUsd\":{}}},\"deltaReliable\":true}}",
        counts.0, counts.1, counts.2, counts.3, counts.4
    )
}

fn payload_of(text: &str) -> AgentTurnMetricPayload {
    let value: Value = serde_json::from_str(text).expect("payload");
    let counts = &value["cumulative"];
    AgentTurnMetricPayload {
        harness: value["harness"].as_str().expect("harness").to_string(),
        model: None,
        channel_id: None,
        session_id: value["sessionId"].as_str().map(str::to_string),
        turn_id: value["turnId"].as_str().map(str::to_string),
        turn_seq: value["turnSeq"].as_u64(),
        timestamp: value["timestamp"].as_str().expect("timestamp").to_string(),
        turn: None,
        cumulative: Some(TokenCounts {
            input_tokens: counts["inputTokens"].as_u64(),
            output_tokens: counts["outputTokens"].as_u64(),
            total_tokens: None,
            cost_usd: counts["costUsd"].as_f64().map(usd),
            cache_read_tokens: counts["cacheReadTokens"].as_u64(),
            cache_write_tokens: counts["cacheWriteTokens"].as_u64(),
        }),
        delta_reliable: true,
        stop_reason: None,
    }
}

/// The JSON of a signed event with an encrypted payload.
fn signed_metric_event(agent: &Keys, owner: &PublicKey, text: &str, tags: Vec<Tag>) -> String {
    let ciphertext =
        nip44::encrypt(agent.secret_key(), owner, text, Version::V2).expect("encrypt");
    let event = EventBuilder::new(Kind::Custom(METRIC_KIND), ciphertext)
        .tags(tags)
        .sign_with_keys(agent)
        .expect("sign");
    serde_json::to_string(&event).expect("event")
}

fn owner_tag(owner: &PublicKey) -> Tag {
    Tag::parse(["p", &owner.to_hex()]).expect("p tag")
}

fn agent_tag(agent: &Keys) -> Tag {
    Tag::parse(["agent", &agent.public_key().to_hex()]).expect("agent tag")
}

/// The entries that the holder of `keys` reads out of events.
fn entries_for(keys: &Keys, texts: Vec<String>) -> Vec<buzz_agents::metric::MetricEntry> {
    let events = events_from_json(&texts);
    let messages = messages_from_events(&keys.secret_key().to_secret_hex(), &events);
    let pairs = events
        .into_iter()
        .zip(messages)
        .map(|(event, message)| (event, message.map(|text| payload_of(&text))))
        .collect();
    entries_from_events(pairs)
}

#[test]
fn genuinely_encrypted_events_decrypt_and_roll_up() {
    let agent = Keys::generate();
    let owner = Keys::generate();
    let tags = || vec![owner_tag(&owner.public_key()), agent_tag(&agent)];

    let events = vec![
        signed_metric_event(
            &agent,
            &owner.public_key(),
            &payload_text("s1", 1, (100, 10, 40, 5, 0.01)),
            tags(),
        ),
        signed_metric_event(
            &agent,
            &owner.public_key(),
            &payload_text("s1", 2, (300, 30, 120, 9, 0.04)),
            tags(),
        ),
    ];

    let entries = entries_for(&owner, events);
    assert_eq!(entries.len(), 2);
    assert!(
        entries.iter().all(|e| e.payload.is_some()),
        "the owner's key must decrypt its own metrics"
    );
    assert_eq!(
        entries[0].agent_pubkey,
        agent.public_key().to_hex(),
        "attribution must come from the `agent` tag"
    );

    let out = rolled_up(&entries);
    assert_eq!(out.len(), 1);
    assert_eq!(out[0].turns, 2);
    assert_eq!(out[0].input_tokens, 300, "session cumulative, not 100+300");
    assert_eq!(out[0].cache_read_tokens, 120);
    assert!((dollars(out[0].cost_usd) - 0.04).abs() < 1e-9);
}

#[test]
fn another_identity_cannot_decrypt_the_owners_metrics() {
    let agent = Keys::generate();
    let owner = Keys::generate();
    let eavesdropper = Keys::generate();

    let events = vec![signed_metric_event(
        &agent,
        &owner.public_key(),
        &payload_text("s1", 1, (100, 10, 0, 0, 0.01)),
        vec![owner_tag(&owner.public_key()), agent_tag(&agent)],
    )];

    let entries = entries_for(&eavesdropper, events);
    assert_eq!(entries.len(), 1);
    assert!(entries[0].payload.is_none(), "a non-owner must never read the plaintext");

    let out = rolled_up(&entries);
    assert_eq!(out[0].turns, 0, "no readable turns");
    assert_eq!(out[0].undecryptable_turns, 1);
    assert_eq!(dollars(out[0].cost_usd), 0.0);
}

#[test]
fn an_event_without_an_agent_tag_falls_back_to_the_author() {
    let agent = Keys::generate();
    let owner = Keys::generate();
    let event = signed_metric_event(
        &agent,
        &owner.public_key(),
        &payload_text("s1", 1, (10, 1, 0, 0, 0.001)),
        vec![owner_tag(&owner.public_key())],
    );

    let entries = entries_for(&owner, vec![event]);
    assert_eq!(entries[0].agent_pubkey, agent.public_key().to_hex());
}

fn event(tags: &[&[&str]]) -> RelayEvent {
    RelayEvent {
        id: "id".to_string(),
        pubkey: "author".to_string(),
        created_at: 7,
        tags: tags.iter().map(|tag| tag.iter().map(|s| s.to_string()).collect()).collect(),
        content: "content".to_string(),
    }
}

#[test]
fn the_first_agent_tag_that_names_an_agent_decides() {
    assert_eq!(agent_pubkey_of(&event(&[])), "author");
    assert_eq!(agent_pubkey_of(&event(&[&["agent", "a"]])), "a");
    assert_eq!(agent_pubkey_of(&event(&[&["p", "x"], &["agent", "a"], &["agent", "b"]])), "a");
    assert_eq!(agent_pubkey_of(&event(&[&["agent", ""], &["agent", "b", "c"]])), "b");
    assert_eq!(agent_pubkey_of(&event(&[&["agent"], &[], &["Agent", "z"]])), "author");
}

#[test]
fn entries_keep_the_order_of_the_events() {
    let payload = payload_of(&payload_text("s1", 3, (1, 2, 3, 4, 0.5)));
    let mut second = event(&[&["agent", "b"]]);
    second.created_at = 9;
    let entries = entries_from_events(vec![
        (event(&[&["agent", "a"]]), Some(payload)),
        (second, None),
    ]);
    assert_eq!(entries.len(), 2);
    assert_eq!(entries[0].agent_pubkey, "a");
    assert_eq!(entries[0].created_at, 7);
    assert_eq!(entries[0].payload.as_ref().and_then(|p| p.turn_seq), Some(3));
    assert_eq!(entries[1].agent_pubkey, "b");
    assert_eq!(entries[1].created_at, 9);
    assert!(entries[1].payload.is_none());
    assert!(entries_from_events(Vec::new()).is_empty());
}

#[test]
fn values_that_are_no_events_are_left_out() {
    let author = Keys::generate();
    let text = signed_metric_event(
        &author,
        &author.public_key(),
        "{}",
        vec![Tag::parse(["agent", "x", "y"]).expect("tag")],
    );
    let events = events_from_json(&vec![
        "{}".to_string(),
        text.clone(),
        "not json".to_string(),
        "[1]".to_string(),
    ]);
    assert_eq!(events.len(), 1);
    let whole: Value = serde_json::from_str(&text).expect("event");
    assert_eq!(whole["id"].as_str(), Some(events[0].id.as_str()));
    assert_eq!(events[0].pubkey, author.public_key().to_hex());
    assert_eq!(whole["created_at"].as_u64(), Some(events[0].created_at));
    assert_eq!(events[0].tags, vec![vec!["agent", "x", "y"]]);
    assert_eq!(whole["content"].as_str(), Some(events[0].content.as_str()));
}

#[test]
fn an_event_is_kept_where_one_was_read() {
    let mut events = Vec::new();
    keep_event(&mut events, None);
    assert!(events.is_empty());
    keep_event(&mut events, Some(event(&[])));
    keep_event(&mut events, None);
    assert_eq!(events.len(), 1);
    assert_eq!(events[0].id, "id");
}

#[test]
fn messages_are_read_with_the_right_keys_only() {
    let agent = Keys::generate();
    let owner = Keys::generate();
    let texts = vec![signed_metric_event(&agent, &owner.public_key(), "hello", Vec::new())];
    let mut events = events_from_json(&texts);
    let secret = owner.secret_key().to_secret_hex();
    assert_eq!(messages_from_events(&secret, &events), vec![Some("hello".to_string())]);
    assert_eq!(messages_from_events("no key", &events), vec![None]);
    events[0].pubkey = owner.public_key().to_hex();
    assert_eq!(messages_from_events(&secret, &events), vec![None]);
    events[0].pubkey = "no key".to_string();
    assert_eq!(messages_from_events(&secret, &events), vec![None]);
    events[0].content = String::new();
    assert_eq!(messages_from_events(&secret, &events), vec![None]);
}

fn profile(pubkey: &str, content: &str) -> ProfileEvent {
    ProfileEvent { pubkey: pubkey.to_string(), content: content.to_string() }
}

#[test]
fn profiles_give_display_names_or_names() {
    let names = names_from_profiles(&vec![
        profile("a", "{\"display_name\":\" Forge \",\"name\":\"other\"}"),
        profile("b", "{\"name\":\"Anvil\",\"display_name\":7}"),
        profile("c", "{\"display_name\":\"\",\"name\":\"unused\"}"),
        profile("d", "not json"),
        profile("e", "[\"name\"]"),
        profile("f", "{\"name\":null}"),
        profile("g", "{\"name\":\"first\"}"),
        profile("g", "{\"name\":\"second\"}"),
        profile("g", "{\"name\":\"  \"}"),
    ]);
    assert_eq!(names.get("a").map(String::as_str), Some("Forge"));
    assert_eq!(names.get("b").map(String::as_str), Some("Anvil"));
    assert!(names.get("c").is_none(), "a display name is preferred even where it is blank");
    assert!(names.get("d").is_none());
    assert!(names.get("e").is_none());
    assert!(names.get("f").is_none());
    assert_eq!(names.get("g").map(String::as_str), Some("second"));
}

#[test]
fn a_relay_response_gives_names() {
    let names = names_from_response(
        "[{\"pubkey\":\"a\",\"content\":\"{\\\"name\\\":\\\"Forge\\\"}\"},\
         {\"content\":\"{\\\"name\\\":\\\"Nobody\\\"}\"},\
         {\"pubkey\":\"b\"},{\"pubkey\":3,\"content\":\"{}\"},17,\
         {\"pubkey\":\"c\",\"content\":\"{\\\"display_name\\\":\\\"Anvil\\\"}\"}]",
    );
    assert_eq!(names.get("a").map(String::as_str), Some("Forge"));
    assert!(names.get("b").is_none());
    assert_eq!(names.get("c").map(String::as_str), Some("Anvil"));
    assert!(names_from_response("{\"pubkey\":\"a\"}").get("a").is_none());
    assert!(names_from_response("no json").get("a").is_none());
}

#[test]
fn members_are_read_by_name() {
    let members = Some(vec![
        ("name".to_string(), Some("Forge ".to_string())),
        ("age".to_string(), None),
        ("name".to_string(), Some("Anvil".to_string())),
    ]);
    assert_eq!(get_str(&members, "name").map(String::as_str), Some("Forge "));
    assert!(get_str(&members, "age").is_none());
    assert!(get_str(&members, "display_name").is_none());
    assert!(get_str(&None, "name").is_none());
    assert_eq!(profile_name(&members), "Forge");
    assert_eq!(profile_name(&None), "");
    assert_eq!(profile_name(&Some(Vec::new())), "");

    let mut names = Names::new();
    add_profile(&mut names, &"a".to_string(), &Some(members));
    add_profile(&mut names, &"b".to_string(), &Some(None));
    add_profile(&mut names, &"c".to_string(), &None);
    assert_eq!(names.get("a").map(String::as_str), Some("Forge"));
    assert!(names.get("b").is_none());
    assert!(names.get("c").is_none());

    let events = profile_events(&vec![
        Some(vec![("pubkey".to_string(), Some("p".to_string()))]),
        None,
        Some(vec![("content".to_string(), Some("x".to_string()))]),
    ]);
    assert_eq!(events.len(), 1);
    assert_eq!(events[0].pubkey, "p");
    assert_eq!(events[0].content, "");
}

#[test]
fn filters_ask_for_the_readers_own_metrics() {
    let filter = metric_filter("me", Some(-5));
    assert_eq!(filter.kinds, vec![44200]);
    assert_eq!(filter.recipients, Some(vec!["me".to_string()]));
    assert_eq!(filter.authors, None);
    assert_eq!(filter.since, Some(-5));
    assert_eq!(filter.limit, None);
    assert_eq!(metric_filter("me", None).since, None);
}

#[test]
fn profiles_are_asked_for_where_there_are_rows() {
    assert!(profile_filter(&Vec::new()).is_none());
    let mut a = AgentRollup::default();
    a.agent_pubkey = "a".to_string();
    let mut b = AgentRollup::default();
    b.agent_pubkey = "b".to_string();
    let filter = profile_filter(&vec![a, b]).expect("filter");
    assert_eq!(filter.kinds, vec![0]);
    assert_eq!(filter.authors, Some(vec!["a".to_string(), "b".to_string()]));
    assert_eq!(filter.limit, Some(2));
    assert_eq!(filter.recipients, None);
}

#[test]
fn pages_are_collected_until_one_is_not_full() {
    let full = |from: u64| -> Vec<RelayEvent> {
        (0..USAGE_PAGE_SIZE as u64)
            .map(|i| {
                let mut e = event(&[]);
                e.created_at = from - i;
                e.id = format!("id-{}", from - i);
                e
            })
            .collect()
    };
    let mut paging = Paging::start(metric_filter("me", None));
    assert_eq!(paging.filter().limit, Some(USAGE_PAGE_SIZE));
    assert_eq!(paging.filter().until, None);
    assert!(!paging.accept(full(2_000)));
    assert_eq!(paging.filter().until, Some(1_501));
    assert_eq!(paging.filter().before_id, Some("id-1501".to_string()));
    assert_eq!(paging.filter().recipients, Some(vec!["me".to_string()]));
    assert!(!paging.accept(full(1_500)));
    assert_eq!(paging.filter().until, Some(1_001));
    assert!(paging.accept(vec![event(&[])]));
    let events = paging.into_events();
    assert_eq!(events.len(), 1_001);
    assert_eq!(events[500].created_at, 1_500);
    assert_eq!(events[1_000].id, "id");

    let mut empty = Paging::start(metric_filter("me", None));
    assert!(empty.accept(Vec::new()));
    assert!(empty.into_events().is_empty());
}

#[test]
fn a_report_has_a_row_for_each_rollup() {
    let row = AgentRollup {
        agent_pubkey: "abc".to_string(),
        turns: 3,
        sessions: 1,
        input_tokens: 100,
        output_tokens: 20,
        cache_read_tokens: 40,
        cache_write_tokens: 5,
        cost_usd: usd(1.25),
        undecryptable_turns: 2,
    };
    let mut names = Names::new();
    names.insert("abc".to_string(), "Forge".to_string());
    let mut other = AgentRollup::default();
    other.agent_pubkey = "def".to_string();
    let report = agent_usage_rollup(&vec![row, other], &names, 1_754_000_000);
    assert_eq!(report.generated_at, 1_754_000_000);
    assert_eq!(report.rows.len(), 2);
    let first = &report.rows[0];
    assert_eq!(first.agent_pubkey, "abc");
    assert_eq!(first.agent_name, Some("Forge".to_string()));
    assert_eq!((first.turns, first.sessions), (3, 1));
    assert_eq!((first.input_tokens, first.output_tokens), (100, 20));
    assert_eq!((first.cache_read_tokens, first.cache_write_tokens), (40, 5));
    assert_eq!(dollars(first.cost_usd), 1.25);
    assert_eq!(first.undecryptable_turns, 2);
    assert_eq!(report.rows[1].agent_pubkey, "def");
    assert_eq!(report.rows[1].agent_name, None);
    assert!(agent_usage_rollup(&Vec::new(), &names, 0).rows.is_empty());
}

#[test]
fn a_response_is_printed_by_what_it_is() {
    assert_eq!(digest_output("{\"event_id\":\"x\"}"), DigestOutput::Extended);
    assert_eq!(digest_output("{}"), DigestOutput::Extended);
    assert_eq!(digest_output("[1]"), DigestOutput::Unchanged);
    assert_eq!(digest_output("\"ok\""), DigestOutput::Unchanged);
    assert_eq!(digest_output("accepted"), DigestOutput::Wrapped);
    assert_eq!(digest_output(""), DigestOutput::Wrapped);
    assert_eq!(output_of(&None), DigestOutput::Wrapped);
    assert_eq!(output_of(&Some(None)), DigestOutput::Unchanged);
    assert_eq!(output_of(&Some(Some(Vec::new()))), DigestOutput::Extended);
}

#[test]
fn unopened_events_keep_their_agents_and_times() {
    let first = Keys::generate();
    let second = Keys::generate();
    let owner = Keys::generate();
    let other = Keys::generate();
    let text = payload_text("s1", 1, (100, 10, 0, 0, 0.01));
    let events: Vec<String> = [&first, &second, &first]
        .iter()
        .map(|agent| {
            let tags = vec![owner_tag(&owner.public_key()), agent_tag(agent)];
            signed_metric_event(agent, &owner.public_key(), &text, tags)
        })
        .collect();
    let read = entries_for(&owner, events.clone());
    let unread = entries_for(&other, events);
    assert_eq!(read.len(), unread.len());
    for (a, b) in read.iter().zip(&unread) {
        assert_eq!(a.agent_pubkey, b.agent_pubkey);
        assert_eq!(a.created_at, b.created_at);
        assert!(a.payload.is_some());
        assert!(b.payload.is_none());
    }
    let rows = tally(&unread);
    assert_eq!(rows.len(), 2);
    for row in &rows {
        assert_eq!((row.turns, row.sessions, row.input_tokens), (0, 0, 0));
        assert!(row.costs.is_empty());
        let own = if row.agent_pubkey == first.public_key().to_hex() { 2 } else { 1 };
        assert_eq!(row.undecryptable_turns, own);
    }
}
