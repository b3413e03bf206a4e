use buzz_agents::metric::{AgentTurnMetricPayload, MetricEntry, TokenCounts, Usd, INFINITE_USD};
use buzz_agents::rollup::{rollup, AgentRollup};
use buzz_agents::tally::{add_counts, tally, AgentTally};

fn usd(amount: f64) -> Usd {
    Usd::reported(amount.to_bits()).expect("a cost that is finite and not negative")
}

fn dollars(amount: Usd) -> f64 {
    f64::from_bits(amount.bits())
}

fn counts(input: u64, output: u64, read: u64, write: u64, cost: f64) -> TokenCounts {
    TokenCounts {
        input_tokens: Some(input),
        output_tokens: Some(output),
        total_tokens: None,
        cost_usd: Some(usd(cost)),
        cache_read_tokens: Some(read),
        cache_write_tokens: Some(write),
    }
}

fn entry(
    agent: &str,
    session: Option<&str>,
    turn_seq: u64,
    turn: Option<TokenCounts>,
    cumulative: Option<TokenCounts>,
) -> MetricEntry {
    MetricEntry {
        agent_pubkey: agent.to_string(),
        created_at: 1_000 + turn_seq,
        payload: Some(AgentTurnMetricPayload {
            harness: "goose".to_string(),
            model: None,
            channel_id: None,
            session_id: session.map(str::to_string),
            turn_id: Some(format!("turn-{turn_seq}")),
            turn_seq: Some(turn_seq),
            timestamp: "2026-08-08T00:00:00.000Z".to_string(),
            turn,
            cumulative,
            delta_reliable: true,
            stop_reason: None,
        }),
    }
}

fn unreadable(agent: &str, created_at: u64) -> MetricEntry {
    MetricEntry { agent_pubkey: agent.to_string(), created_at, payload: None }
}

fn summed(t: &AgentTally) -> Usd {
    usd(t.costs.iter().fold(0.0, |sum, cost| sum + dollars(*cost)))
}

fn rolled_up(entries: &Vec<MetricEntry>) -> Vec<AgentRollup> {
    let priced: Vec<(AgentTally, Usd)> = tally(entries)
        .into_iter()
        .map(|t| {
            let sum = summed(&t);
            (t, sum)
        })
        .collect();
    rollup(&priced)
}

#[test]
fn a_session_contributes_its_final_cumulative_once() {
    let entries = vec![
        entry(
            "a",
            Some("s1"),
            1,
            Some(counts(100, 10, 0, 0, 0.01)),
            Some(counts(100, 10, 0, 0, 0.01)),
        ),
        entry(
            "a",
            Some("s1"),
            2,
            Some(counts(200, 20, 0, 0, 0.02)),
            Some(counts(300, 30, 0, 0, 0.03)),
        ),
        entry(
            "a",
            Some("s1"),
            3,
            Some(counts(150, 15, 0, 0, 0.015)),
            Some(counts(450, 45, 0, 0, 0.045)),
        ),
    ];
    let out = rolled_up(&entries);
    assert_eq!(out.len(), 1);
    assert_eq!(out[0].turns, 3);
    assert_eq!(out[0].sessions, 1);
    assert_eq!(out[0].input_tokens, 450, "final cumulative, not the sum of all three");
    assert_eq!(out[0].output_tokens, 45);
    assert!((dollars(out[0].cost_usd) - 0.045).abs() < 1e-9);
}

#[test]
fn the_highest_turn_seq_wins_regardless_of_order() {
    let entries = vec![
        entry("a", Some("s1"), 3, None, Some(counts(450, 45, 0, 0, 0.045))),
        entry("a", Some("s1"), 1, None, Some(counts(100, 10, 0, 0, 0.01))),
        entry("a", Some("s1"), 2, None, Some(counts(300, 30, 0, 0, 0.03))),
    ];
    let out = rolled_up(&entries);
    assert_eq!(out[0].input_tokens, 450);
}

#[test]
fn sessions_sum_but_agents_stay_separate() {
    let entries = vec![
        entry("a", Some("s1"), 1, None, Some(counts(100, 10, 5, 1, 0.01))),
        entry("a", Some("s2"), 1, None, Some(counts(200, 20, 7, 2, 0.02))),
        entry("b", Some("s3"), 1, None, Some(counts(50, 5, 0, 0, 0.005))),
    ];
    let out = rolled_up(&entries);
    assert_eq!(out.len(), 2);
    let a = out.iter().find(|r| r.agent_pubkey == "a").expect("agent a");
    assert_eq!(a.sessions, 2);
    assert_eq!(a.input_tokens, 300);
    assert_eq!(a.cache_read_tokens, 12);
    assert_eq!(a.cache_write_tokens, 3);
    let b = out.iter().find(|r| r.agent_pubkey == "b").expect("agent b");
    assert_eq!(b.input_tokens, 50);
}

#[test]
fn a_turn_with_no_per_turn_delta_still_counts() {
    let entries = vec![entry("a", Some("s1"), 1, None, Some(counts(1_000, 200, 0, 0, 0.05)))];
    let out = rolled_up(&entries);
    assert_eq!(out[0].input_tokens, 1_000);
    assert!((dollars(out[0].cost_usd) - 0.05).abs() < 1e-9);
}

#[test]
fn missing_cumulative_falls_back_to_summing_turns() {
    let entries = vec![
        entry("a", Some("s1"), 1, Some(counts(100, 10, 0, 0, 0.01)), None),
        entry("a", Some("s1"), 2, Some(counts(200, 20, 0, 0, 0.02)), None),
    ];
    let out = rolled_up(&entries);
    assert_eq!(out[0].input_tokens, 300);
    assert!((dollars(out[0].cost_usd) - 0.03).abs() < 1e-9);
}

#[test]
fn payloads_without_a_session_id_are_counted_separately() {
    let entries = vec![
        entry("a", None, 1, None, Some(counts(100, 10, 0, 0, 0.01))),
        entry("a", None, 2, None, Some(counts(200, 20, 0, 0, 0.02))),
    ];
    let out = rolled_up(&entries);
    assert_eq!(out[0].turns, 2);
    assert_eq!(out[0].sessions, 2);
    assert_eq!(out[0].input_tokens, 300);
}

#[test]
fn undecryptable_turns_are_counted_not_swallowed() {
    let entries = vec![
        entry("a", Some("s1"), 1, None, Some(counts(100, 10, 0, 0, 0.01))),
        unreadable("a", 1_002),
    ];
    let out = rolled_up(&entries);
    assert_eq!(out[0].turns, 1, "only readable turns feed the totals");
    assert_eq!(out[0].undecryptable_turns, 1);
}

#[test]
fn an_agent_with_only_undecryptable_turns_still_appears() {
    let entries = vec![unreadable("ghost", 1_000)];
    let out = rolled_up(&entries);
    assert_eq!(out.len(), 1);
    assert_eq!(out[0].agent_pubkey, "ghost");
    assert_eq!(out[0].turns, 0);
    assert_eq!(out[0].undecryptable_turns, 1);
}

#[test]
fn rollups_are_ordered_by_cost_descending() {
    let entries = vec![
        entry("cheap", Some("s1"), 1, None, Some(counts(10, 1, 0, 0, 0.001))),
        entry("dear", Some("s2"), 1, None, Some(counts(10, 1, 0, 0, 5.0))),
        entry("mid", Some("s3"), 1, None, Some(counts(10, 1, 0, 0, 1.0))),
    ];
    let out = rolled_up(&entries);
    let order: Vec<&str> = out.iter().map(|r| r.agent_pubkey.as_str()).collect();
    assert_eq!(order, vec!["dear", "mid", "cheap"]);
}

#[test]
fn no_entries_give_no_rows() {
    assert!(tally(&Vec::new()).is_empty());
    assert!(rollup(&Vec::new()).is_empty());
}

#[test]
fn tallies_are_listed_by_pubkey() {
    let entries = vec![
        unreadable("b", 1),
        entry("c", Some("s1"), 1, None, Some(counts(1, 1, 0, 0, 0.0))),
        unreadable("a", 2),
        unreadable("ab", 3),
        unreadable("é", 4),
        unreadable("z", 5),
    ];
    let rows = tally(&entries);
    let order: Vec<&str> = rows.iter().map(|t| t.agent_pubkey.as_str()).collect();
    let mut sorted = order.clone();
    sorted.sort();
    assert_eq!(order, sorted);
    assert_eq!(order, vec!["a", "ab", "b", "c", "z", "é"]);
}

#[test]
fn agents_that_cost_the_same_are_listed_by_pubkey() {
    let entries = vec![
        entry("b", Some("s1"), 1, None, Some(counts(1, 1, 0, 0, 2.0))),
        entry("a", Some("s2"), 1, None, Some(counts(1, 1, 0, 0, 2.0))),
        entry("c", Some("s3"), 1, None, Some(counts(1, 1, 0, 0, 7.0))),
        unreadable("0", 1),
    ];
    let out = rolled_up(&entries);
    let order: Vec<&str> = out.iter().map(|r| r.agent_pubkey.as_str()).collect();
    assert_eq!(order, vec!["c", "a", "b", "0"]);
}

#[test]
fn a_ranking_does_not_depend_on_the_order_of_the_tallies() {
    let entries = vec![
        entry("b", Some("s1"), 1, None, Some(counts(1, 1, 0, 0, 2.0))),
        entry("a", Some("s2"), 1, None, Some(counts(1, 1, 0, 0, 2.0))),
        entry("c", Some("s3"), 1, None, Some(counts(1, 1, 0, 0, 0.5))),
    ];
    let priced: Vec<(AgentTally, Usd)> = tally(&entries)
        .into_iter()
        .map(|t| {
            let sum = summed(&t);
            (t, sum)
        })
        .collect();
    let mut reversed = priced.clone();
    reversed.reverse();
    assert_eq!(rollup(&priced), rollup(&reversed));
}

#[test]
fn the_order_of_arrival_does_not_matter() {
    let mut entries = vec![
        entry("a", Some("s1"), 1, None, Some(counts(100, 10, 1, 2, 0.25))),
        entry("a", Some("s1"), 2, None, Some(counts(300, 30, 3, 4, 0.5))),
        entry("b", Some("s1"), 1, Some(counts(7, 8, 9, 10, 0.125)), None),
        entry("b", Some("s1"), 2, Some(counts(1, 1, 1, 1, 0.125)), None),
        entry("a", None, 9, None, Some(counts(5, 5, 5, 5, 1.0))),
        unreadable("b", 3),
    ];
    let first = rolled_up(&entries);
    entries.reverse();
    let second = rolled_up(&entries);
    entries.swap(0, 3);
    let third = rolled_up(&entries);
    assert_eq!(first, second);
    assert_eq!(first, third);
    assert_eq!(first[0].input_tokens, 305);
    assert_eq!(first[1].output_tokens, 9);
}

#[test]
fn every_turn_is_counted_once() {
    let entries = vec![
        entry("a", Some("s1"), 1, None, None),
        entry("a", Some("s1"), 2, None, None),
        unreadable("a", 1),
        entry("b", None, 1, None, None),
        unreadable("c", 1),
        unreadable("c", 2),
    ];
    let rows = tally(&entries);
    let all: u64 = rows.iter().map(|t| t.turns + t.undecryptable_turns).sum();
    assert_eq!(all, entries.len() as u64);
    assert_eq!(rows.len(), 3);
}

#[test]
fn equal_turn_numbers_are_settled_by_time() {
    let mut early = entry("a", Some("s1"), 4, None, Some(counts(1, 0, 0, 0, 0.0)));
    let mut late = entry("a", Some("s1"), 4, None, Some(counts(2, 0, 0, 0, 0.0)));
    early.created_at = 10;
    late.created_at = 11;
    assert_eq!(tally(&vec![early.clone(), late.clone()])[0].input_tokens, 2);
    assert_eq!(tally(&vec![late.clone(), early.clone()])[0].input_tokens, 2);

    late.created_at = 10;
    assert_eq!(
        tally(&vec![early.clone(), late.clone()])[0].input_tokens,
        2,
        "of equally late turns the last one given counts"
    );
    assert_eq!(tally(&vec![late, early])[0].input_tokens, 1);
}

#[test]
fn a_turn_without_a_number_counts_as_number_zero() {
    let mut unnumbered = entry("a", Some("s1"), 9, None, Some(counts(7, 0, 0, 0, 0.0)));
    if let Some(payload) = &mut unnumbered.payload {
        payload.turn_seq = None;
    }
    let numbered = entry("a", Some("s1"), 1, None, Some(counts(5, 0, 0, 0, 0.0)));
    assert_eq!(tally(&vec![numbered, unnumbered])[0].input_tokens, 5);
}

#[test]
fn token_sums_stop_at_the_largest_number() {
    let entries = vec![
        entry("a", Some("s1"), 1, None, Some(counts(u64::MAX, 1, 0, 0, 0.0))),
        entry("a", Some("s2"), 1, None, Some(counts(5, 2, 0, 0, 0.0))),
    ];
    let rows = tally(&entries);
    assert_eq!(rows[0].input_tokens, u64::MAX);
    assert_eq!(rows[0].output_tokens, 3);
}

#[test]
fn unreported_counts_add_nothing() {
    let nothing = TokenCounts {
        input_tokens: None,
        output_tokens: Some(4),
        total_tokens: Some(9),
        cost_usd: None,
        cache_read_tokens: None,
        cache_write_tokens: None,
    };
    let rows = tally(&vec![entry("a", Some("s1"), 1, None, Some(nothing))]);
    assert_eq!(rows[0].input_tokens, 0);
    assert_eq!(rows[0].output_tokens, 4);
    assert!(rows[0].costs.is_empty());
}

#[test]
fn two_turns_without_any_id_in_one_second_are_two_sessions() {
    let bare = |input: u64| {
        let mut e = entry("a", None, 0, None, Some(counts(input, 0, 0, 0, 0.0)));
        if let Some(payload) = &mut e.payload {
            payload.turn_id = None;
            payload.turn_seq = None;
        }
        e
    };
    let out = rolled_up(&vec![bare(100), bare(200)]);
    assert_eq!(out[0].turns, 2);
    assert_eq!(out[0].sessions, 2);
    assert_eq!(out[0].input_tokens, 300);
}

#[test]
fn two_orphans_of_the_same_turn_and_time_are_two_sessions() {
    let a = entry("a", None, 1, None, Some(counts(1, 0, 0, 0, 0.25)));
    let b = entry("a", None, 1, Some(counts(2, 0, 0, 0, 0.5)), None);
    let c = entry("a", None, 1, None, None);
    let rows = tally(&vec![a, b, c]);
    assert_eq!(rows[0].sessions, 3);
    assert_eq!(rows[0].turns, 3);
    assert_eq!(rows[0].input_tokens, 3);
    assert_eq!(rows[0].costs.len(), 2);
}

#[test]
fn costs_that_are_negative_or_not_finite_are_not_accepted() {
    assert!(Usd::reported((-0.01_f64).to_bits()).is_none());
    assert!(Usd::reported(f64::INFINITY.to_bits()).is_none());
    assert!(Usd::reported(f64::NEG_INFINITY.to_bits()).is_none());
    assert!(Usd::reported(f64::NAN.to_bits()).is_none());
    assert_eq!(Usd::reported((-0.0_f64).to_bits()), Some(Usd::zero()));
    assert_eq!(Usd::reported(0.0_f64.to_bits()), Some(Usd::zero()));
    assert_eq!(dollars(Usd::reported(1.25_f64.to_bits()).expect("cost")), 1.25);
    assert!(Usd::reported(f64::MAX.to_bits()).is_some());
}

#[test]
fn amounts_may_be_infinite_but_not_negative() {
    assert_eq!(INFINITE_USD, f64::INFINITY.to_bits());
    assert!(Usd::from_bits(f64::INFINITY.to_bits()).is_some());
    assert!(Usd::from_bits((-0.0_f64).to_bits()).is_none());
    assert!(Usd::from_bits(f64::NAN.to_bits()).is_none());
    assert_eq!(Usd::from_bits(2.5_f64.to_bits()).map(|a| a.bits()), Some(2.5_f64.to_bits()));
}

#[test]
fn a_default_rollup_is_empty() {
    let nothing = AgentRollup::default();
    assert_eq!(nothing.agent_pubkey, "");
    assert_eq!(nothing.turns + nothing.sessions + nothing.input_tokens, 0);
    assert_eq!(nothing.cost_usd, Usd::zero());
}

#[test]
fn an_event_that_never_arrived_is_not_missed() {
    let entries = vec![
        entry("a", Some("s1"), 1, None, Some(counts(100, 10, 1, 2, 0.25))),
        entry("a", Some("s2"), 1, None, Some(counts(7, 7, 7, 7, 0.5))),
        entry("a", Some("s1"), 2, None, Some(counts(300, 30, 3, 4, 1.0))),
    ];
    let whole = rolled_up(&entries);
    let rest = rolled_up(&entries[1..].to_vec());
    assert_eq!(whole[0].turns, rest[0].turns + 1);
    assert_eq!(whole[0].sessions, rest[0].sessions);
    assert_eq!(whole[0].input_tokens, 307);
    assert_eq!(rest[0].input_tokens, 307);
    assert_eq!(whole[0].cost_usd, rest[0].cost_usd);
}

#[test]
fn an_orphan_joins_no_session_whatever_its_id() {
    for id in ["", "orphan:turn-1:1001", "\u{0}orphan:turn-1:1001", "turn-1"] {
        let entries = vec![
            entry("a", Some(id), 1, None, Some(counts(1, 0, 0, 0, 0.0))),
            entry("a", None, 1, None, Some(counts(2, 0, 0, 0, 0.0))),
            entry("a", Some(id), 2, None, Some(counts(4, 0, 0, 0, 0.0))),
        ];
        let rows = tally(&entries);
        assert_eq!(rows[0].sessions, 2);
        assert_eq!(rows[0].input_tokens, 6);
    }
}

#[test]
fn cache_figures_stay_within_input_where_a_sum_stops() {
    let mut out = tally(&vec![unreadable("a", 1)]).remove(0);
    add_counts(&mut out, &counts(u64::MAX - 1, 7, 5, 6, 0.5));
    add_counts(&mut out, &counts(10, 1, 10, 9, 0.25));
    assert_eq!(out.input_tokens, u64::MAX);
    assert_eq!(out.output_tokens, 8);
    assert_eq!(out.cache_read_tokens, 15);
    assert_eq!(out.cache_write_tokens, 15);
    add_counts(&mut out, &counts(u64::MAX, 0, u64::MAX, 1, 0.0));
    assert_eq!(out.cache_read_tokens, u64::MAX);
    assert!(out.cache_read_tokens <= out.input_tokens);
    assert!(out.cache_write_tokens <= out.input_tokens);
    assert_eq!(out.costs.len(), 3);
}

#[test]
fn a_rollup_of_a_tally_is_strictly_ordered_with_a_row_for_each_agent() {
    let entries = vec![
        entry("c", Some("s1"), 1, None, Some(counts(1, 1, 0, 0, 2.0))),
        unreadable("a", 1),
        entry("b", Some("s2"), 1, None, Some(counts(7, 1, 0, 0, 2.0))),
        entry("d", Some("s3"), 1, None, Some(counts(1, 1, 0, 0, 9.5))),
        entry("b", Some("s4"), 1, None, Some(counts(1, 1, 0, 0, 0.5))),
        unreadable("0", 1),
    ];
    let rows = rolled_up(&entries);
    let shown: Vec<(&str, f64)> =
        rows.iter().map(|r| (r.agent_pubkey.as_str(), dollars(r.cost_usd))).collect();
    assert_eq!(shown, vec![("d", 9.5), ("b", 2.5), ("c", 2.0), ("0", 0.0), ("a", 0.0)]);
    assert_eq!(rows[1].sessions, 2);
    assert_eq!(rows[1].input_tokens, 8);
    assert_eq!(rows[3].undecryptable_turns, 1);
}
