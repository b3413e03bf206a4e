use buzz_agents::display::{sanitize_name, short_pubkey, thousands, trim_text};
use buzz_agents::markdown::{display_name, render_markdown, totals_fit};
use buzz_agents::metric::{AgentTurnMetricPayload, MetricEntry, TokenCounts, Usd};
use buzz_agents::names::Names;
use buzz_agents::rollup::{rollup, AgentRollup};
use buzz_agents::tally::{tally, AgentTally};

fn usd(amount: f64) -> Usd {
    Usd::reported(amount.to_bits()).expect("a cost that is finite and not negative")
}

fn dollars(amount: Usd) -> f64 {
    f64::from_bits(amount.bits())
}

fn counts(input: u64, output: u64, read: u64, write: u64, cost: f64) -> TokenCounts {
    TokenCounts {
        input_tokens: Some(input),
        output_tokens: Some(output),
        total_tokens: None,
        cost_usd: Some(usd(cost)),
        cache_read_tokens: Some(read),
        cache_write_tokens: Some(write),
    }
}

fn entry(
    agent: &str,
    session: Option<&str>,
    turn_seq: u64,
    turn: Option<TokenCounts>,
    cumulative: Option<TokenCounts>,
) -> MetricEntry {
    MetricEntry {
        agent_pubkey: agent.to_string(),
        created_at: 1_000 + turn_seq,
        payload: Some(AgentTurnMetricPayload {
            harness: "goose".to_string(),
            model: None,
            channel_id: None,
            session_id: session.map(str::to_string),
            turn_id: Some(format!("turn-{turn_seq}")),
            turn_seq: Some(turn_seq),
            timestamp: "2026-08-08T00:00:00.000Z".to_string(),
            turn,
            cumulative,
            delta_reliable: true,
            stop_reason: None,
        }),
    }
}

fn rolled_up(entries: &Vec<MetricEntry>) -> Vec<AgentRollup> {
    let priced: Vec<(AgentTally, Usd)> = tally(entries)
        .into_iter()
        .map(|t| {
            let sum = usd(t.costs.iter().fold(0.0, |sum, cost| sum + dollars(*cost)));
            (t, sum)
        })
        .collect();
    rollup(&priced)
}

fn rendered(rollups: &[AgentRollup], names: &Names, generated_at: &str) -> String {
    let rows: Vec<(AgentRollup, String)> = rollups
        .iter()
        .map(|r| (r.clone(), format!("{:.2}", dollars(r.cost_usd))))
        .collect();
    let total = rollups.iter().fold(0.0, |sum, r| sum + dollars(r.cost_usd));
    assert!(totals_fit(&rows));
    render_markdown(&rows, names, generated_at, &format!("{:.2}", total))
}

#[test]
fn empty_input_renders_an_explanation_not_an_empty_table() {
    let md = rendered(&[], &Names::new(), "2026-08-08T00:00:00Z");
    assert!(md.contains("No agent turn metrics found"));
    assert!(!md.contains("| Agent |"));
}

#[test]
fn the_table_totals_every_column() {
    let entries = vec![
        entry("a", Some("s1"), 1, None, Some(counts(100, 10, 5, 1, 1.5))),
        entry("b", Some("s2"), 1, None, Some(counts(200, 20, 7, 2, 2.25))),
    ];
    let out = rolled_up(&entries);
    let md = rendered(&out, &Names::new(), "2026-08-08T00:00:00Z");
    assert!(md.contains("**300**"), "input total missing:\n{md}");
    assert!(md.contains("**30**"), "output total missing:\n{md}");
    assert!(md.contains("**$3.75**"), "cost total missing:\n{md}");
}

#[test]
fn display_names_replace_hex_when_known() {
    let entries = vec![entry(
        "abcdef0123456789",
        Some("s1"),
        1,
        None,
        Some(counts(1, 1, 0, 0, 0.0)),
    )];
    let out = rolled_up(&entries);

    let bare = rendered(&out, &Names::new(), "t");
    assert!(bare.contains("| abcdef01 |"), "hex fallback missing:\n{bare}");

    let mut names = Names::new();
    names.insert("abcdef0123456789".to_string(), "Forge".to_string());
    let named = rendered(&out, &names, "t");
    assert!(named.contains("| Forge |"), "display name missing:\n{named}");
}

#[test]
fn hostile_display_names_cannot_break_the_table() {
    let entries = vec![
        entry("a", Some("s1"), 1, None, Some(counts(100, 10, 0, 0, 1.0))),
        entry("b", Some("s2"), 1, None, Some(counts(200, 20, 0, 0, 0.5))),
    ];
    let out = rolled_up(&entries);

    let mut names = Names::new();
    names.insert("a".to_string(), "Evil | Agent\n| **Total** | 0 |".to_string());
    names.insert("b".to_string(), "Benign".to_string());
    let md = rendered(&out, &names, "t");

    assert!(!md.contains("Evil | Agent"), "pipe must be escaped:\n{md}");
    assert!(md.contains("Evil \\| Agent"), "escaped name missing:\n{md}");
    assert!(
        md.contains("| Benign |"),
        "the agent below the hostile name must survive:\n{md}"
    );
    assert_eq!(
        md.lines().filter(|l| l.starts_with('|')).count(),
        5,
        "row count changed, so the table shape was altered:\n{md}"
    );
}

#[test]
fn sanitize_name_flattens_trims_and_caps() {
    assert_eq!(sanitize_name("  Forge  "), "Forge");
    assert_eq!(sanitize_name("Forge\nBot"), "Forge Bot");
    assert_eq!(sanitize_name("a|b"), "a\\|b");
    let long = "x".repeat(80);
    let capped = sanitize_name(&long);
    assert_eq!(capped.chars().count(), 40);
    assert!(capped.ends_with('…'));
}

#[test]
fn a_blank_display_name_falls_back_to_hex() {
    let entries = vec![entry(
        "abcdef0123456789",
        Some("s1"),
        1,
        None,
        Some(counts(1, 1, 0, 0, 0.0)),
    )];
    let out = rolled_up(&entries);
    let mut names = Names::new();
    names.insert("abcdef0123456789".to_string(), "   ".to_string());
    let md = rendered(&out, &names, "t");
    assert!(md.contains("| abcdef01 |"), "hex fallback missing:\n{md}");
}

#[test]
fn thousands_separates_correctly() {
    assert_eq!(thousands(0), "0");
    assert_eq!(thousands(999), "999");
    assert_eq!(thousands(1_000), "1,000");
    assert_eq!(thousands(12_345), "12,345");
    assert_eq!(thousands(1_234_567), "1,234,567");
}

#[test]
fn the_largest_number_is_grouped() {
    assert_eq!(thousands(u64::MAX), "18,446,744,073,709,551,615");
    assert_eq!(thousands(1_000_001), "1,000,001");
    for n in [0, 7, 10, 99, 100, 1_001, 999_999, 1_000_000, u64::MAX] {
        let text = thousands(n);
        assert_eq!(text.replace(',', ""), n.to_string());
        for (i, c) in text.chars().rev().enumerate() {
            assert_eq!(c == ',', i % 4 == 3, "{text}");
        }
    }
}

#[test]
fn a_short_pubkey_has_at_most_eight_characters() {
    assert_eq!(short_pubkey("abcdef0123456789"), "abcdef01");
    assert_eq!(short_pubkey("abcdefgh"), "abcdefgh");
    assert_eq!(short_pubkey("abc"), "abc");
    assert_eq!(short_pubkey(""), "");
    assert_eq!(short_pubkey("ééééééééé"), "éééééééé");
}

#[test]
fn white_space_is_what_unicode_says_it_is() {
    let listed: Vec<u32> = vec![
        0x9, 0xa, 0xb, 0xc, 0xd, 0x20, 0x85, 0xa0, 0x1680, 0x2000, 0x2001, 0x2002, 0x2003, 0x2004,
        0x2005, 0x2006, 0x2007, 0x2008, 0x2009, 0x200a, 0x2028, 0x2029, 0x202f, 0x205f, 0x3000,
    ];
    for c in '\u{0}'..=char::MAX {
        let white = listed.contains(&(c as u32));
        assert_eq!(c.is_whitespace(), white, "{:x}", c as u32);
        if c as u32 <= 0x4000 && c != '|' {
            let expected = if white { "a b".to_string() } else { format!("a{c}b") };
            assert_eq!(sanitize_name(&format!("a{c}b")), expected);
            assert_eq!(trim_text(&format!("{c}{c}")).is_empty(), white);
        }
    }
}

#[test]
fn trimming_takes_white_space_off_both_ends() {
    assert_eq!(trim_text(""), "");
    assert_eq!(trim_text(" \t\n"), "");
    assert_eq!(trim_text("a b"), "a b");
    assert_eq!(trim_text("\u{3000} a  b\r\n"), "a  b");
}

#[test]
fn a_long_name_is_cut_after_it_was_escaped() {
    let forty = "y".repeat(40);
    assert_eq!(sanitize_name(&forty), forty);
    let pipes = sanitize_name(&"|".repeat(30));
    assert_eq!(pipes.chars().count(), 40);
    assert_eq!(pipes, format!("{}\\…", "\\|".repeat(19)));
    assert_eq!(sanitize_name(""), "");
    assert_eq!(sanitize_name("\n\t "), "");
    assert_eq!(sanitize_name(" | "), "\\|");
}

#[test]
fn the_table_is_written_as_a_whole() {
    let entries = vec![
        entry("abcdef0123456789", Some("s1"), 1, None, Some(counts(1_234, 56, 7, 8, 1.5))),
        entry("b", Some("s2"), 1, None, Some(counts(200, 20, 7, 2, 2.25))),
        MetricEntry { agent_pubkey: "b".to_string(), created_at: 5, payload: None },
    ];
    let mut names = Names::new();
    names.insert("b".to_string(), "Forge".to_string());
    let md = rendered(&rolled_up(&entries), &names, "2026-08-08T00:00:00Z");
    assert_eq!(
        md,
        "**Agent usage — cumulative, as of 2026-08-08T00:00:00Z**\n\n\
         | Agent | Turns | Input | Output | Cache read | Cache write | Cost (USD) |\n\
         |---|--:|--:|--:|--:|--:|--:|\n\
         | Forge | 1 | 200 | 20 | 7 | 2 | $2.25 |\n\
         | abcdef01 | 1 | 1,234 | 56 | 7 | 8 | $1.50 |\n\
         | **Total** | **2** | **1,434** | **76** | **14** | **10** | **$3.75** |\n\
         \nInput is cache-inclusive: cache-read and cache-write tokens are \
         subsets of it, broken out because they bill at different rates. \
         2 sessions.\n\
         \n⚠️ 1 turn(s) could not be decrypted and are excluded from the \
         totals above — the figures are a floor, not a complete count.\n"
    );
}

#[test]
fn the_warning_is_left_out_where_everything_was_read() {
    let entries = vec![entry("a", Some("s1"), 1, None, Some(counts(1, 1, 0, 0, 0.0)))];
    let md = rendered(&rolled_up(&entries), &Names::new(), "t");
    assert!(!md.contains("could not be decrypted"));
    assert!(md.ends_with("1 sessions.\n"));
}

#[test]
fn without_rollups_the_explanation_is_all_there_is() {
    assert_eq!(
        rendered(&[], &Names::new(), "now"),
        "**Agent usage — cumulative, as of now**\n\n\
         No agent turn metrics found. Either no turns have been recorded yet, \
         or turn-usage capture is not live on the fleet.\n"
    );
}

#[test]
fn totals_that_do_not_fit_are_noticed() {
    let mut big = AgentRollup::default();
    big.cache_write_tokens = u64::MAX;
    let mut one = AgentRollup::default();
    one.cache_write_tokens = 1;
    let fits = vec![(big.clone(), "0.00".to_string())];
    let overflows = vec![(big, "0.00".to_string()), (one, "0.00".to_string())];
    assert!(totals_fit(&fits));
    assert!(!totals_fit(&overflows));
    assert!(totals_fit(&Vec::new()));
}

#[test]
fn a_name_is_shown_where_it_is_known_and_not_blank() {
    let mut names = Names::new();
    names.insert("abcdef0123".to_string(), " For|ge\n".to_string());
    names.insert("blankblank".to_string(), "\n".to_string());
    assert_eq!(display_name(&names, "abcdef0123"), "For\\|ge");
    assert_eq!(display_name(&names, "blankblank"), "blankbla");
    assert_eq!(display_name(&names, "0123456789"), "01234567");
}

#[test]
fn a_pubkey_has_one_name() {
    let mut names = Names::new();
    assert!(names.get("a").is_none());
    names.insert("a".to_string(), "One".to_string());
    names.insert("b".to_string(), "Two".to_string());
    names.insert("a".to_string(), "Three".to_string());
    assert_eq!(names.get("a").map(String::as_str), Some("Three"));
    assert_eq!(names.get("b").map(String::as_str), Some("Two"));
    assert!(names.get("c").is_none());
}

#[test]
fn a_row_has_seven_cells_whatever_the_name() {
    let entries = vec![entry("a", Some("s1"), 1, None, Some(counts(1, 1, 0, 0, 0.0)))];
    let long = "long | ".repeat(9);
    for name in ["Forge", "a|b|c", "||||", "tab\tbed | x", long.as_str()] {
        let mut names = Names::new();
        names.insert("a".to_string(), name.to_string());
        let md = rendered(&rolled_up(&entries), &names, "t");
        let row: Vec<char> = md.lines().nth(4).expect("agent row").chars().collect();
        let bare = (0..row.len())
            .filter(|i| row[*i] == '|' && (*i == 0 || row[*i - 1] != '\\'))
            .count();
        assert_eq!(bare, 8, "{md}");
    }
}

#[test]
fn names_change_only_the_first_cells() {
    let entries = vec![
        entry("abcdef0123", Some("s1"), 1, None, Some(counts(1_234, 1, 0, 0, 2.0))),
        entry("b", Some("s2"), 1, None, Some(counts(1, 1, 0, 0, 1.0))),
    ];
    let out = rolled_up(&entries);
    let plain = rendered(&out, &Names::new(), "t");
    let mut names = Names::new();
    names.insert("abcdef0123".to_string(), "Evil |\n\n| x".to_string());
    names.insert("b".to_string(), "Forge".to_string());
    let named = rendered(&out, &names, "t");
    let a: Vec<&str> = plain.split('\n').collect();
    let b: Vec<&str> = named.split('\n').collect();
    assert_eq!(a.len(), b.len());
    for j in 0..a.len() {
        if j < 4 || j >= 6 {
            assert_eq!(a[j], b[j]);
        }
    }
    assert_eq!(a[4], "| abcdef01 | 1 | 1,234 | 1 | 0 | 0 | $2.00 |");
    assert_eq!(b[4], "| Evil \\|  \\| x | 1 | 1,234 | 1 | 0 | 0 | $2.00 |");
    assert_eq!(b[5], "| Forge | 1 | 1 | 1 | 0 | 0 | $1.00 |");
    for line in a.iter().chain(b.iter()).filter(|line| line.starts_with('|')) {
        let row: Vec<char> = line.chars().collect();
        let bare = (0..row.len())
            .filter(|i| row[*i] == '|' && (*i == 0 || row[*i - 1] != '\\'))
            .count();
        assert_eq!(bare, 8, "{line}");
    }
}
