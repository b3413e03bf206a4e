use buzz_agents::paths::{
    named_parent, parent_to_check, path_problem, suspect_path, temp_name, temp_path,
};
use buzz_agents::save::{next_step, start_save, SaveStep};
use buzz_agents::watermark::{
    ChannelWatermark, LoadNotice, StoredState, WatermarkStore, RECENT_IDS_PER_CHANNEL,
};
use serde_json::Value;
use std::collections::HashMap;
use uuid::Uuid;

/// Files by their paths.
type Files = HashMap<String, Vec<u8>>;

fn encoded(store: &WatermarkStore) -> Vec<u8> {
    let mut channels = serde_json::Map::new();
    for (channel, mark) in store.channels() {
        let mut entry = serde_json::Map::new();
        entry.insert("last_seen".to_string(), Value::from(mark.last_seen));
        entry.insert("recent_ids".to_string(), Value::from(mark.recent_ids));
        channels.insert(Uuid::from_u128(channel).to_string(), Value::from(entry));
    }
    let mut whole = serde_json::Map::new();
    whole.insert("channels".to_string(), Value::from(channels));
    serde_json::to_vec_pretty(&Value::from(whole)).expect("encode")
}

fn decoded(raw: &[u8]) -> StoredState {
    let Ok(whole) = serde_json::from_slice::<Value>(raw) else {
        return StoredState::Corrupt;
    };
    let mut channels = Vec::new();
    for (channel, entry) in whole["channels"].as_object().expect("channels") {
        let channel = Uuid::parse_str(channel).expect("uuid").as_u128();
        let last_seen = entry["last_seen"].as_u64().expect("last_seen");
        let recent_ids = entry["recent_ids"]
            .as_array()
            .expect("recent_ids")
            .iter()
            .map(|id| id.as_str().expect("id").to_string())
            .collect();
        channels.push((channel, ChannelWatermark { last_seen, recent_ids }));
    }
    StoredState::Channels(channels)
}

/// Saves as the steps say. Steps in `failing` go wrong.
fn save(store: &WatermarkStore, path: &str, files: &mut Files, failing: &[SaveStep]) -> SaveStep {
    let data = encoded(store);
    let temp = temp_path(path);
    let mut step = start_save(true, parent_to_check(path).is_some());
    while step != SaveStep::Saved && step != SaveStep::Failed {
        let ok = !failing.contains(&step);
        match step {
            SaveStep::WriteTemp => {
                let written = if ok { data.clone() } else { data[..3].to_vec() };
                files.insert(temp.clone(), written);
            }
            SaveStep::Rename if ok => {
                let written = files.remove(&temp).expect("temp file");
                files.insert(path.to_string(), written);
            }
            SaveStep::RemoveTemp if ok => {
                files.remove(&temp);
            }
            _ => {}
        }
        step = next_step(step, ok);
    }
    step
}

fn load(path: &str, files: &Files) -> WatermarkStore {
    let found = match files.get(path) {
        Some(raw) => decoded(raw),
        None => StoredState::Missing,
    };
    WatermarkStore::load(found).store
}

fn scratch(label: &str) -> String {
    format!("/tmp/buzz-acp-watermark-{label}/watermarks.json")
}

fn new_channel() -> u128 {
    Uuid::new_v4().as_u128()
}

#[test]
fn round_trips_through_disk() {
    let path = scratch("round-trip");
    let mut files = Files::new();
    let channel = new_channel();

    let mut store = WatermarkStore::default();
    store.record(channel, 1_000, "aaaa");
    store.record(channel, 1_005, "bbbb");
    assert_eq!(save(&store, &path, &mut files, &[]), SaveStep::Saved);

    let loaded = load(&path, &files);
    assert_eq!(loaded.since(channel), Some(1_005));
    assert_eq!(loaded.all_recent_ids(), vec!["aaaa", "bbbb"]);
}

#[test]
fn a_processed_event_survives_restart_so_replay_cannot_double_fire() {
    let path = scratch("no-double-fire");
    let mut files = Files::new();
    let channel = new_channel();
    let already_handled = "deadbeef";

    let mut before = WatermarkStore::default();
    before.record(channel, 2_000, already_handled);
    assert_eq!(save(&before, &path, &mut files, &[]), SaveStep::Saved);

    let after = load(&path, &files);
    assert_eq!(
        after.since(channel),
        Some(2_000),
        "must resume from the last processed event, not from now"
    );
    assert!(
        after.all_recent_ids().iter().any(|id| id == already_handled),
        "the event that would be replayed must seed dedup"
    );
}

#[test]
fn missing_file_is_a_first_run_not_an_error() {
    let store = load("/tmp/buzz-acp-watermark-missing/does-not-exist.json", &Files::new());
    assert!(store.is_empty());
    assert_eq!(store.since(new_channel()), None);
}

#[test]
fn corrupt_file_degrades_to_starting_from_now() {
    let path = scratch("corrupt");
    let mut files = Files::new();
    files.insert(path.clone(), b"{ not json at all".to_vec());

    let store = load(&path, &files);
    assert!(store.is_empty(), "a corrupt file must not stop the agent starting");
}

#[test]
fn last_seen_never_moves_backwards() {
    let channel = new_channel();
    let mut store = WatermarkStore::default();

    store.record(channel, 5_000, "newer");
    store.record(channel, 4_000, "older-arriving-late");

    assert_eq!(store.since(channel), Some(5_000));
}

#[test]
fn recent_ids_are_bounded_and_keep_the_newest() {
    let channel = new_channel();
    let mut store = WatermarkStore::default();

    for i in 0..(RECENT_IDS_PER_CHANNEL + 10) {
        store.record(channel, 1_000 + i as u64, &format!("event-{i}"));
    }

    let ids = store.all_recent_ids();
    assert_eq!(ids.len(), RECENT_IDS_PER_CHANNEL);
    assert!(ids
        .iter()
        .any(|id| id == &format!("event-{}", RECENT_IDS_PER_CHANNEL + 9)));
    assert!(!ids.iter().any(|id| id == "event-0"), "oldest entries are evicted first");
}

#[test]
fn recording_the_same_event_twice_does_not_duplicate_it() {
    let channel = new_channel();
    let mut store = WatermarkStore::default();

    store.record(channel, 1_000, "same");
    store.record(channel, 1_000, "same");

    assert_eq!(store.all_recent_ids(), vec!["same"]);
}

#[test]
fn zero_watermark_is_treated_as_no_resume_point() {
    let channel = new_channel();
    let mut store = WatermarkStore::default();
    store.record(channel, 0, "unstamped");

    assert_eq!(
        store.since(channel),
        None,
        "a zero timestamp must not be handed back as a replay floor"
    );
}

#[test]
fn flattened_windows_path_is_flagged() {
    let mangled = "C:UsersbradlAppDataLocalTempwatermarks.json";
    assert!(
        suspect_path(mangled, false).is_some(),
        "a path with its separators stripped must be flagged"
    );
    assert!(suspect_path(mangled, true).is_some());
}

#[test]
fn relative_path_is_flagged() {
    assert!(suspect_path("watermarks.json", true).is_some());
    assert!(suspect_path("./state/watermarks.json", true).is_some());
    assert!(suspect_path("watermarks.json", false).is_some());
    assert!(suspect_path("./state/watermarks.json", false).is_some());
}

#[test]
fn a_real_absolute_path_is_not_flagged() {
    let good = scratch("not-suspect");
    assert_eq!(
        suspect_path(&good, true),
        None,
        "an absolute path with an existing parent is fine"
    );
}

#[test]
fn absolute_path_with_missing_parent_is_flagged() {
    let orphan = "/tmp/buzz-acp-watermark-orphan/no-such-dir/watermarks.json";
    assert!(suspect_path(orphan, false).is_some());
    assert_eq!(suspect_path(orphan, false), Some("has a parent directory that does not exist"));
}

#[test]
fn forget_drops_channel_state() {
    let channel = new_channel();
    let mut store = WatermarkStore::default();
    store.record(channel, 1_000, "x");
    store.forget(channel);

    assert!(store.is_empty());
    assert_eq!(store.since(channel), None);
}

#[test]
fn save_replaces_previous_contents_atomically() {
    let path = scratch("atomic");
    let mut files = Files::new();
    let channel = new_channel();

    let mut first = WatermarkStore::default();
    first.record(channel, 1_000, "first");
    assert_eq!(save(&first, &path, &mut files, &[]), SaveStep::Saved);

    let mut second = WatermarkStore::default();
    second.record(channel, 9_000, "second");
    assert_eq!(save(&second, &path, &mut files, &[]), SaveStep::Saved);

    let loaded = load(&path, &files);
    assert_eq!(loaded.since(channel), Some(9_000));
    assert_eq!(loaded.all_recent_ids(), vec!["second"]);
    assert!(!files.contains_key(&temp_path(&path)), "the temp file must not be left behind");
}

#[test]
fn a_failed_save_leaves_the_old_file() {
    let path = scratch("failing");
    let channel = new_channel();
    let mut first = WatermarkStore::default();
    first.record(channel, 1_000, "first");
    let mut second = WatermarkStore::default();
    second.record(channel, 9_000, "second");

    for failing in [
        vec![SaveStep::CreateParent],
        vec![SaveStep::WriteTemp],
        vec![SaveStep::Rename],
        vec![SaveStep::Rename, SaveStep::RemoveTemp],
    ] {
        let mut files = Files::new();
        assert_eq!(save(&first, &path, &mut files, &[]), SaveStep::Saved);
        assert_eq!(save(&second, &path, &mut files, &failing), SaveStep::Failed);
        assert_eq!(load(&path, &files).since(channel), Some(1_000));
        let temp_left = files.contains_key(&temp_path(&path));
        let expected = failing.contains(&SaveStep::WriteTemp) || failing.len() == 2;
        assert_eq!(temp_left, expected, "{failing:?}");
    }
}

#[test]
fn saving_takes_its_steps_in_order() {
    assert_eq!(start_save(false, true), SaveStep::Failed);
    assert_eq!(start_save(false, false), SaveStep::Failed);
    assert_eq!(start_save(true, true), SaveStep::CreateParent);
    assert_eq!(start_save(true, false), SaveStep::WriteTemp);
    assert_eq!(next_step(SaveStep::CreateParent, true), SaveStep::WriteTemp);
    assert_eq!(next_step(SaveStep::CreateParent, false), SaveStep::Failed);
    assert_eq!(next_step(SaveStep::WriteTemp, true), SaveStep::Rename);
    assert_eq!(next_step(SaveStep::WriteTemp, false), SaveStep::Failed);
    assert_eq!(next_step(SaveStep::Rename, true), SaveStep::Saved);
    assert_eq!(next_step(SaveStep::Rename, false), SaveStep::RemoveTemp);
    assert_eq!(next_step(SaveStep::RemoveTemp, true), SaveStep::Failed);
    assert_eq!(next_step(SaveStep::RemoveTemp, false), SaveStep::Failed);
    assert_eq!(next_step(SaveStep::Saved, false), SaveStep::Saved);
    assert_eq!(next_step(SaveStep::Failed, true), SaveStep::Failed);
}

#[test]
fn what_was_found_on_disk_is_told_apart() {
    let notice = |found: StoredState| WatermarkStore::load(found).notice;
    assert_eq!(notice(StoredState::Missing), LoadNotice::FirstRun);
    assert_eq!(notice(StoredState::Unreadable), LoadNotice::CouldNotRead);
    assert_eq!(notice(StoredState::Corrupt), LoadNotice::NotParsed);
    assert_eq!(notice(StoredState::Channels(Vec::new())), LoadNotice::Resumed);
    assert!(WatermarkStore::load(StoredState::Unreadable).store.is_empty());
}

#[test]
fn channels_are_kept_apart() {
    let mut store = WatermarkStore::default();
    store.record(1, 10, "a");
    store.record(2, 20, "b");
    store.record(1, 5, "c");
    assert_eq!(store.since(1), Some(10));
    assert_eq!(store.since(2), Some(20));
    assert_eq!(store.since(3), None);
    let mut ids = store.all_recent_ids();
    ids.sort();
    assert_eq!(ids, vec!["a", "b", "c"]);
    store.forget(1);
    assert_eq!(store.since(1), None);
    assert_eq!(store.all_recent_ids(), vec!["b"]);
    assert!(!store.is_empty());
}

#[test]
fn an_evicted_id_is_taken_as_new() {
    let mut store = WatermarkStore::default();
    for i in 0..=RECENT_IDS_PER_CHANNEL {
        store.record(7, 1, &format!("event-{i}"));
    }
    let ids = store.all_recent_ids();
    assert_eq!(ids[0], "event-1");
    assert_eq!(ids[RECENT_IDS_PER_CHANNEL - 1], format!("event-{RECENT_IDS_PER_CHANNEL}"));
    store.record(7, 1, "event-0");
    assert_eq!(store.all_recent_ids()[0], "event-2");
}

#[test]
fn a_long_list_from_disk_is_cut_with_the_next_new_event() {
    let recent_ids: Vec<String> = (0..80).map(|i| format!("event-{i}")).collect();
    let mut store =
        WatermarkStore::from_channels(vec![(7, ChannelWatermark { last_seen: 3, recent_ids })]);
    store.record(7, 9, "event-5");
    assert_eq!(store.all_recent_ids().len(), 80, "a known event changes no ids");
    assert_eq!(store.since(7), Some(9));
    store.record(7, 1, "event-80");
    let ids = store.all_recent_ids();
    assert_eq!(ids.len(), RECENT_IDS_PER_CHANNEL);
    assert_eq!(ids[0], "event-17");
    assert_eq!(ids[63], "event-80");
}

#[test]
fn of_entries_of_one_channel_the_last_counts() {
    let store = WatermarkStore::from_channels(vec![
        (7, ChannelWatermark { last_seen: 3, recent_ids: vec!["a".to_string()] }),
        (7, ChannelWatermark { last_seen: 2, recent_ids: Vec::new() }),
    ]);
    assert_eq!(store.since(7), Some(2));
    assert!(store.all_recent_ids().is_empty());
    assert_eq!(store.channels().len(), 1);
}

#[test]
fn the_temp_file_stands_beside_the_file() {
    assert_eq!(temp_path("/state/watermarks.json"), "/state/watermarks.json.tmp");
    assert_eq!(temp_path("watermarks.json"), "watermarks.json.tmp");
    assert_eq!(temp_path("/"), "/.tmp");
    assert_eq!(temp_path("a.tmp"), "a.tmp.tmp");
    assert_eq!(temp_path("/d/watermarks.json"), "/d/watermarks.json.tmp");
    assert_eq!(temp_path("/w.json"), "/w.json.tmp");
    assert_eq!(temp_path("d/e/w.json"), "d/e/w.json.tmp");
    assert_eq!(temp_path("C:/w.json"), "C:/w.json.tmp");
    assert_eq!(temp_path("./w.json"), "./w.json.tmp");
    assert_eq!(temp_path("../w.json"), "../w.json.tmp");
    assert_eq!(temp_path("a/../w.json"), "a/../w.json.tmp");
    assert_eq!(temp_path("/var/state.d./w.json"), "/var/state.d./w.json.tmp");
    assert_ne!(temp_path("/d/a.json"), temp_path("/d/b.json"));
    assert_eq!(temp_name(&Some("x".to_string())), "x.tmp");
    assert_eq!(temp_name(&None), ".tmp");
}

#[test]
fn a_parent_is_checked_where_it_is_named() {
    assert_eq!(parent_to_check("/state/w.json"), Some("/state".to_string()));
    assert_eq!(parent_to_check("/w.json"), Some("/".to_string()));
    assert_eq!(parent_to_check("/a/b/w.json"), Some("/a/b".to_string()));
    assert_eq!(parent_to_check("a/b/w.json"), Some("a/b".to_string()));
    assert_eq!(parent_to_check("./w.json"), Some(".".to_string()));
    assert_eq!(parent_to_check("../w.json"), Some("..".to_string()));
    assert_eq!(parent_to_check("w.json"), None);
    assert_eq!(parent_to_check("."), None);
    assert_eq!(parent_to_check(".."), None);
    assert_eq!(parent_to_check("/"), None);
    assert_eq!(parent_to_check(""), None);
    assert_eq!(named_parent(Some(String::new())), None);
    assert_eq!(named_parent(Some("a".to_string())), Some("a".to_string()));
    assert_eq!(named_parent(None), None);
}

#[test]
fn path_problems_are_told_apart() {
    let relative = Some("is relative, so it resolves against the process working directory");
    let orphan = Some("has a parent directory that does not exist");
    assert_eq!(path_problem(false, true, true), relative);
    assert_eq!(path_problem(false, false, false), relative);
    assert_eq!(path_problem(true, true, false), orphan);
    assert_eq!(path_problem(true, true, true), None);
    assert_eq!(path_problem(true, false, false), None);
    assert_eq!(suspect_path("/", false), None);
}

#[test]
fn every_channel_of_a_store_stays_tidy() {
    let mut store = WatermarkStore::default();
    for i in 0..500_u64 {
        let channel = u128::from(i % 3);
        store.record(channel, i, &format!("event-{}", i * 7 % 250));
        if i % 90 == 89 {
            store.forget(channel);
        }
        for (_, mark) in store.channels() {
            assert!(!mark.recent_ids.is_empty());
            assert!(mark.recent_ids.len() <= RECENT_IDS_PER_CHANNEL);
            let mut ids = mark.recent_ids.clone();
            ids.sort();
            ids.dedup();
            assert_eq!(ids.len(), mark.recent_ids.len());
        }
    }
    assert_eq!(store.channels().len(), 3);
}
