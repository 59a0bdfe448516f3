use sync_dir::config::WatchTargets;
use sync_dir::logger::AppLogger;
use sync_dir::server::{event_type, EventType, ListenAction, ListenState};
use sync_dir::timestamp::i32_of_systemtime_text;

fn pair(a: &str, b: &str) -> (String, String) {
    (a.to_string(), b.to_string())
}

#[test]
fn event_type_follows_device_count() {
    assert_eq!(event_type(1, 2), EventType::Add);
    assert_eq!(event_type(2, 1), EventType::Remove);
    assert_eq!(event_type(2, 2), EventType::Stay);
}

#[test]
fn listen_syncs_only_when_a_device_arrives() {
    let mut state = ListenState::new(WatchTargets::empty(), 3);
    assert_eq!(state.step(None, 3), ListenAction::Wait);
    assert_eq!(state.step(None, 2), ListenAction::Wait);
    assert_eq!(state.current_devices, 2);
    let mut targets = WatchTargets::empty();
    targets.add(pair("/a", "/b"));
    assert_eq!(state.step(Some(targets), 4), ListenAction::SyncAvailable);
    assert_eq!(state.current_devices, 4);
    assert_eq!(state.watch_targets.pairs(), vec![pair("/a", "/b")]);
}

#[test]
fn available_directories_need_both_sides_readable() {
    let mut targets = WatchTargets::empty();
    targets.add(pair("/a", "/b"));
    targets.add(pair("/c", "/d"));
    targets.add(pair("/a", "/e"));
    let readable = vec!["/a".to_string(), "/b".to_string(), "/d".to_string()];
    let mut expected = im::HashSet::new();
    expected.insert(pair("/a", "/b"));
    assert_eq!(targets.get_available_directories(&readable), expected);
    assert_eq!(targets.get_available_directories(&vec![]), im::HashSet::new());
}

#[test]
fn adding_a_pair_twice_keeps_one() {
    let mut targets = WatchTargets::empty();
    targets.add(pair("/a", "/b"));
    targets.add(pair("/a", "/b"));
    assert_eq!(targets.pairs().len(), 1);
    assert_eq!(targets.0.len(), 1);
}

#[test]
fn seconds_are_read_from_system_time_text() {
    assert_eq!(
        i32_of_systemtime_text("SystemTime { tv_sec: 1500000000, tv_nsec: 123 }"),
        Some(1500000000)
    );
    assert_eq!(i32_of_systemtime_text("SystemTime { tv_sec: 0, tv_nsec: 0 }"), Some(0));
    assert_eq!(i32_of_systemtime_text("no time here"), None);
    assert_eq!(
        i32_of_systemtime_text("SystemTime { tv_sec: 99999999999, tv_nsec: 1 }"),
        None
    );
}

#[test]
fn log_file_lies_in_log_directory() {
    assert_eq!(AppLogger::log_directory(), "/var/log");
    assert_eq!(AppLogger::get_log_file(), "/var/log/sync-dir.log");
}

#[test]
fn spellings_of_one_pair_are_one_pair() {
    let mut targets = WatchTargets::empty();
    targets.add(pair("/a/", "/b"));
    targets.add(pair("/a", "/b//"));
    assert_eq!(targets.pairs(), vec![pair("/a", "/b")]);
    let readable = vec!["/a/".to_string(), "//b".to_string()];
    let mut expected = im::HashSet::new();
    expected.insert(pair("/a", "/b"));
    assert_eq!(targets.get_available_directories(&readable), expected);
}

#[test]
fn seconds_at_the_edge_of_i32() {
    assert_eq!(
        i32_of_systemtime_text("SystemTime { tv_sec: 2147483647, tv_nsec: 0 }"),
        Some(2147483647)
    );
    assert_eq!(i32_of_systemtime_text("SystemTime { tv_sec: 2147483648, tv_nsec: 0 }"), None);
    assert_eq!(i32_of_systemtime_text("SystemTime { tv_sec: 007, tv_nsec: 0 }"), Some(7));
}
