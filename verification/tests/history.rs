use sync_dir::difference::{Difference, Differences};
use sync_dir::event::Event;
use sync_dir::history::{Dawn, History, HistoryMap};
use sync_dir::server::sync;

fn events(list: Vec<Event>) -> im::Vector<Event> {
    let mut v = im::Vector::new();
    for e in list {
        v.push_back(e);
    }
    v
}

fn map_of(entries: Vec<(&str, Vec<Event>)>) -> HistoryMap {
    let mut m = im::HashMap::new();
    for (k, evs) in entries {
        m.insert(k.to_string(), events(evs));
    }
    m
}

fn files(list: Vec<(&str, i32)>) -> Vec<(String, i32)> {
    list.into_iter().map(|(k, t)| (k.to_string(), t)).collect()
}

fn history(root: &str, entries: Vec<(&str, Vec<Event>)>) -> History {
    History { root: root.to_string(), histories: map_of(entries) }
}

fn diff(from: &str, to: &str, event: Event) -> Difference {
    Difference::new(from.to_string(), to.to_string(), event)
}

#[test]
fn test_history_path() {
    let p = History::history_path(&"foo".to_string());
    assert_eq!(p, "foo/.history.json".to_string());
}

#[test]
fn get_timestamp_of_each_kind() {
    assert_eq!(Event::Create(3).get_timestamp(), 3);
    assert_eq!(Event::Change(-4).get_timestamp(), -4);
    assert_eq!(Event::Delete(7).get_timestamp(), 7);
    assert!(Event::Delete(7).is_deletion());
    assert!(!Event::Change(7).is_deletion());
}

#[test]
fn replace_with_moves_path_to_other_root() {
    let p = History::replace_with(
        &"/a/x/f.txt".to_string(),
        &"/a/x".to_string(),
        &"/b/y".to_string(),
    );
    assert_eq!(p, "/b/y/f.txt");
    assert_eq!(
        History::try_replace_with(&"/a/x/d/f".to_string(), &"/a/x".to_string(), &"/b".to_string()),
        Some("/b/d/f".to_string())
    );
    assert_eq!(
        History::try_replace_with(&"/c/f".to_string(), &"/a/x".to_string(), &"/b".to_string()),
        None
    );
}

#[test]
fn first_scan_creates_every_file_but_the_history_file() {
    let found = files(vec![("/r/a", 10), ("/r/.history.json", 11), ("/r/d/b", 12)]);
    let h = History::new("/r".to_string(), &found, None, 100);
    assert_eq!(h.root, "/r");
    assert_eq!(
        h.histories,
        map_of(vec![("/r/a", vec![Event::Create(10)]), ("/r/d/b", vec![Event::Create(12)])])
    );
}

#[test]
fn history_of_file_adds_change_only_when_newer() {
    let previous = map_of(vec![("/r/a", vec![Event::Create(10)])]);
    let dawn = Dawn::HasHistory(previous);
    assert_eq!(
        History::history_of_file(&dawn, &"/r/a".to_string(), 20),
        events(vec![Event::Change(20), Event::Create(10)])
    );
    assert_eq!(
        History::history_of_file(&dawn, &"/r/a".to_string(), 10),
        events(vec![Event::Create(10)])
    );
    assert_eq!(
        History::history_of_file(&dawn, &"/r/new".to_string(), 5),
        events(vec![Event::Create(5)])
    );
    assert_eq!(
        History::history_of_file(&Dawn::PreHistory, &"/r/a".to_string(), 5),
        events(vec![Event::Create(5)])
    );
}

#[test]
fn rescan_marks_gone_files_deleted() {
    let previous = map_of(vec![
        ("/r/kept", vec![Event::Create(10)]),
        ("/r/gone", vec![Event::Change(20), Event::Create(10)]),
        ("/r/long_gone", vec![Event::Delete(30), Event::Create(10)]),
    ]);
    let found = files(vec![("/r/kept", 40), ("/r/fresh", 50)]);
    let h = History::new("/r".to_string(), &found, Some(previous), 99);
    assert_eq!(
        h.histories,
        map_of(vec![
            ("/r/kept", vec![Event::Change(40), Event::Create(10)]),
            ("/r/fresh", vec![Event::Create(50)]),
            ("/r/gone", vec![Event::Delete(99), Event::Change(20), Event::Create(10)]),
            ("/r/long_gone", vec![Event::Delete(30), Event::Create(10)]),
        ])
    );
}

#[test]
fn merge_previous_keeps_fresh_histories() {
    let fresh = map_of(vec![("/r/a", vec![Event::Create(1)])]);
    let previous = map_of(vec![("/r/a", vec![Event::Delete(5)]), ("/r/b", vec![Event::Create(2)])]);
    assert_eq!(
        History::merge_previous(fresh, &previous, 7),
        map_of(vec![
            ("/r/a", vec![Event::Create(1)]),
            ("/r/b", vec![Event::Delete(7), Event::Create(2)]),
        ])
    );
}

#[test]
fn generate_history_uses_recorded_histories() {
    let previous = map_of(vec![("/r/a", vec![Event::Create(10)])]);
    let found = files(vec![("/r/a", 10), ("/r/b", 3)]);
    assert_eq!(
        History::generate_history(&found, &Dawn::HasHistory(previous)),
        map_of(vec![("/r/a", vec![Event::Create(10)]), ("/r/b", vec![Event::Create(3)])])
    );
}

#[test]
fn differences_bring_over_missing_and_newer_files() {
    let a = history(
        "/a",
        vec![
            ("/a/missing", vec![Event::Create(5)]),
            ("/a/newer", vec![Event::Change(9), Event::Create(1)]),
            ("/a/older", vec![Event::Create(1)]),
            ("/a/same", vec![Event::Create(4)]),
        ],
    );
    let b = history(
        "/b",
        vec![
            ("/b/newer", vec![Event::Create(1)]),
            ("/b/older", vec![Event::Change(6), Event::Create(1)]),
            ("/b/same", vec![Event::Create(4)]),
        ],
    );
    let d = Differences::new(&a, &b);
    let mut expected = im::HashSet::new();
    expected.insert(diff("/a/missing", "/b/missing", Event::Create(5)));
    expected.insert(diff("/a/newer", "/b/newer", Event::Change(9)));
    assert_eq!(d.0, expected);
}

#[test]
fn try_new_refuses_files_outside_the_root() {
    let a = history("/a", vec![("/elsewhere/f", vec![Event::Create(5)])]);
    let b = history("/b", vec![]);
    assert!(Differences::try_new(&a, &b).is_none());
    assert!(sync(&a, &b).is_none());
}

#[test]
fn sync_merges_both_directions() {
    let a = history(
        "/a",
        vec![
            ("/a/only_a", vec![Event::Create(5)]),
            ("/a/both", vec![Event::Change(9), Event::Create(1)]),
            ("/a/deleted", vec![Event::Delete(3), Event::Create(1)]),
        ],
    );
    let b = history(
        "/b",
        vec![
            ("/b/only_b", vec![Event::Create(6)]),
            ("/b/both", vec![Event::Change(7), Event::Create(1)]),
            ("/b/deleted", vec![Event::Change(8), Event::Create(1)]),
        ],
    );
    let merged = sync(&a, &b).unwrap();
    let mut expected = im::HashSet::new();
    expected.insert(diff("/a/only_a", "/b/only_a", Event::Create(5)));
    expected.insert(diff("/b/only_b", "/a/only_b", Event::Create(6)));
    expected.insert(diff("/a/both", "/b/both", Event::Change(9)));
    expected.insert(diff("/b/deleted", "/a/deleted", Event::Change(8)));
    assert_eq!(merged.0, expected);
}

#[test]
fn try_new_refuses_histories_without_events() {
    let empty_from = history("/a", vec![("/a/f", vec![])]);
    let b = history("/b", vec![]);
    assert!(Differences::try_new(&empty_from, &b).is_none());
    let a = history("/a", vec![("/a/f", vec![Event::Create(1)])]);
    let empty_to = history("/b", vec![("/b/f", vec![])]);
    assert!(Differences::try_new(&a, &empty_to).is_none());
    let unrelated_empty = history("/b", vec![("/b/g", vec![])]);
    let d = Differences::try_new(&a, &unrelated_empty).unwrap();
    let mut expected = im::HashSet::new();
    expected.insert(diff("/a/f", "/b/f", Event::Create(1)));
    assert_eq!(d.0, expected);
}

#[test]
fn scan_records_paths_in_normal_form() {
    let found = files(vec![("/r//a/", 10), ("/r/./d/b", 12)]);
    let h = History::new("/r".to_string(), &found, None, 100);
    assert_eq!(
        h.histories,
        map_of(vec![("/r/a", vec![Event::Create(10)]), ("/r/d/b", vec![Event::Create(12)])])
    );
    let dawn = Dawn::HasHistory(map_of(vec![("/r/a", vec![Event::Create(10)])]));
    assert_eq!(
        History::history_of_file(&dawn, &"/r/a/".to_string(), 20),
        events(vec![Event::Change(20), Event::Create(10)])
    );
}

#[test]
fn tree_never_differs_from_itself() {
    let h = history(
        "/r",
        vec![
            ("/r/x", vec![Event::Create(1)]),
            ("/r/d/y", vec![Event::Delete(9), Event::Create(2)]),
        ],
    );
    assert_eq!(Differences::new(&h, &h).0, im::HashSet::new());
    assert_eq!(sync(&h, &h).unwrap().0, im::HashSet::new());
    let spelled = history("/r/", vec![("/r//x/", vec![Event::Create(1)])]);
    let plain = history("/r", vec![("/r/x", vec![Event::Create(1)])]);
    assert_eq!(Differences::try_new(&spelled, &plain).unwrap().0, im::HashSet::new());
}

#[test]
fn spelled_paths_are_compared_as_paths() {
    let h = history("/r", vec![("/r/x/", vec![Event::Create(1)])]);
    assert_eq!(Differences::new(&h, &h).0, im::HashSet::new());
    assert_eq!(sync(&h, &h).unwrap().0, im::HashSet::new());
    let a = history("/a", vec![("/a//f", vec![Event::Create(5)])]);
    let b = history("/b/", vec![("/b/f/", vec![Event::Create(3)])]);
    let mut expected = im::HashSet::new();
    expected.insert(diff("/a/f", "/b/f", Event::Create(5)));
    assert_eq!(sync(&a, &b).unwrap().0, expected);
}

#[test]
fn try_new_refuses_two_keys_for_one_path() {
    let a = history("/a", vec![("/a/f", vec![Event::Create(5)])]);
    let b = history("/b", vec![("/b/f", vec![Event::Create(3)]), ("/b//f", vec![Event::Create(4)])]);
    assert!(Differences::try_new(&a, &b).is_none());
    assert!(Differences::try_new(&b, &a).is_some());
    assert!(sync(&a, &b).is_none());
}

#[test]
fn one_pair_differs_in_one_direction_only() {
    let a = history("/a", vec![("/a/f", vec![Event::Create(5)])]);
    let b = history("/b", vec![("/b/f", vec![Event::Create(5)])]);
    assert_eq!(Differences::new(&a, &b).0, im::HashSet::new());
    assert_eq!(Differences::new(&b, &a).0, im::HashSet::new());
    let older = history("/b", vec![("/b/f", vec![Event::Create(3)])]);
    let mut expected = im::HashSet::new();
    expected.insert(diff("/a/f", "/b/f", Event::Create(5)));
    assert_eq!(Differences::new(&a, &older).0, expected);
    assert_eq!(Differences::new(&older, &a).0, im::HashSet::new());
}

#[test]
fn rescan_of_unchanged_tree_changes_nothing() {
    let previous = map_of(vec![
        ("/r/a", vec![Event::Create(10)]),
        ("/r/gone", vec![Event::Create(5)]),
    ]);
    let found = files(vec![("/r/a", 30), ("/r/b", 20)]);
    let first = History::new("/r".to_string(), &found, Some(previous), 50);
    let second = History::new("/r".to_string(), &found, Some(first.histories.clone()), 80);
    assert_eq!(second.histories, first.histories);
    let fresh = History::new("/r".to_string(), &found, None, 50);
    let again = History::new("/r".to_string(), &found, Some(fresh.histories.clone()), 90);
    assert_eq!(again.histories, fresh.histories);
    let spelled_twice = files(vec![("/r/a", 9), ("/r/a/", 5)]);
    let once = History::new("/r".to_string(), &spelled_twice, None, 50);
    assert_eq!(once.histories, map_of(vec![("/r/a", vec![Event::Create(5)])]));
    let twice = History::new("/r".to_string(), &spelled_twice, Some(once.histories.clone()), 60);
    assert_eq!(twice.histories, once.histories);
}

#[test]
fn scan_keeps_latest_event_first() {
    let previous = map_of(vec![
        ("/r/a", vec![Event::Change(20), Event::Create(10)]),
        ("/r/gone", vec![Event::Change(30), Event::Create(5)]),
    ]);
    let found = files(vec![("/r/a", 25)]);
    let h = History::new("/r".to_string(), &found, Some(previous), 40);
    for (_, list) in h.histories.iter() {
        assert!(!list.is_empty());
        let stamps: Vec<i32> = list.iter().map(|e| e.get_timestamp()).collect();
        assert!(stamps.windows(2).all(|w| w[0] >= w[1]));
    }
    assert_eq!(
        h.histories,
        map_of(vec![
            ("/r/a", vec![Event::Change(25), Event::Change(20), Event::Create(10)]),
            ("/r/gone", vec![Event::Delete(40), Event::Change(30), Event::Create(5)]),
        ])
    );
}

#[test]
fn recorded_histories_are_found_by_path() {
    let previous = map_of(vec![
        ("/r/a/", vec![Event::Create(10)]),
        ("/r//gone", vec![Event::Create(5)]),
    ]);
    let found = files(vec![("/r/a", 30)]);
    let h = History::new("/r".to_string(), &found, Some(previous), 60);
    assert_eq!(
        h.histories,
        map_of(vec![
            ("/r/a", vec![Event::Change(30), Event::Create(10)]),
            ("/r/gone", vec![Event::Delete(60), Event::Create(5)]),
        ])
    );
}

#[test]
fn history_files_are_told_by_their_last_component() {
    let found = files(vec![
        ("/r/x.history.json", 1),
        ("/r/d/.history.json", 2),
        ("/r/.history.json/", 3),
        ("/r/keep", 4),
    ]);
    let h = History::new("/r".to_string(), &found, None, 10);
    assert_eq!(
        h.histories,
        map_of(vec![("/r/x.history.json", vec![Event::Create(1)]), ("/r/keep", vec![Event::Create(4)])])
    );
}

#[test]
fn recorded_keys_are_looked_up_as_paths() {
    let dawn = Dawn::HasHistory(map_of(vec![("/r/a/", vec![Event::Create(10)])]));
    assert_eq!(
        History::history_of_file(&dawn, &"/r/a".to_string(), 20),
        events(vec![Event::Change(20), Event::Create(10)])
    );
    let found = files(vec![("/r/a", 10), ("/r/b", 3)]);
    assert_eq!(
        History::generate_history(&found, &dawn),
        map_of(vec![("/r/a", vec![Event::Create(10)]), ("/r/b", vec![Event::Create(3)])])
    );
}

#[test]
fn replace_with_moves_there_and_back() {
    let there = History::replace_with(&"/a/x/d/f".to_string(), &"/a/x".to_string(), &"/b/".to_string());
    assert_eq!(there, "/b/d/f");
    let back = History::replace_with(&there, &"/b/".to_string(), &"/a/x".to_string());
    assert_eq!(back, "/a/x/d/f");
}
