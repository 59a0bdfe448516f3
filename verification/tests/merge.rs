use sync_dir::difference::{merge_diffs, Difference, Differences, SyncAction};
use sync_dir::event::Event;

fn diff(from: &str, to: &str, event: Event) -> Difference {
    Difference::new(from.to_string(), to.to_string(), event)
}

fn set_of(items: Vec<Difference>) -> im::HashSet<Difference> {
    let mut s = im::HashSet::new();
    for d in items {
        s.insert(d);
    }
    s
}

#[test]
fn test_merge_diffs_ordinarly() {
    let a = set_of(vec![diff("a/1", "b/1", Event::Create(0))]);
    let b = set_of(vec![diff("b/2", "a/2", Event::Create(0))]);

    assert_eq!(
        merge_diffs(a, b),
        set_of(vec![
            diff("a/1", "b/1", Event::Create(0)),
            diff("b/2", "a/2", Event::Create(0)),
        ])
    );
}

#[test]
fn test_merge_diffs_drop_old_history() {
    let a = set_of(vec![diff("a/1", "b/1", Event::Create(0))]);
    let b = set_of(vec![diff("b/1", "a/1", Event::Create(1))]);

    assert_eq!(merge_diffs(a, b), set_of(vec![diff("b/1", "a/1", Event::Create(1))]));
}

#[test]
fn test_merge_diffs_preffer_to_delete() {
    let a = set_of(vec![diff("a/1", "b/1", Event::Delete(0))]);
    let b = set_of(vec![diff("b/1", "a/1", Event::Create(1))]);

    assert_eq!(merge_diffs(a, b), set_of(vec![diff("a/1", "b/1", Event::Delete(0))]));
}

#[test]
fn merge_keeps_first_side_on_equal_times() {
    let a = set_of(vec![diff("a/1", "b/1", Event::Change(5))]);
    let b = set_of(vec![diff("b/1", "a/1", Event::Change(5))]);
    assert_eq!(merge_diffs(a, b), set_of(vec![diff("a/1", "b/1", Event::Change(5))]));
}

#[test]
fn merge_keeps_later_change_from_first_side() {
    let a = set_of(vec![diff("a/1", "b/1", Event::Change(9))]);
    let b = set_of(vec![diff("b/1", "a/1", Event::Create(3))]);
    assert_eq!(merge_diffs(a, b), set_of(vec![diff("a/1", "b/1", Event::Change(9))]));
}

#[test]
fn merge_deletion_from_second_side_wins() {
    let a = set_of(vec![diff("a/1", "b/1", Event::Change(9))]);
    let b = set_of(vec![diff("b/1", "a/1", Event::Delete(3))]);
    assert_eq!(merge_diffs(a, b), set_of(vec![diff("b/1", "a/1", Event::Delete(3))]));
}

#[test]
fn merge_with_nothing_keeps_all() {
    let a = set_of(vec![
        diff("a/1", "b/1", Event::Change(9)),
        diff("a/2", "b/2", Event::Delete(1)),
    ]);
    assert_eq!(merge_diffs(a.clone(), im::HashSet::new()), a);
    assert_eq!(merge_diffs(im::HashSet::new(), a.clone()), a);
}

#[test]
fn merge_each_pair_once() {
    let a = set_of(vec![
        diff("a/1", "b/1", Event::Change(2)),
        diff("a/2", "b/2", Event::Create(7)),
        diff("a/3", "b/3", Event::Change(4)),
    ]);
    let b = set_of(vec![
        diff("b/1", "a/1", Event::Change(3)),
        diff("b/3", "a/3", Event::Delete(1)),
        diff("b/4", "a/4", Event::Create(8)),
    ]);
    let merged = merge_diffs(a, b);
    assert_eq!(
        merged,
        set_of(vec![
            diff("b/1", "a/1", Event::Change(3)),
            diff("a/2", "b/2", Event::Create(7)),
            diff("b/3", "a/3", Event::Delete(1)),
            diff("b/4", "a/4", Event::Create(8)),
        ])
    );
}

#[test]
fn merge_with_goes_through_merge_diffs() {
    let a = Differences(set_of(vec![diff("a/1", "b/1", Event::Create(0))]));
    let b = Differences(set_of(vec![diff("b/1", "a/1", Event::Create(1))]));
    let merged = a.merge_with(b);
    assert_eq!(merged.0, set_of(vec![diff("b/1", "a/1", Event::Create(1))]));
    assert_eq!(merged.items(), vec![diff("b/1", "a/1", Event::Create(1))]);
}

#[test]
fn same_pair_ignores_direction_and_event() {
    let x = diff("a/1", "b/1", Event::Create(0));
    assert!(x.same_pair(&diff("b/1", "a/1", Event::Delete(3))));
    assert!(x.same_pair(&diff("a/1", "b/1", Event::Change(2))));
    assert!(!x.same_pair(&diff("a/1", "b/2", Event::Create(0))));
    assert_eq!(x.duplicate(), x);
}

#[test]
fn sync_action_removes_or_copies() {
    match diff("a/1", "b/1", Event::Delete(4)).sync_action() {
        SyncAction::Remove { target } => assert_eq!(target, "b/1"),
        SyncAction::Copy { .. } => panic!("a deletion removes"),
    }
    match diff("a/1", "b/1", Event::Change(4)).sync_action() {
        SyncAction::Copy { source, target } => {
            assert_eq!(source, "a/1");
            assert_eq!(target, "b/1");
        }
        SyncAction::Remove { .. } => panic!("a change copies"),
    }
}

#[test]
fn merge_pairs_paths_by_their_components() {
    let a = set_of(vec![diff("a//1", "b/1", Event::Create(0))]);
    let b = set_of(vec![diff("b/1", "a/1/", Event::Create(1))]);
    assert_eq!(merge_diffs(a, b), set_of(vec![diff("b/1", "a/1/", Event::Create(1))]));
    assert!(diff("a//1", "b/1", Event::Create(0)).same_pair(&diff("b/1/", "a/1", Event::Delete(9))));
    assert!(!diff("a/1", "b/1", Event::Create(0)).same_pair(&diff("a/1", "b/2", Event::Create(0))));
}

#[test]
fn merge_without_ties_does_not_depend_on_order() {
    let a = set_of(vec![
        diff("a/1", "b/1", Event::Change(4)),
        diff("a/2", "b/2", Event::Delete(3)),
        diff("a/3", "b/3", Event::Create(1)),
    ]);
    let b = set_of(vec![
        diff("b/1", "a/1", Event::Change(6)),
        diff("b/2", "a/2", Event::Change(8)),
        diff("b/4", "a/4", Event::Create(2)),
    ]);
    let ab = merge_diffs(a.clone(), b.clone());
    assert_eq!(ab, merge_diffs(b, a));
    assert_eq!(
        ab,
        set_of(vec![
            diff("b/1", "a/1", Event::Change(6)),
            diff("a/2", "b/2", Event::Delete(3)),
            diff("a/3", "b/3", Event::Create(1)),
            diff("b/4", "a/4", Event::Create(2)),
        ])
    );
}
