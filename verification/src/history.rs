use vstd::prelude::*;

use crate::event::{
    Event, event_list, event_list_clone, event_list_front, event_list_new, event_list_push_front,
};
use crate::paths::{
    ends_with, is_absolute, is_normal, join_path, law_normal_form_is_normal,
    lemma_components_of_join, named_pieces, normal_form, normalize, path_components,
    path_ends_with, path_starts_with, path_strip_prefix, same_path, segments, spec_join,
    strip_prefix, under_root,
};

verus! {

/// Paths mapped to their events, latest first.
pub type HistoryMap = im::HashMap<String, im::Vector<Event>>;

/// The name of the file in which a directory keeps its history.
pub const HISTORY_FILE_NAME: &'static str = ".history.json";

/// What an `im::HashMap` from paths to event lists holds: each path's events,
/// latest first. `String`'s `Eq` and `Hash` go by the characters, so two keys
/// are the same exactly when their views are.
pub uninterp spec fn history_entries(m: HistoryMap) -> Map<
    Seq<char>,
    Seq<Event>,
>;

/// The map with no entries.
pub open spec fn no_histories() -> Map<Seq<char>, Seq<Event>> {
    Map::empty()
}

/// `im::HashMap::new`: the empty map.
#[verifier::external_body]
pub(crate) fn histories_new() -> (r: HistoryMap)
    ensures
        history_entries(r) == no_histories(),
{
    im::HashMap::new()
}

/// `im::HashMap::insert`: `key` now maps to `events`, whatever it held.
#[verifier::external_body]
pub(crate) fn histories_insert(
    m: &mut HistoryMap,
    key: String,
    events: im::Vector<Event>,
)
    ensures
        history_entries(*final(m)) == history_entries(*old(m)).insert(key@, event_list(events)),
{
    m.insert(key, events);
}

/// `im::HashMap::get`, the value cloned.
#[verifier::external_body]
pub(crate) fn histories_get(m: &HistoryMap, key: &String) -> (r: Option<
    im::Vector<Event>,
>)
    ensures
        r is Some <==> history_entries(*m).contains_key(key@),
        r matches Some(v) ==> event_list(v) == history_entries(*m)[key@],
{
    m.get(key).cloned()
}

/// `im::HashMap::iter`, each entry cloned: every entry once, in an order that
/// the map's hashing decides and that is not stated.
#[verifier::external_body]
pub(crate) fn histories_listing(m: &HistoryMap) -> (r: Vec<
    (String, im::Vector<Event>),
>)
    ensures
        forall|i: int|
            0 <= i < r.len() ==> history_entries(*m).contains_key(#[trigger] r@[i].0@)
                && event_list(r@[i].1) == history_entries(*m)[r@[i].0@],
        forall|k: Seq<char>|
            history_entries(*m).contains_key(k) ==> exists|i: int|
                0 <= i < r.len() && #[trigger] r@[i].0@ == k,
        forall|i: int, j: int| 0 <= i < j < r.len() ==> #[trigger] r@[i].0@ != #[trigger] r@[j].0@,
{
    m.iter().map(|(k, v)| (k.clone(), v.clone())).collect()
}

/// Every recorded file has at least one event.
pub open spec fn histories_wf(m: Map<Seq<char>, Seq<Event>>) -> bool {
    forall|k: Seq<char>| #[trigger] m.contains_key(k) ==> m[k].len() > 0
}

/// Every key is a path in normal form, so that two keys are the same string
/// exactly when they name the same path.
pub open spec fn keys_normal(m: Map<Seq<char>, Seq<Event>>) -> bool {
    forall|k: Seq<char>| #[trigger] m.contains_key(k) ==> is_normal(k)
}

/// No two of the paths found name the same path.
pub open spec fn distinct_paths(files: Seq<(Seq<char>, i32)>) -> bool {
    forall|j: int, l: int|
        0 <= j < l < files.len() ==> normal_form(#[trigger] files[j].0) != normal_form(
            #[trigger] files[l].0,
        )
}

/// No two keys name the same path.
pub open spec fn paths_distinct(m: Map<Seq<char>, Seq<Event>>) -> bool {
    forall|a: Seq<char>, b: Seq<char>|
        #[trigger] m.contains_key(a) && #[trigger] m.contains_key(b) && a != b ==> normal_form(a)
            != normal_form(b)
}

/// The histories looked up by path: under the normal form of each key, the
/// history of the key that has it.
pub open spec fn by_path(m: Map<Seq<char>, Seq<Event>>) -> Map<Seq<char>, Seq<Event>> {
    Map::new(
        |q: Seq<char>| exists|k: Seq<char>| #[trigger] m.contains_key(k) && normal_form(k) == q,
        |q: Seq<char>| m[choose|k: Seq<char>| #[trigger] m.contains_key(k) && normal_form(k) == q],
    )
}

/// Looked up by path, a key's history is its own where no two keys name the
/// same path.
pub proof fn lemma_by_path(m: Map<Seq<char>, Seq<Event>>, k: Seq<char>)
    requires
        paths_distinct(m),
        m.contains_key(k),
    ensures
        by_path(m).contains_key(normal_form(k)),
        by_path(m)[normal_form(k)] == m[k],
{
    let w = choose|w: Seq<char>| #[trigger] m.contains_key(w) && normal_form(w) == normal_form(k);
    assert(m.contains_key(k) && normal_form(k) == normal_form(k));
    assert(w == k);
}

/// Where a scan of a directory starts from: no history yet, or the histories
/// recorded by the previous scan.
pub enum Dawn {
    PreHistory,
    HasHistory(HistoryMap),
}

impl Dawn {
    /// The recorded histories, if any.
    pub open spec fn previous(&self) -> Option<Map<Seq<char>, Seq<Event>>> {
        match self {
            Dawn::PreHistory => None,
            Dawn::HasHistory(m) => Some(history_entries(*m)),
        }
    }

    /// The recorded histories, if any, looked up by path.
    pub open spec fn recorded(&self) -> Option<Map<Seq<char>, Seq<Event>>> {
        match self {
            Dawn::PreHistory => None,
            Dawn::HasHistory(m) => Some(by_path(history_entries(*m))),
        }
    }

    /// No two recorded keys name the same path.
    pub open spec fn names_each_path_once(&self) -> bool {
        self.previous() matches Some(m) ==> paths_distinct(m)
    }
}

/// The recorded histories of `dawn`, keyed by path; nothing where there are
/// none.
fn index_of(dawn: &Dawn) -> (r: Dawn)
    requires
        dawn.names_each_path_once(),
    ensures
        r.previous() == dawn.recorded(),
{
    match dawn {
        Dawn::PreHistory => Dawn::PreHistory,
        Dawn::HasHistory(h) => match index_by_path(h) {
            Some(ix) => Dawn::HasHistory(ix),
            None => Dawn::PreHistory,
        },
    }
}

/// The history of a file found by a scan, `modified` being its modification
/// time: a creation where nothing was recorded for it, else the recorded
/// history, with a change on top where the file was modified after its latest
/// recorded event.
pub open spec fn spec_history_of_file(
    previous: Option<Map<Seq<char>, Seq<Event>>>,
    key: Seq<char>,
    modified: i32,
) -> Seq<Event> {
    match previous {
        Some(m) => if m.contains_key(key) {
            if modified > m[key][0].timestamp() {
                seq![Event::Change(modified)] + m[key]
            } else {
                m[key]
            }
        } else {
            seq![Event::Create(modified)]
        },
        None => seq![Event::Create(modified)],
    }
}

/// The histories that a scan yields from the files it found, in the order it
/// found them: each file but the history files, under the normal form of its
/// path, with its history.
pub open spec fn spec_generate(
    files: Seq<(Seq<char>, i32)>,
    previous: Option<Map<Seq<char>, Seq<Event>>>,
) -> Map<Seq<char>, Seq<Event>>
    decreases files.len(),
{
    if files.len() == 0 {
        Map::empty()
    } else {
        let rest = spec_generate(files.drop_last(), previous);
        let (key, modified) = files.last();
        if path_ends_with(key, HISTORY_FILE_NAME@) {
            rest
        } else {
            rest.insert(normal_form(key), spec_history_of_file(previous, normal_form(key), modified))
        }
    }
}

/// Every file of a scan that has a recorded history has at least one event
/// in it.
pub open spec fn recorded_nonempty(
    files: Seq<(Seq<char>, i32)>,
    previous: Option<Map<Seq<char>, Seq<Event>>>,
) -> bool {
    previous matches Some(m) ==> forall|i: int|
        0 <= i < files.len() && m.contains_key(normal_form(#[trigger] files[i].0)) ==> m[normal_form(
            files[i].0,
        )].len() > 0
}

/// A recorded history, marked as deleted unless its latest event already is a
/// deletion.
pub open spec fn mark_deleted(h: Seq<Event>, now: i32) -> Seq<Event> {
    if h[0].is_delete() {
        h
    } else {
        seq![Event::Delete(now)] + h
    }
}

/// The fresh histories, and the recorded histories of the files that are gone,
/// marked as deleted at `now`.
pub open spec fn spec_merge_previous(
    fresh: Map<Seq<char>, Seq<Event>>,
    previous: Map<Seq<char>, Seq<Event>>,
    now: i32,
) -> Map<Seq<char>, Seq<Event>> {
    Map::new(
        |k: Seq<char>| fresh.contains_key(k) || previous.contains_key(k),
        |k: Seq<char>|
            if fresh.contains_key(k) {
                fresh[k]
            } else {
                mark_deleted(previous[k], now)
            },
    )
}

/// The file files as the scan hands them over: paths by their views.
pub open spec fn files_view(files: Seq<(String, i32)>) -> Seq<(Seq<char>, i32)> {
    files.map_values(|f: (String, i32)| (f.0@, f.1))
}

/// The history of one directory tree: for each file under `root`, its events,
/// latest first.
pub struct History {
    pub root: String,
    pub histories: HistoryMap,
}

impl History {
    /// The recorded histories as a map of plain values.
    pub open spec fn entries(&self) -> Map<Seq<char>, Seq<Event>> {
        history_entries(self.histories)
    }

    /// Every recorded file has at least one event, and every path is in
    /// normal form.
    pub open spec fn wf(&self) -> bool {
        histories_wf(self.entries()) && keys_normal(self.entries())
    }

    /// Where the history of the directory `root` is stored.
    pub fn history_path(root: &String) -> (p: String)
        ensures
            p@ == spec_join(root@, HISTORY_FILE_NAME@),
            root@.len() > 0 && root@.last() != '/' ==> p@ == root@ + seq!['/'] + HISTORY_FILE_NAME@,
    {
        proof {
            reveal_strlit(".history.json");
        }
        join_path(root.as_str(), HISTORY_FILE_NAME)
    }
}


/// Where `from`, a path under `from_root`, lies under `to_root`: the rest of
/// `from` after `from_root`, joined onto `to_root`. `None` where `from` is not
/// under `from_root`.
pub open spec fn spec_replace_with(from: Seq<char>, from_root: Seq<char>, to_root: Seq<char>) -> Option<
    Seq<char>,
> {
    match path_strip_prefix(from, from_root) {
        Some(rel) => Some(spec_join(to_root, rel)),
        None => None,
    }
}

/// Each history of a scan has at least one event.
proof fn lemma_generate_wf(files: Seq<(Seq<char>, i32)>, previous: Option<Map<Seq<char>, Seq<Event>>>)
    requires
        recorded_nonempty(files, previous),
    ensures
        histories_wf(spec_generate(files, previous)),
    decreases files.len(),
{
    if files.len() > 0 {
        let rest = files.drop_last();
        if let Some(m) = previous {
            assert forall|i: int|
                0 <= i < rest.len() && m.contains_key(normal_form(#[trigger] rest[i].0)) implies m[normal_form(
                rest[i].0,
            )].len() > 0 by {
                assert(rest[i] == files[i]);
                assert(files[i].0 == rest[i].0);
            }
            assert(files[files.len() - 1].0 == files.last().0);
        }
        lemma_generate_wf(rest, previous);
        assert(files[files.len() - 1] == files.last());
    }
}

impl History {
    /// Maps `from`, a path under `from_root`, to the same place under
    /// `to_root`.
    pub fn replace_with(from: &String, from_root: &String, to_root: &String) -> (r: String)
        requires
            path_strip_prefix(from@, from_root@) is Some,
        ensures
            spec_replace_with(from@, from_root@, to_root@) == Some(r@),
    {
        match strip_prefix(from.as_str(), from_root.as_str()) {
            Some(rel) => join_path(to_root.as_str(), rel.as_str()),
            None => to_root.clone(),
        }
    }

    /// `replace_with` where `from` lies under `from_root`, else `None`.
    pub fn try_replace_with(from: &String, from_root: &String, to_root: &String) -> (r: Option<
        String,
    >)
        ensures
            r is Some <==> spec_replace_with(from@, from_root@, to_root@) is Some,
            r is Some <==> under_root(from@, from_root@),
            r matches Some(p) ==> spec_replace_with(from@, from_root@, to_root@) == Some(p@),
    {
        if strip_prefix(from.as_str(), from_root.as_str()).is_some() {
            Some(History::replace_with(from, from_root, to_root))
        } else {
            None
        }
    }

    /// The history of one file that a scan found, `modified` being its
    /// modification time in seconds. The recorded history is looked up by
    /// path.
    pub fn history_of_file(has_history: &Dawn, key: &String, modified: i32) -> (r: im::Vector<Event>)
        requires
            has_history.names_each_path_once(),
            has_history.recorded() matches Some(m) ==> (m.contains_key(normal_form(key@)) ==> m[normal_form(
                key@,
            )].len() > 0),
        ensures
            event_list(r) == spec_history_of_file(has_history.recorded(), normal_form(key@), modified),
    {
        History::history_in(&index_of(has_history), key, modified)
    }

    /// The history of one file that a scan found, the recorded history looked
    /// up under the normal form of `key`.
    fn history_in(has_history: &Dawn, key: &String, modified: i32) -> (r: im::Vector<Event>)
        requires
            has_history.previous() matches Some(m) ==> (m.contains_key(normal_form(key@)) ==> m[normal_form(
                key@,
            )].len() > 0),
        ensures
            event_list(r) == spec_history_of_file(has_history.previous(), normal_form(key@), modified),
    {
        let key = &normalize(key.as_str());
        match has_history {
            Dawn::PreHistory => {
                let mut v = event_list_new();
                event_list_push_front(&mut v, Event::Create(modified));
                v
            },
            Dawn::HasHistory(h) => match histories_get(h, key) {
                Some(recorded) => {
                    proof {
                        assert(history_entries(*h).contains_key(key@));
                    }
                    match event_list_front(&recorded) {
                        Some(latest) => {
                            let event = Event::Change(modified);
                            if event.get_timestamp() > latest.get_timestamp() {
                                let mut v = recorded;
                                event_list_push_front(&mut v, event);
                                v
                            } else {
                                event_list_clone(&recorded)
                            }
                        },
                        None => recorded,
                    }
                },
                None => {
                    let mut v = event_list_new();
                    event_list_push_front(&mut v, Event::Create(modified));
                    v
                },
            },
        }
    }

    /// The histories of the files a scan found, each given by its canonical
    /// path and modification time in seconds, in the order found, and
    /// recorded under the normal form of its path. History files are left
    /// out.
    pub fn generate_history(files: &Vec<(String, i32)>, has_history: &Dawn) -> (r: HistoryMap)
        requires
            has_history.names_each_path_once(),
            recorded_nonempty(files_view(files@), has_history.recorded()),
        ensures
            history_entries(r) == spec_generate(files_view(files@), has_history.recorded()),
            histories_wf(history_entries(r)),
            keys_normal(history_entries(r)),
    {
        let has_history = &index_of(has_history);
        let ghost fv = files_view(files@);
        let mut acc = histories_new();
        let n = files.len();
        assert(fv.take(0) =~= Seq::<(Seq<char>, i32)>::empty());
        for i in 0..n
            invariant
                n == files.len(),
                fv == files_view(files@),
                recorded_nonempty(fv, has_history.previous()),
                history_entries(acc) == spec_generate(fv.take(i as int), has_history.previous()),
                keys_normal(history_entries(acc)),
        {
            let key = &files[i].0;
            let modified = files[i].1;
            proof {
                assert(fv.take(i + 1).drop_last() =~= fv.take(i as int));
                assert(fv.take(i + 1).last() == (key@, modified));
                assert(fv[i as int] == (key@, modified));
                assert(fv[i as int].0 == key@);
            }
            if !ends_with(key.as_str(), HISTORY_FILE_NAME) {
                let h = History::history_in(has_history, key, modified);
                let path = normalize(key.as_str());
                proof {
                    law_normal_form_is_normal(key@);
                }
                histories_insert(&mut acc, path, h);
            }
        }
        assert(fv.take(n as int) =~= fv);
        proof {
            lemma_generate_wf(fv, has_history.previous());
        }
        acc
    }
}

/// The fresh histories, and the recorded histories among `seen` of the files
/// that are gone, marked as deleted at `now`.
pub open spec fn spec_merge_seen(
    fresh: Map<Seq<char>, Seq<Event>>,
    previous: Map<Seq<char>, Seq<Event>>,
    seen: Set<Seq<char>>,
    now: i32,
) -> Map<Seq<char>, Seq<Event>> {
    Map::new(
        |k: Seq<char>| fresh.contains_key(k) || (previous.contains_key(k) && seen.contains(k)),
        |k: Seq<char>|
            if fresh.contains_key(k) {
                fresh[k]
            } else {
                mark_deleted(previous[k], now)
            },
    )
}

impl History {
    /// Adds to the fresh histories of a scan the recorded histories of the
    /// files that are gone since the previous scan, each marked as deleted at
    /// `now` unless its latest event already is a deletion.
    pub fn merge_previous(fresh: HistoryMap, previous: &HistoryMap, now: i32) -> (r: HistoryMap)
        requires
            forall|k: Seq<char>|
                #[trigger] history_entries(*previous).contains_key(k) && !history_entries(
                    fresh,
                ).contains_key(k) ==> history_entries(*previous)[k].len() > 0,
        ensures
            history_entries(r) == spec_merge_previous(
                history_entries(fresh),
                history_entries(*previous),
                now,
            ),
    {
        let ghost f = history_entries(fresh);
        let ghost p = history_entries(*previous);
        let items = histories_listing(previous);
        let mut ns = fresh;
        let ghost mut seen: Set<Seq<char>> = Set::empty();
        let n = items.len();
        assert(history_entries(ns) =~= spec_merge_seen(f, p, seen, now));
        for i in 0..n
            invariant
                n == items.len(),
                p == history_entries(*previous),
                forall|k: Seq<char>| #[trigger] p.contains_key(k) && !f.contains_key(k) ==> p[k].len() > 0,
                forall|j: int|
                    0 <= j < items.len() ==> p.contains_key(#[trigger] items@[j].0@) && event_list(
                        items@[j].1,
                    ) == p[items@[j].0@],
                forall|j: int, l: int| 0 <= j < l < items.len() ==> #[trigger] items@[j].0@ != #[trigger] items@[l].0@,
                seen == Set::new(|k: Seq<char>| exists|j: int| 0 <= j < i && items@[j].0@ == k),
                history_entries(ns) == spec_merge_seen(f, p, seen, now),
        {
            let key = &items[i].0;
            let value = &items[i].1;
            let ghost old_ns = history_entries(ns);
            let ghost new_seen = seen.insert(key@);
            proof {
                assert(!seen.contains(key@)) by {
                    if seen.contains(key@) {
                        let j = choose|j: int| 0 <= j < i && items@[j].0@ == key@;
                        assert(items@[j].0@ != items@[i as int].0@);
                    }
                }
            }
            match histories_get(&ns, key) {
                Some(_) => {
                    proof {
                        assert(f.contains_key(key@));
                        assert(history_entries(ns) =~= spec_merge_seen(f, p, new_seen, now));
                    }
                },
                None => {
                    proof {
                        assert(p[key@].len() > 0);
                    }
                    match event_list_front(value) {
                        Some(head) => {
                            if head.is_deletion() {
                                histories_insert(&mut ns, key.clone(), event_list_clone(value));
                            } else {
                                let mut marked = event_list_clone(value);
                                event_list_push_front(&mut marked, Event::Delete(now));
                                histories_insert(&mut ns, key.clone(), marked);
                            }
                        },
                        None => {},
                    }
                    proof {
                        assert(history_entries(ns) =~= spec_merge_seen(f, p, new_seen, now));
                    }
                },
            }
            proof {
                seen = new_seen;
                assert(seen =~= Set::new(|k: Seq<char>| exists|j: int| 0 <= j < i + 1 && items@[j].0@ == k));
            }
        }
        proof {
            assert forall|k: Seq<char>| p.contains_key(k) implies #[trigger] seen.contains(k) by {
                let j = choose|j: int| 0 <= j < items.len() && #[trigger] items@[j].0@ == k;
            }
            assert(history_entries(ns) =~= spec_merge_previous(f, p, now));
        }
        ns
    }
}

/// The histories of `m` keyed by the normal forms of their paths, where no two
/// keys of `m` name the same path; else `None`.
pub(crate) fn index_by_path(m: &HistoryMap) -> (r: Option<HistoryMap>)
    ensures
        r is Some <==> paths_distinct(history_entries(*m)),
        r matches Some(ix) ==> history_entries(ix) == by_path(history_entries(*m)),
{
    let ghost e = history_entries(*m);
    let items = histories_listing(m);
    let mut index = histories_new();
    let n = items.len();
    for i in 0..n
        invariant
            n == items.len(),
            e == history_entries(*m),
            forall|j: int|
                0 <= j < items.len() ==> e.contains_key(#[trigger] items@[j].0@) && event_list(
                    items@[j].1,
                ) == e[items@[j].0@],
            forall|j: int, l: int| 0 <= j < l < items.len() ==> #[trigger] items@[j].0@ != #[trigger] items@[l].0@,
            forall|q: Seq<char>|
                #[trigger] history_entries(index).contains_key(q) <==> exists|j: int|
                    0 <= j < i && normal_form(#[trigger] items@[j].0@) == q,
            forall|j: int|
                0 <= j < i ==> history_entries(index)[normal_form(#[trigger] items@[j].0@)]
                    == e[items@[j].0@],
            forall|j: int, l: int|
                0 <= j < l < i ==> normal_form(#[trigger] items@[j].0@) != normal_form(
                    #[trigger] items@[l].0@,
                ),
    {
        let key = normalize(items[i].0.as_str());
        match histories_get(&index, &key) {
            Some(_) => {
                proof {
                    let j = choose|j: int| 0 <= j < i && normal_form(#[trigger] items@[j].0@) == key@;
                    assert(items@[j].0@ != items@[i as int].0@);
                    assert(e.contains_key(items@[j].0@) && e.contains_key(items@[i as int].0@));
                }
                return None;
            },
            None => {},
        }
        let ghost old_index = history_entries(index);
        histories_insert(&mut index, key, event_list_clone(&items[i].1));
        proof {
            assert forall|q: Seq<char>|
                #[trigger] history_entries(index).contains_key(q) <==> exists|j: int|
                    0 <= j < i + 1 && normal_form(#[trigger] items@[j].0@) == q by {
                if old_index.contains_key(q) {
                    let j = choose|j: int| 0 <= j < i && normal_form(#[trigger] items@[j].0@) == q;
                    assert(0 <= j < i + 1 && normal_form(items@[j].0@) == q);
                }
                if q == key@ {
                    assert(0 <= i < i + 1 && normal_form(items@[i as int].0@) == q);
                }
            }
            assert forall|j: int| 0 <= j < i + 1 implies history_entries(index)[normal_form(
                #[trigger] items@[j].0@,
            )] == e[items@[j].0@] by {
                if j < i {
                    assert(old_index.contains_key(normal_form(items@[j].0@)));
                }
            }
            assert forall|j: int, l: int|
                0 <= j < l < i + 1 implies normal_form(#[trigger] items@[j].0@) != normal_form(
                #[trigger] items@[l].0@,
            ) by {
                if l == i {
                    assert(!old_index.contains_key(key@));
                }
            }
        }
    }
    proof {
        assert forall|a: Seq<char>, b: Seq<char>|
            #[trigger] e.contains_key(a) && #[trigger] e.contains_key(b) && a != b implies normal_form(a)
            != normal_form(b) by {
            let ja = choose|j: int| 0 <= j < items.len() && #[trigger] items@[j].0@ == a;
            let jb = choose|j: int| 0 <= j < items.len() && #[trigger] items@[j].0@ == b;
            if ja < jb {
                assert(normal_form(items@[ja].0@) != normal_form(items@[jb].0@));
            } else {
                assert(normal_form(items@[jb].0@) != normal_form(items@[ja].0@));
            }
        }
        assert forall|q: Seq<char>|
            #![trigger history_entries(index).contains_key(q)]
            #![trigger by_path(e).contains_key(q)]
            history_entries(index).contains_key(q) <==> by_path(e).contains_key(q) by {
            if history_entries(index).contains_key(q) {
                let j = choose|j: int| 0 <= j < n && normal_form(#[trigger] items@[j].0@) == q;
                assert(e.contains_key(items@[j].0@) && normal_form(items@[j].0@) == q);
            }
            if by_path(e).contains_key(q) {
                let k = choose|k: Seq<char>| #[trigger] e.contains_key(k) && normal_form(k) == q;
                let j = choose|j: int| 0 <= j < items.len() && #[trigger] items@[j].0@ == k;
                assert(0 <= j < n && normal_form(items@[j].0@) == q);
            }
        }
        assert forall|q: Seq<char>| #[trigger] history_entries(index).contains_key(q) implies history_entries(
            index,
        )[q] == by_path(e)[q] by {
            let j = choose|j: int| 0 <= j < n && normal_form(#[trigger] items@[j].0@) == q;
            lemma_by_path(e, items@[j].0@);
        }
        assert(history_entries(index) =~= by_path(e));
    }
    Some(index)
}

/// The histories of a directory after a scan: those of the files found, and,
/// where there were recorded histories, the recorded ones of the files that
/// are gone, marked as deleted at `now`.
pub open spec fn spec_scan(
    files: Seq<(Seq<char>, i32)>,
    previous: Option<Map<Seq<char>, Seq<Event>>>,
    now: i32,
) -> Map<Seq<char>, Seq<Event>> {
    match previous {
        Some(p) => spec_merge_previous(spec_generate(files, previous), p, now),
        None => spec_generate(files, None),
    }
}

impl History {
    /// The history of the directory `root` after a scan that found `files`
    /// (canonical path and modification time in seconds of each), given the
    /// histories recorded by the previous scan, if any could be read, and the
    /// current time `now`. The recorded histories are looked up by path.
    pub fn new(root: String, files: &Vec<(String, i32)>, previous: Option<HistoryMap>, now: i32) -> (h: History)
        requires
            previous matches Some(m) ==> histories_wf(history_entries(m)) && paths_distinct(
                history_entries(m),
            ),
        ensures
            h.root@ == root@,
            h.entries() == spec_scan(
                files_view(files@),
                match previous {
                    Some(m) => Some(by_path(history_entries(m))),
                    None => None,
                },
                now,
            ),
            h.wf(),
    {
        let histories = match previous {
            Some(recorded) => {
                let old = match index_by_path(&recorded) {
                    Some(ix) => ix,
                    // `previous` names each path once, so an index is always made.
                    None => return History { root, histories: histories_new() },
                };
                proof {
                    let e = history_entries(recorded);
                    assert forall|q: Seq<char>| #[trigger] by_path(e).contains_key(q) implies by_path(
                        e,
                    )[q].len() > 0 && is_normal(q) by {
                        let k = choose|k: Seq<char>| #[trigger] e.contains_key(k) && normal_form(k) == q;
                        lemma_by_path(e, k);
                        law_normal_form_is_normal(k);
                    }
                }
                let fresh = History::generate_history(files, &Dawn::HasHistory(recorded));
                let merged = History::merge_previous(fresh, &old, now);
                proof {
                    let f = history_entries(fresh);
                    let m = spec_merge_previous(f, history_entries(old), now);
                    assert forall|k: Seq<char>| #[trigger] m.contains_key(k) implies m[k].len() > 0 by {
                        if !f.contains_key(k) {
                            assert(history_entries(old)[k].len() > 0);
                        }
                    }
                }
                merged
            },
            None => History::generate_history(files, &Dawn::PreHistory),
        };
        History { root, histories }
    }
}

/// A scan never loses what was recorded of a file: its history is the
/// recorded one, with at most a change on top, and only when the file was
/// modified after its latest recorded event.
pub proof fn law_recorded_history_kept(previous: Map<Seq<char>, Seq<Event>>, key: Seq<char>, modified: i32)
    requires
        previous.contains_key(key),
        previous[key].len() > 0,
    ensures
        ({
            let h = spec_history_of_file(Some(previous), key, modified);
            ||| h == previous[key] && modified <= previous[key][0].timestamp()
            ||| h == seq![Event::Change(modified)] + previous[key] && modified
                > previous[key][0].timestamp()
        }),
{
}

/// A scan records exactly the files it found other than history files, each
/// under the normal form of its path.
pub proof fn law_scan_tracks_files(
    files: Seq<(Seq<char>, i32)>,
    previous: Option<Map<Seq<char>, Seq<Event>>>,
)
    ensures
        forall|k: Seq<char>|
            #[trigger] spec_generate(files, previous).contains_key(k) <==> exists|i: int|
                0 <= i < files.len() && !path_ends_with(files[i].0, HISTORY_FILE_NAME@)
                    && #[trigger] normal_form(files[i].0) == k,
    decreases files.len(),
{
    if files.len() > 0 {
        let rest = files.drop_last();
        law_scan_tracks_files(rest, previous);
        let last = files.last();
        assert(files[files.len() - 1] == last);
        let g = spec_generate(rest, previous);
        assert forall|k: Seq<char>|
            #[trigger] spec_generate(files, previous).contains_key(k) <==> exists|i: int|
                0 <= i < files.len() && !path_ends_with(files[i].0, HISTORY_FILE_NAME@)
                    && #[trigger] normal_form(files[i].0) == k by {
            if exists|i: int|
                0 <= i < files.len() && !path_ends_with(files[i].0, HISTORY_FILE_NAME@)
                    && #[trigger] normal_form(files[i].0) == k {
                let i = choose|i: int|
                    0 <= i < files.len() && !path_ends_with(files[i].0, HISTORY_FILE_NAME@)
                        && #[trigger] normal_form(files[i].0) == k;
                if i < files.len() - 1 {
                    assert(rest[i] == files[i]);
                    assert(g.contains_key(k));
                }
            }
            if g.contains_key(k) {
                let i = choose|i: int|
                    0 <= i < rest.len() && !path_ends_with(rest[i].0, HISTORY_FILE_NAME@)
                        && #[trigger] normal_form(rest[i].0) == k;
                assert(rest[i] == files[i]);
                assert(normal_form(files[i].0) == k);
            }
        }
    }
}

/// Where the paths found have distinct normal forms, each file recorded has
/// the history that its own modification time gives it.
pub proof fn law_scan_histories(
    files: Seq<(Seq<char>, i32)>,
    previous: Option<Map<Seq<char>, Seq<Event>>>,
    i: int,
)
    requires
        0 <= i < files.len(),
        distinct_paths(files),
        !path_ends_with(files[i].0, HISTORY_FILE_NAME@),
    ensures
        spec_generate(files, previous).contains_key(normal_form(files[i].0)),
        spec_generate(files, previous)[normal_form(files[i].0)] == spec_history_of_file(
            previous,
            normal_form(files[i].0),
            files[i].1,
        ),
    decreases files.len(),
{
    let rest = files.drop_last();
    if i < files.len() - 1 {
        assert forall|j: int, l: int| 0 <= j < l < rest.len() implies normal_form(#[trigger] rest[j].0)
            != normal_form(#[trigger] rest[l].0) by {
            assert(rest[j] == files[j] && rest[l] == files[l]);
        }
        assert(rest[i] == files[i]);
        law_scan_histories(rest, previous, i);
        assert(normal_form(files.last().0) != normal_form(files[i].0)) by {
            assert(files[files.len() - 1] == files.last());
        }
    }
}

/// After a rescan, a file that is gone since the previous scan is recorded as
/// deleted: its recorded history stays, with a deletion at `now` on top
/// unless its latest event already was one. A file that is still there has
/// its fresh history; one that neither scan knows stays unknown.
pub proof fn law_gone_files_deleted(
    fresh: Map<Seq<char>, Seq<Event>>,
    previous: Map<Seq<char>, Seq<Event>>,
    now: i32,
    key: Seq<char>,
)
    requires
        previous.contains_key(key) ==> previous[key].len() > 0,
    ensures
        fresh.contains_key(key) ==> spec_merge_previous(fresh, previous, now)[key] == fresh[key],
        !fresh.contains_key(key) && previous.contains_key(key) ==> {
            let h = spec_merge_previous(fresh, previous, now)[key];
            &&& h[0].is_delete()
            &&& h == previous[key] || h == seq![Event::Delete(now)] + previous[key]
        },
        !fresh.contains_key(key) && !previous.contains_key(key) ==> !spec_merge_previous(
            fresh,
            previous,
            now,
        ).contains_key(key),
{
}

/// The latest event of `h` comes first: time stamps never rise from the head
/// on.
pub open spec fn newest_first(h: Seq<Event>) -> bool {
    forall|i: int, j: int|
        0 <= i < j < h.len() ==> (#[trigger] h[i]).timestamp() >= (#[trigger] h[j]).timestamp()
}

/// Every history of `m` has an event, has its latest event first, and none
/// is later than `now`.
pub open spec fn histories_ordered(m: Map<Seq<char>, Seq<Event>>, now: i32) -> bool {
    forall|k: Seq<char>|
        #[trigger] m.contains_key(k) ==> m[k].len() > 0 && newest_first(m[k]) && m[k][0].timestamp()
            <= now
}

/// Each history of a scan is the one that some file found gives it.
proof fn lemma_generate_values(
    files: Seq<(Seq<char>, i32)>,
    previous: Option<Map<Seq<char>, Seq<Event>>>,
    k: Seq<char>,
)
    requires
        spec_generate(files, previous).contains_key(k),
    ensures
        exists|i: int|
            0 <= i < files.len() && spec_generate(files, previous)[k] == spec_history_of_file(
                previous,
                k,
                #[trigger] files[i].1,
            ),
    decreases files.len(),
{
    let rest = files.drop_last();
    let last = files.last();
    assert(files[files.len() - 1] == last);
    if !path_ends_with(last.0, HISTORY_FILE_NAME@) && normal_form(last.0) == k {
        assert(spec_generate(files, previous)[k] == spec_history_of_file(previous, k, files[files.len() - 1].1));
    } else {
        lemma_generate_values(rest, previous, k);
        let i = choose|i: int|
            0 <= i < rest.len() && spec_generate(rest, previous)[k] == spec_history_of_file(
                previous,
                k,
                #[trigger] rest[i].1,
            );
        assert(rest[i] == files[i]);
        assert(spec_generate(files, previous)[k] == spec_history_of_file(previous, k, files[i].1));
    }
}

/// A scan keeps every history in order: where each recorded history has an
/// event, has its latest first and none later than `now`, every history after
/// the scan has an event and its latest first.
pub proof fn law_scan_newest_first(
    files: Seq<(Seq<char>, i32)>,
    previous: Option<Map<Seq<char>, Seq<Event>>>,
    now: i32,
)
    requires
        previous matches Some(p) ==> histories_ordered(p, now),
    ensures
        forall|k: Seq<char>|
            #[trigger] spec_scan(files, previous, now).contains_key(k) ==> spec_scan(
                files,
                previous,
                now,
            )[k].len() > 0 && newest_first(spec_scan(files, previous, now)[k]),
{
    let g = spec_generate(files, previous);
    let s = spec_scan(files, previous, now);
    assert forall|k: Seq<char>| #[trigger] s.contains_key(k) implies s[k].len() > 0 && newest_first(s[k]) by {
        if g.contains_key(k) {
            lemma_generate_values(files, previous, k);
            let i = choose|i: int|
                0 <= i < files.len() && g[k] == spec_history_of_file(previous, k, #[trigger] files[i].1);
            let m = files[i].1;
            assert(s[k] == g[k]);
            if let Some(p) = previous {
                if p.contains_key(k) && m > p[k][0].timestamp() {
                    let h = seq![Event::Change(m)] + p[k];
                    assert forall|a: int, b: int| 0 <= a < b < h.len() implies (#[trigger] h[a]).timestamp()
                        >= (#[trigger] h[b]).timestamp() by {
                        if a == 0 {
                            assert(h[b] == p[k][b - 1]);
                            if b - 1 > 0 {
                                assert(p[k][0].timestamp() >= p[k][b - 1].timestamp());
                            }
                        } else {
                            assert(h[a] == p[k][a - 1] && h[b] == p[k][b - 1]);
                        }
                    }
                }
            }
        } else {
            let p = previous->0;
            assert(p.contains_key(k));
            assert(s[k] == mark_deleted(p[k], now));
            if !p[k][0].is_delete() {
                let h = seq![Event::Delete(now)] + p[k];
                assert forall|a: int, b: int| 0 <= a < b < h.len() implies (#[trigger] h[a]).timestamp()
                    >= (#[trigger] h[b]).timestamp() by {
                    if a == 0 {
                        assert(h[b] == p[k][b - 1]);
                        if b - 1 > 0 {
                            assert(p[k][0].timestamp() >= p[k][b - 1].timestamp());
                        }
                    } else {
                        assert(h[a] == p[k][a - 1] && h[b] == p[k][b - 1]);
                    }
                }
            }
        }
    }
}

/// Where some file found other than a history file has the path `k`, one of
/// them is the last found.
#[verifier::spinoff_prover]
#[verifier::rlimit(40)]
proof fn lemma_last_found(files: Seq<(Seq<char>, i32)>, k: Seq<char>)
    requires
        exists|i: int|
            0 <= i < files.len() && !path_ends_with(files[i].0, HISTORY_FILE_NAME@) && #[trigger] normal_form(
                files[i].0,
            ) == k,
    ensures
        exists|i: int|
            0 <= i < files.len() && !path_ends_with(files[i].0, HISTORY_FILE_NAME@) && #[trigger] normal_form(
                files[i].0,
            ) == k && forall|j: int|
                i < j < files.len() ==> path_ends_with(files[j].0, HISTORY_FILE_NAME@) || normal_form(
                    #[trigger] files[j].0,
                ) != k,
    decreases files.len(),
{
    let last = files.len() - 1;
    if !path_ends_with(files[last].0, HISTORY_FILE_NAME@) && normal_form(files[last].0) == k {
        assert forall|j: int| last < j < files.len() implies path_ends_with(files[j].0, HISTORY_FILE_NAME@)
            || normal_form(#[trigger] files[j].0) != k by {}
    } else {
        let rest = files.drop_last();
        let i0 = choose|i: int|
            0 <= i < files.len() && !path_ends_with(files[i].0, HISTORY_FILE_NAME@) && #[trigger] normal_form(
                files[i].0,
            ) == k;
        assert(i0 < last);
        assert(rest[i0] == files[i0]);
        lemma_last_found(rest, k);
        let i = choose|i: int|
            0 <= i < rest.len() && !path_ends_with(rest[i].0, HISTORY_FILE_NAME@) && #[trigger] normal_form(
                rest[i].0,
            ) == k && forall|j: int|
                i < j < rest.len() ==> path_ends_with(rest[j].0, HISTORY_FILE_NAME@) || normal_form(
                    #[trigger] rest[j].0,
                ) != k;
        assert(rest[i] == files[i]);
        assert forall|j: int| i < j < files.len() implies path_ends_with(files[j].0, HISTORY_FILE_NAME@)
            || normal_form(#[trigger] files[j].0) != k by {
            if j < last {
                assert(rest[j] == files[j]);
            }
        }
    }
}

/// The history that a scan records under a path is the one that the last
/// file found with that path gives it.
proof fn lemma_generate_last(
    files: Seq<(Seq<char>, i32)>,
    previous: Option<Map<Seq<char>, Seq<Event>>>,
    i: int,
)
    requires
        0 <= i < files.len(),
        !path_ends_with(files[i].0, HISTORY_FILE_NAME@),
        forall|j: int|
            i < j < files.len() ==> path_ends_with(files[j].0, HISTORY_FILE_NAME@) || normal_form(
                #[trigger] files[j].0,
            ) != normal_form(files[i].0),
    ensures
        spec_generate(files, previous).contains_key(normal_form(files[i].0)),
        spec_generate(files, previous)[normal_form(files[i].0)] == spec_history_of_file(
            previous,
            normal_form(files[i].0),
            files[i].1,
        ),
    decreases files.len(),
{
    let rest = files.drop_last();
    let last = files.len() - 1;
    assert(files[last] == files.last());
    if i < last {
        assert(rest[i] == files[i]);
        assert forall|j: int| i < j < rest.len() implies path_ends_with(rest[j].0, HISTORY_FILE_NAME@)
            || normal_form(#[trigger] rest[j].0) != normal_form(rest[i].0) by {
            assert(rest[j] == files[j]);
        }
        lemma_generate_last(rest, previous, i);
        assert(path_ends_with(files[last].0, HISTORY_FILE_NAME@) || normal_form(files[last].0)
            != normal_form(files[i].0));
    }
}

/// Looked up by path, histories whose keys are in normal form are the same.
pub proof fn lemma_by_path_of_normal_keys(m: Map<Seq<char>, Seq<Event>>)
    requires
        keys_normal(m),
    ensures
        by_path(m) == m,
{
    assert forall|q: Seq<char>| #[trigger] by_path(m).contains_key(q) <==> m.contains_key(q) by {
        if m.contains_key(q) {
            assert(m.contains_key(q) && normal_form(q) == q);
        }
    }
    assert forall|q: Seq<char>| #[trigger] m.contains_key(q) implies by_path(m)[q] == m[q] by {
        assert(m.contains_key(q) && normal_form(q) == q);
        let k = choose|k: Seq<char>| #[trigger] m.contains_key(k) && normal_form(k) == q;
        assert(normal_form(k) == k);
    }
    assert(by_path(m) =~= m);
}

/// Rescanning a tree in which nothing changed since the last scan changes
/// nothing: the histories stay as that scan left them, whatever the time,
/// and looking them up by path, as the next scan does, finds them as they
/// are.
pub proof fn law_rescan_unchanged(
    files: Seq<(Seq<char>, i32)>,
    previous: Option<Map<Seq<char>, Seq<Event>>>,
    first: i32,
    second: i32,
)
    requires
        previous matches Some(p) ==> keys_normal(p),
    ensures
        spec_scan(files, Some(spec_scan(files, previous, first)), second) == spec_scan(
            files,
            previous,
            first,
        ),
        by_path(spec_scan(files, previous, first)) == spec_scan(files, previous, first),
{
    let s1 = spec_scan(files, previous, first);
    let g1 = spec_generate(files, previous);
    let g2 = spec_generate(files, Some(s1));
    law_scan_tracks_files(files, previous);
    law_scan_tracks_files(files, Some(s1));
    assert forall|k: Seq<char>| #[trigger] g1.contains_key(k) implies g2.contains_key(k) && g2[k] == g1[k]
        && s1.contains_key(k) && s1[k] == g1[k] by {
        lemma_last_found(files, k);
        let i = choose|i: int|
            0 <= i < files.len() && !path_ends_with(files[i].0, HISTORY_FILE_NAME@) && #[trigger] normal_form(
                files[i].0,
            ) == k && forall|j: int|
                i < j < files.len() ==> path_ends_with(files[j].0, HISTORY_FILE_NAME@) || normal_form(
                    #[trigger] files[j].0,
                ) != k;
        lemma_generate_last(files, previous, i);
        lemma_generate_last(files, Some(s1), i);
        assert(s1[k] == g1[k]);
    }
    assert(g2 =~= g1);
    assert forall|k: Seq<char>| #[trigger] s1.contains_key(k) && !g1.contains_key(k) implies mark_deleted(
        s1[k],
        second,
    ) == s1[k] by {
        let p = previous->0;
        assert(s1[k] == mark_deleted(p[k], first));
    }
    assert(spec_scan(files, Some(s1), second) =~= s1);
    assert forall|k: Seq<char>| #[trigger] s1.contains_key(k) implies is_normal(k) by {
        if g1.contains_key(k) {
            let i = choose|i: int|
                0 <= i < files.len() && !path_ends_with(files[i].0, HISTORY_FILE_NAME@)
                    && #[trigger] normal_form(files[i].0) == k;
            law_normal_form_is_normal(files[i].0);
        }
    }
    lemma_by_path_of_normal_keys(s1);
}

/// A path moved from one root to another lies under the other root, and
/// moved back it names the path it came from. This holds where both roots
/// are not empty and the rests that `strip_prefix` gives are relative.
pub proof fn law_replace_with_round_trip(from: Seq<char>, from_root: Seq<char>, to_root: Seq<char>)
    requires
        under_root(from, from_root),
        from_root.len() > 0,
        to_root.len() > 0,
        !is_absolute(path_strip_prefix(from, from_root)->0),
    ensures
        ({
            let moved = spec_join(to_root, path_strip_prefix(from, from_root)->0);
            &&& spec_replace_with(from, from_root, to_root) == Some(moved)
            &&& path_starts_with(moved, to_root)
            &&& under_root(moved, to_root) && !is_absolute(path_strip_prefix(moved, to_root)->0)
                ==> (spec_replace_with(moved, to_root, from_root) matches Some(back) && same_path(
                back,
                from,
            ))
        }),
{
    let rel = path_strip_prefix(from, from_root)->0;
    let moved = spec_join(to_root, rel);
    lemma_components_of_join(to_root, rel);
    let ct = path_components(to_root);
    let n1 = named_pieces(segments(rel));
    assert((ct + n1).subrange(0, ct.len() as int) =~= ct);
    if under_root(moved, to_root) && !is_absolute(path_strip_prefix(moved, to_root)->0) {
        let rel2 = path_strip_prefix(moved, to_root)->0;
        lemma_components_of_join(to_root, rel2);
        lemma_components_of_join(from_root, rel);
        lemma_components_of_join(from_root, rel2);
        let n2 = named_pieces(segments(rel2));
        assert(ct + n1 == ct + n2);
        assert(n1 =~= (ct + n1).subrange(ct.len() as int, (ct + n1).len() as int));
        assert(n2 =~= (ct + n2).subrange(ct.len() as int, (ct + n2).len() as int));
        assert(same_path(spec_join(from_root, rel2), from));
    }
}

} // verus!
