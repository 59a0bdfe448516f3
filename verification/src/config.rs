use vstd::prelude::*;

use crate::paths::{law_normal_form_is_normal, normal_form, normalize, same_path};

verus! {

/// Pairs of directories to keep in step, each as two paths.
pub type TargetSet = im::HashSet<(String, String)>;

/// A pair of paths by their views.
pub type PairView = (Seq<char>, Seq<char>);

/// What an `im::HashSet` of directory pairs holds. `String`'s `Eq` and `Hash`
/// go by the characters, so two pairs are the same exactly when their views
/// are.
pub uninterp spec fn target_pairs(s: TargetSet) -> Set<PairView>;

/// The set with no pairs.
pub open spec fn no_pairs() -> Set<PairView> {
    Set::empty()
}

/// `im::HashSet::new`: the empty set.
#[verifier::external_body]
pub(crate) fn target_set_new() -> (r: TargetSet)
    ensures
        target_pairs(r) == no_pairs(),
{
    im::HashSet::new()
}

/// `im::HashSet::insert`: the set with `pair` in it.
#[verifier::external_body]
pub(crate) fn target_set_insert(s: &mut TargetSet, pair: (String, String))
    ensures
        target_pairs(*final(s)) == target_pairs(*old(s)).insert((pair.0@, pair.1@)),
{
    s.insert(pair);
}

/// `im::HashSet::iter`, each pair cloned: every pair once, in an order that
/// the set's hashing decides and that is not stated.
#[verifier::external_body]
pub(crate) fn target_set_items(s: &TargetSet) -> (r: Vec<(String, String)>)
    ensures
        forall|i: int|
            0 <= i < r.len() ==> target_pairs(*s).contains((#[trigger] r@[i].0@, r@[i].1@)),
        forall|p: PairView|
            target_pairs(*s).contains(p) ==> exists|i: int|
                0 <= i < r.len() && (#[trigger] r@[i].0@, r@[i].1@) == p,
{
    s.iter().cloned().collect()
}

/// Whether `dir` is among `dirs`, as a path: some entry has its components.
pub open spec fn listed(dir: Seq<char>, dirs: Seq<String>) -> bool {
    exists|i: int| 0 <= i < dirs.len() && normal_form(#[trigger] dirs[i]@) == normal_form(dir)
}

/// One watched directory on its own.
pub struct WatchTargets2(pub String);

/// The pairs of directories that the watching server keeps in step.
pub struct WatchTargets(pub TargetSet);

impl View for WatchTargets {
    type V = Set<PairView>;

    open spec fn view(&self) -> Set<PairView> {
        target_pairs(self.0)
    }
}

/// Whether `dir` is one of `dirs`.
fn is_listed(dir: &String, dirs: &Vec<String>) -> (b: bool)
    ensures
        b == listed(dir@, dirs@),
{
    let wanted = normalize(dir.as_str());
    let n = dirs.len();
    for i in 0..n
        invariant
            n == dirs.len(),
            wanted@ == normal_form(dir@),
            forall|j: int| 0 <= j < i ==> normal_form(#[trigger] dirs@[j]@) != normal_form(dir@),
    {
        if normalize(dirs[i].as_str()) == wanted {
            return true;
        }
    }
    false
}

impl WatchTargets {
    /// No pairs: what the server watches before any was added.
    pub fn empty() -> (t: WatchTargets)
        ensures
            t@ == no_pairs(),
    {
        WatchTargets(target_set_new())
    }

    /// Watches `pair` as well, each path in its normal form, so that a pair
    /// already watched under other spellings of its paths is not added twice.
    pub fn add(&mut self, pair: (String, String))
        ensures
            final(self)@ == old(self)@.insert((normal_form(pair.0@), normal_form(pair.1@))),
    {
        let first = normalize(pair.0.as_str());
        let second = normalize(pair.1.as_str());
        target_set_insert(&mut self.0, (first, second));
    }

    /// Every watched pair once, in an unstated order.
    pub fn pairs(&self) -> (r: Vec<(String, String)>)
        ensures
            forall|i: int| 0 <= i < r.len() ==> self@.contains((#[trigger] r@[i].0@, r@[i].1@)),
            forall|p: PairView|
                self@.contains(p) ==> exists|i: int|
                    0 <= i < r.len() && (#[trigger] r@[i].0@, r@[i].1@) == p,
    {
        target_set_items(&self.0)
    }

    /// The watched pairs whose two directories are both among
    /// `readable_dirs`, the directories that could be read just now.
    pub fn get_available_directories(&self, readable_dirs: &Vec<String>) -> (r: TargetSet)
        ensures
            target_pairs(r) == self@.filter(
                |p: PairView| listed(p.0, readable_dirs@) && listed(p.1, readable_dirs@),
            ),
            forall|p: PairView|
                #[trigger] target_pairs(r).contains(p) <==> self@.contains(p) && (exists|i: int|
                    0 <= i < readable_dirs@.len() && normal_form(readable_dirs@[i]@) == normal_form(
                        p.0,
                    )) && (exists|j: int|
                    0 <= j < readable_dirs@.len() && normal_form(readable_dirs@[j]@) == normal_form(
                        p.1,
                    )),
    {
        let items = target_set_items(&self.0);
        let mut acc = target_set_new();
        let n = items.len();
        let ghost keep = |p: PairView| listed(p.0, readable_dirs@) && listed(p.1, readable_dirs@);
        assert(target_pairs(acc) =~= Set::new(
            |p: PairView| exists|j: int| 0 <= j < 0 && (#[trigger] items@[j].0@, items@[j].1@) == p && keep(p),
        ));
        for i in 0..n
            invariant
                n == items.len(),
                keep == (|p: PairView| listed(p.0, readable_dirs@) && listed(p.1, readable_dirs@)),
                forall|j: int|
                    0 <= j < items.len() ==> self@.contains((#[trigger] items@[j].0@, items@[j].1@)),
                target_pairs(acc) == Set::new(
                    |p: PairView|
                        exists|j: int|
                            0 <= j < i && (#[trigger] items@[j].0@, items@[j].1@) == p && keep(p),
                ),
        {
            let ghost old_acc = target_pairs(acc);
            let ghost pv = (items@[i as int].0@, items@[i as int].1@);
            let first = &items[i].0;
            let second = &items[i].1;
            if is_listed(first, readable_dirs) && is_listed(second, readable_dirs) {
                target_set_insert(&mut acc, (first.clone(), second.clone()));
            }
            proof {
                let next = Set::new(
                    |p: PairView|
                        exists|j: int|
                            0 <= j < i + 1 && (#[trigger] items@[j].0@, items@[j].1@) == p && keep(p),
                );
                assert forall|p: PairView| #[trigger] target_pairs(acc).contains(p) <==> next.contains(p) by {
                    if old_acc.contains(p) {
                        let j = choose|j: int|
                            0 <= j < i && (#[trigger] items@[j].0@, items@[j].1@) == p && keep(p);
                        assert(0 <= j < i + 1 && (items@[j].0@, items@[j].1@) == p && keep(p));
                    }
                    if next.contains(p) && p != pv {
                        let j = choose|j: int|
                            0 <= j < i + 1 && (#[trigger] items@[j].0@, items@[j].1@) == p && keep(p);
                        assert(j != i);
                    }
                    if p == pv && keep(p) {
                        assert(0 <= i < i + 1 && (items@[i as int].0@, items@[i as int].1@) == p && keep(p));
                    }
                }
                assert(target_pairs(acc) =~= next);
            }
        }
        proof {
            let target = self@.filter(keep);
            assert forall|p: PairView| #[trigger] target_pairs(acc).contains(p) <==> target.contains(p) by {
                if target.contains(p) {
                    let k = choose|k: int| 0 <= k < items.len() && (#[trigger] items@[k].0@, items@[k].1@) == p;
                    assert(0 <= k < n && (items@[k].0@, items@[k].1@) == p && keep(p));
                }
            }
            assert(target_pairs(acc) =~= target);
            assert forall|p: PairView| #[trigger] target_pairs(acc).contains(p) implies (exists|i: int|
                0 <= i < readable_dirs@.len() && normal_form(readable_dirs@[i]@) == normal_form(p.0))
                && (exists|j: int|
                0 <= j < readable_dirs@.len() && normal_form(readable_dirs@[j]@) == normal_form(p.1)) by {
                law_listed_by_path(p.0, readable_dirs@);
                law_listed_by_path(p.1, readable_dirs@);
            }
            assert forall|p: PairView|
                self@.contains(p) && (exists|i: int|
                    0 <= i < readable_dirs@.len() && normal_form(readable_dirs@[i]@) == normal_form(
                        p.0,
                    )) && (exists|j: int|
                    0 <= j < readable_dirs@.len() && normal_form(readable_dirs@[j]@) == normal_form(
                        p.1,
                    )) implies #[trigger] target_pairs(acc).contains(p) by {
                law_listed_by_path(p.0, readable_dirs@);
                law_listed_by_path(p.1, readable_dirs@);
            }
        }
        acc
    }
}

/// A directory is listed exactly when some entry names the same path: has
/// the same normal form. An entry that only shares its last name with the
/// directory does not count.
pub proof fn law_listed_by_path(dir: Seq<char>, dirs: Seq<String>)
    ensures
        listed(dir, dirs) <==> exists|i: int|
            0 <= i < dirs.len() && normal_form(#[trigger] dirs[i]@) == normal_form(dir),
        listed(dir, dirs) ==> exists|i: int|
            0 <= i < dirs.len() && same_path(#[trigger] dirs[i]@, dir),
{
    if listed(dir, dirs) {
        let i = choose|i: int| 0 <= i < dirs.len() && normal_form(#[trigger] dirs[i]@) == normal_form(dir);
        law_normal_form_is_normal(dirs[i]@);
        law_normal_form_is_normal(dir);
        assert(same_path(dirs[i]@, dir));
    }
}

} // verus!
