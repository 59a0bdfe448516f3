use vstd::prelude::*;

use crate::event::{Event, event_list, event_list_front};
use crate::history::history_entries;
use crate::history::{
    History, by_path, histories_get, histories_listing, index_by_path, lemma_by_path, paths_distinct,
    spec_replace_with,
};
use crate::paths::{
    is_absolute, law_normal_form_is_normal, law_same_path_same_normal_form,
    lemma_components_of_join, named_pieces, normal_form, normalize, path_components,
    path_strip_prefix, same_path, segments, spec_join, under_root,
};

verus! {

/// One file to bring over: `from` is the newer side, `to` the path the file
/// takes on the other side, `event` the latest event of `from`. The
/// differences that the library finds give both paths in normal form.
/// `==` compares all three fields as they are, which is what a set of
/// differences rests on; whether two differences concern one pair of files,
/// whatever their direction, event and spelling of paths, is `same_pair`.
#[derive(Debug, Clone, PartialEq, Eq, Hash)]
pub struct Difference {
    pub from: String,
    pub to: String,
    pub event: Event,
}

/// A `Difference` with its paths as character sequences.
pub struct DifferenceView {
    pub from: Seq<char>,
    pub to: Seq<char>,
    pub event: Event,
}

impl View for Difference {
    type V = DifferenceView;

    open spec fn view(&self) -> DifferenceView {
        DifferenceView { from: self.from@, to: self.to@, event: self.event }
    }
}

/// Two differences concern the same pair of files when they join the same
/// two paths, in either direction. Paths are compared as paths: by their
/// normal forms.
pub open spec fn same_pair(x: DifferenceView, y: DifferenceView) -> bool {
    let (xf, xt) = (normal_form(x.from), normal_form(x.to));
    let (yf, yt) = (normal_form(y.from), normal_form(y.to));
    (xf == yf && xt == yt) || (xf == yt && xt == yf)
}

/// Whether some difference of `ys` concerns the same pair of files as `x`.
pub open spec fn has_partner(x: DifferenceView, ys: Set<DifferenceView>) -> bool {
    exists|y: DifferenceView| #[trigger] ys.contains(y) && same_pair(x, y)
}

/// The partner of `x` in `ys`, where there is one.
pub open spec fn partner(x: DifferenceView, ys: Set<DifferenceView>) -> DifferenceView {
    choose|y: DifferenceView| #[trigger] ys.contains(y) && same_pair(x, y)
}

/// Which of two differences on the same pair of files wins: a deletion wins
/// (the first one if both delete), then the later time stamp, then `x`.
pub open spec fn preferred(x: DifferenceView, y: DifferenceView) -> DifferenceView {
    if x.event.is_delete() {
        x
    } else if y.event.is_delete() {
        y
    } else if x.event.timestamp() >= y.event.timestamp() {
        x
    } else {
        y
    }
}

/// What `x` becomes in the merge with `ys`.
pub open spec fn resolved(x: DifferenceView, ys: Set<DifferenceView>) -> DifferenceView {
    if has_partner(x, ys) {
        preferred(x, partner(x, ys))
    } else {
        x
    }
}

/// No difference of `xs` has two partners in `ys`. Where one has, the
/// partner that the merge picks depends on the order in which `ys` is walked.
pub open spec fn partners_unique(xs: Set<DifferenceView>, ys: Set<DifferenceView>) -> bool {
    forall|x: DifferenceView, y1: DifferenceView, y2: DifferenceView|
        #![trigger xs.contains(x), ys.contains(y1), ys.contains(y2)]
        xs.contains(x) && ys.contains(y1) && ys.contains(y2) && same_pair(x, y1) && same_pair(
            x,
            y2,
        ) ==> y1 == y2
}

/// The merge of two sets of differences: each difference of `xs`, resolved
/// against its partner in `ys`, and each difference of `ys` that has no
/// partner in `xs`.
pub open spec fn spec_merge(xs: Set<DifferenceView>, ys: Set<DifferenceView>) -> Set<
    DifferenceView,
> {
    xs.map(|x: DifferenceView| resolved(x, ys)).union(
        ys.filter(|y: DifferenceView| !has_partner(y, xs)),
    )
}

/// What an `im::HashSet` of differences holds. The derived `Eq` and `Hash` of
/// `Difference` compare and hash all three fields, so two elements are the
/// same exactly when their views are.
pub uninterp spec fn difference_set(s: im::HashSet<Difference>) -> Set<DifferenceView>;

/// `im::HashSet::new`: the empty set.
#[verifier::external_body]
pub(crate) fn difference_set_new() -> (r: im::HashSet<Difference>)
    ensures
        difference_set(r) == Set::<DifferenceView>::empty(),
{
    im::HashSet::new()
}

/// `im::HashSet::insert`: the set with `d` in it.
#[verifier::external_body]
pub(crate) fn difference_set_insert(s: &mut im::HashSet<Difference>, d: Difference)
    ensures
        difference_set(*final(s)) == difference_set(*old(s)).insert(d@),
{
    s.insert(d);
}

/// `im::HashSet::remove`: the set without `d`.
#[verifier::external_body]
pub(crate) fn difference_set_remove(s: &mut im::HashSet<Difference>, d: &Difference)
    ensures
        difference_set(*final(s)) == difference_set(*old(s)).remove(d@),
{
    s.remove(d);
}

/// `im::HashSet::union`: the elements of both sets.
#[verifier::external_body]
pub(crate) fn difference_set_union(a: im::HashSet<Difference>, b: im::HashSet<Difference>) -> (r:
    im::HashSet<Difference>)
    ensures
        difference_set(r) == difference_set(a).union(difference_set(b)),
{
    a.union(b)
}

/// `Clone` of `im::HashSet`: a set with the same elements.
#[verifier::external_body]
pub(crate) fn difference_set_clone(s: &im::HashSet<Difference>) -> (r: im::HashSet<Difference>)
    ensures
        difference_set(r) == difference_set(*s),
{
    s.clone()
}

/// `im::HashSet::iter`, each element cloned: every element once, in an order
/// that the set's hashing decides and that is not stated.
#[verifier::external_body]
pub(crate) fn difference_set_items(s: &im::HashSet<Difference>) -> (r: Vec<Difference>)
    ensures
        forall|i: int| 0 <= i < r.len() ==> difference_set(*s).contains(#[trigger] r@[i]@),
        forall|x: DifferenceView|
            difference_set(*s).contains(x) ==> exists|i: int| 0 <= i < r.len() && #[trigger] r@[i]@ == x,
        forall|i: int, j: int| 0 <= i < j < r.len() ==> #[trigger] r@[i]@ != #[trigger] r@[j]@,
{
    s.iter().cloned().collect()
}

impl Difference {
    /// A difference that brings `from` over to `to`, as `event` left it.
    pub fn new(from: String, to: String, event: Event) -> (d: Difference)
        ensures
            d@ == (DifferenceView { from: from@, to: to@, event }),
    {
        Difference { from, to, event }
    }

    /// A copy with the same paths and event.
    pub fn duplicate(&self) -> (d: Difference)
        ensures
            d@ == self@,
    {
        Difference { from: self.from.clone(), to: self.to.clone(), event: self.event }
    }

    /// Whether the two differences concern the same pair of files, in either
    /// direction; the event is not compared.
    pub fn same_pair(&self, other: &Difference) -> (b: bool)
        ensures
            b == same_pair(self@, other@),
    {
        let xf = normalize(self.from.as_str());
        let xt = normalize(self.to.as_str());
        let yf = normalize(other.from.as_str());
        let yt = normalize(other.to.as_str());
        (xf == yf && xt == yt) || (xf == yt && xt == yf)
    }
}

/// The last difference of `ys`, in the order the set is walked, that concerns
/// the same pair of files as `x`.
fn find(x: &Difference, ys: &im::HashSet<Difference>) -> (r: Option<Difference>)
    ensures
        r is None <==> !has_partner(x@, difference_set(*ys)),
        r matches Some(y) ==> difference_set(*ys).contains(y@) && same_pair(x@, y@),
{
    let items = difference_set_items(ys);
    let mut acc: Option<Difference> = None;
    let n = items.len();
    for i in 0..n
        invariant
            n == items.len(),
            forall|k: int| 0 <= k < items.len() ==> difference_set(*ys).contains(#[trigger] items@[k]@),
            forall|y: DifferenceView|
                difference_set(*ys).contains(y) ==> exists|k: int|
                    0 <= k < items.len() && #[trigger] items@[k]@ == y,
            acc is None <==> forall|k: int| 0 <= k < i ==> !same_pair(x@, #[trigger] items@[k]@),
            acc matches Some(y) ==> difference_set(*ys).contains(y@) && same_pair(x@, y@),
    {
        if items[i].same_pair(x) {
            acc = Some(items[i].duplicate());
        }
    }
    proof {
        if acc is None {
            assert forall|y: DifferenceView| #[trigger]
                difference_set(*ys).contains(y) implies !same_pair(x@, y) by {
                let k = choose|k: int| 0 <= k < items.len() && #[trigger] items@[k]@ == y;
                assert(!same_pair(x@, items@[k]@));
            }
        }
    }
    acc
}


/// `ys` without the partner that `find` picks in it for each difference of
/// `xs`.
fn unmatched(xs: &im::HashSet<Difference>, ys: &im::HashSet<Difference>) -> (r: im::HashSet<
    Difference,
>)
    ensures
        difference_set(r).subset_of(difference_set(*ys)),
        forall|y: DifferenceView|
            #[trigger] difference_set(*ys).contains(y) && !difference_set(r).contains(y)
                ==> has_partner(y, difference_set(*xs)),
        forall|y: DifferenceView|
            #[trigger] difference_set(*ys).contains(y) && !has_partner(y, difference_set(*xs))
                ==> difference_set(r).contains(y),
        partners_unique(difference_set(*xs), difference_set(*ys)) ==> difference_set(r)
            == difference_set(*ys).filter(
            |y: DifferenceView| !has_partner(y, difference_set(*xs)),
        ),
{
    let ghost xset = difference_set(*xs);
    let ghost yset = difference_set(*ys);
    let items = difference_set_items(xs);
    let mut acc = difference_set_clone(ys);
    let n = items.len();
    for i in 0..n
        invariant
            n == items.len(),
            xset == difference_set(*xs),
            yset == difference_set(*ys),
            forall|k: int| 0 <= k < items.len() ==> xset.contains(#[trigger] items@[k]@),
            forall|x: DifferenceView|
                xset.contains(x) ==> exists|k: int| 0 <= k < items.len() && #[trigger] items@[k]@ == x,
            difference_set(acc).subset_of(yset),
            forall|y: DifferenceView|
                #[trigger] yset.contains(y) && !difference_set(acc).contains(y) ==> has_partner(
                    y,
                    xset,
                ),
            forall|y: DifferenceView|
                #[trigger] yset.contains(y) && !has_partner(y, xset) ==> difference_set(
                    acc,
                ).contains(y),
            partners_unique(xset, yset) ==> forall|k: int, y: DifferenceView|
                0 <= k < i && #[trigger] yset.contains(y) && same_pair(#[trigger] items@[k]@, y)
                    ==> !difference_set(acc).contains(y),
    {
        let x = &items[i];
        match find(x, ys) {
            Some(y) => {
                proof {
                    assert(same_pair(y@, x@));
                    assert(has_partner(y@, xset));
                }
                difference_set_remove(&mut acc, &y);
            },
            None => {},
        }
        proof {
            if partners_unique(xset, yset) {
                assert forall|k: int, y: DifferenceView|
                    0 <= k < i + 1 && #[trigger] yset.contains(y) && same_pair(
                        #[trigger] items@[k]@,
                        y,
                    ) implies !difference_set(acc).contains(y) by {
                    if k == i {
                        assert(has_partner(items@[k]@, yset));
                    }
                }
            }
        }
    }
    proof {
        if partners_unique(xset, yset) {
            let target = yset.filter(|y: DifferenceView| !has_partner(y, xset));
            assert forall|y: DifferenceView|
                #![trigger difference_set(acc).contains(y)]
                #![trigger target.contains(y)]
                difference_set(acc).contains(y) <==> target.contains(y) by {
                if yset.contains(y) && has_partner(y, xset) {
                    let x = choose|x: DifferenceView| #[trigger] xset.contains(x) && same_pair(y, x);
                    let k = choose|k: int| 0 <= k < items.len() && #[trigger] items@[k]@ == x;
                    assert(same_pair(items@[k]@, y));
                }
            }
            assert(difference_set(acc) =~= yset.filter(|y: DifferenceView| !has_partner(y, xset)));
        }
    }
    acc
}


/// The candidates that the merge may keep for `x`: `x` itself where it has no
/// partner in `ys`, else the preferred one of `x` and some partner.
pub open spec fn merge_candidate(d: DifferenceView, x: DifferenceView, ys: Set<DifferenceView>) -> bool {
    (!has_partner(x, ys) && d == x) || exists|y: DifferenceView|
        #[trigger] ys.contains(y) && same_pair(x, y) && d == preferred(x, y)
}

/// The elements of `s`, as a set.
pub open spec fn seq_elements(s: Seq<DifferenceView>) -> Set<DifferenceView> {
    Set::new(|d: DifferenceView| exists|j: int| 0 <= j < s.len() && s[j] == d)
}

/// `items` lists exactly the elements of `set`.
pub open spec fn lists(items: Seq<DifferenceView>, set: Set<DifferenceView>) -> bool {
    &&& forall|k: int| 0 <= k < items.len() ==> set.contains(#[trigger] items[k])
    &&& forall|x: DifferenceView| set.contains(x) ==> exists|k: int| 0 <= k < items.len() && #[trigger] items[k] == x
}

proof fn lemma_merge_parts(
    aset: Set<DifferenceView>,
    bset: Set<DifferenceView>,
    items: Seq<DifferenceView>,
    chosen: Seq<DifferenceView>,
    rest: Set<DifferenceView>,
)
    requires
        lists(items, aset),
        chosen.len() == items.len(),
        forall|j: int| 0 <= j < chosen.len() ==> merge_candidate(#[trigger] chosen[j], items[j], bset),
        rest.subset_of(bset),
        forall|y: DifferenceView| #[trigger] bset.contains(y) && !rest.contains(y) ==> has_partner(y, aset),
        forall|y: DifferenceView| #[trigger] bset.contains(y) && !has_partner(y, aset) ==> rest.contains(y),
        partners_unique(aset, bset) ==> rest == bset.filter(|y: DifferenceView| !has_partner(y, aset)),
    ensures
        ({
            let r = seq_elements(chosen).union(rest);
            &&& r.subset_of(aset.union(bset))
            &&& forall|d: DifferenceView| #[trigger] r.contains(d) ==> bset.contains(d) || exists|x: DifferenceView|
                #[trigger] aset.contains(x) && merge_candidate(d, x, bset)
            &&& forall|x: DifferenceView| #[trigger] aset.contains(x) && !has_partner(x, bset) ==> r.contains(x)
            &&& forall|y: DifferenceView| #[trigger] bset.contains(y) && !has_partner(y, aset) ==> r.contains(y)
            &&& forall|x: DifferenceView| #[trigger] aset.contains(x) && has_partner(x, bset) ==> exists|y: DifferenceView|
                    #[trigger] bset.contains(y) && same_pair(x, y) && r.contains(preferred(x, y))
            &&& partners_unique(aset, bset) ==> r == spec_merge(aset, bset)
        }),
{
    let r = seq_elements(chosen).union(rest);
    assert forall|d: DifferenceView| #[trigger] r.contains(d) implies aset.union(bset).contains(d) && (
    bset.contains(d) || exists|x: DifferenceView| #[trigger] aset.contains(x) && merge_candidate(d, x, bset)) by {
        if seq_elements(chosen).contains(d) {
            let j = choose|j: int| 0 <= j < chosen.len() && chosen[j] == d;
            assert(merge_candidate(chosen[j], items[j], bset));
            assert(aset.contains(items[j]));
            if !(!has_partner(items[j], bset) && d == items[j]) {
                let y = choose|y: DifferenceView|
                    #[trigger] bset.contains(y) && same_pair(items[j], y) && d == preferred(items[j], y);
            }
        }
    }
    assert forall|x: DifferenceView| #[trigger] aset.contains(x) && !has_partner(x, bset) implies r.contains(x) by {
        let k = choose|k: int| 0 <= k < items.len() && #[trigger] items[k] == x;
        assert(merge_candidate(chosen[k], items[k], bset));
        assert(seq_elements(chosen).contains(chosen[k]));
    }
    assert forall|x: DifferenceView| #[trigger] aset.contains(x) && has_partner(x, bset) implies exists|y: DifferenceView|
        #[trigger] bset.contains(y) && same_pair(x, y) && r.contains(preferred(x, y)) by {
        let k = choose|k: int| 0 <= k < items.len() && #[trigger] items[k] == x;
        assert(merge_candidate(chosen[k], items[k], bset));
        assert(seq_elements(chosen).contains(chosen[k]));
        let y = choose|y: DifferenceView|
            #[trigger] bset.contains(y) && same_pair(x, y) && chosen[k] == preferred(x, y);
        assert(r.contains(preferred(x, y)));
    }
    if partners_unique(aset, bset) {
        let target = spec_merge(aset, bset);
        let resolved_a = aset.map(|x: DifferenceView| resolved(x, bset));
        assert forall|d: DifferenceView|
            #![trigger r.contains(d)]
            #![trigger target.contains(d)]
            r.contains(d) <==> target.contains(d) by {
            if seq_elements(chosen).contains(d) {
                let j = choose|j: int| 0 <= j < chosen.len() && chosen[j] == d;
                let x = items[j];
                assert(merge_candidate(chosen[j], x, bset));
                assert(aset.contains(x));
                if has_partner(x, bset) {
                    let y = choose|y: DifferenceView|
                        #[trigger] bset.contains(y) && same_pair(x, y) && d == preferred(x, y);
                    let p = partner(x, bset);
                    assert(bset.contains(p) && same_pair(x, p));
                    assert(y == p);
                }
                assert(d == resolved(x, bset));
                assert(resolved_a.contains(d));
            }
            if resolved_a.contains(d) {
                let x = choose|x: DifferenceView| aset.contains(x) && #[trigger] resolved(x, bset) == d;
                let k = choose|k: int| 0 <= k < items.len() && #[trigger] items[k] == x;
                let e = chosen[k];
                assert(merge_candidate(e, items[k], bset));
                if has_partner(x, bset) {
                    let y = choose|y: DifferenceView|
                        #[trigger] bset.contains(y) && same_pair(x, y) && e == preferred(x, y);
                    let p = partner(x, bset);
                    assert(bset.contains(p) && same_pair(x, p));
                    assert(y == p);
                }
                assert(seq_elements(chosen).contains(e));
            }
        }
        assert(r =~= target);
    }
}

/// Merges the differences found from one side (`a`) with those found from the
/// other (`b`). Where both touch the same pair of files, a deletion wins, then
/// the later event, then `a`'s; all other differences of both sides are kept.
pub fn merge_diffs(a: im::HashSet<Difference>, b: im::HashSet<Difference>) -> (r: im::HashSet<
    Difference,
>)
    ensures
        difference_set(r).subset_of(difference_set(a).union(difference_set(b))),
        forall|d: DifferenceView|
            #[trigger] difference_set(r).contains(d) ==> difference_set(b).contains(d) || exists|
                x: DifferenceView,
            |
                #[trigger] difference_set(a).contains(x) && merge_candidate(d, x, difference_set(b)),
        forall|x: DifferenceView|
            #[trigger] difference_set(a).contains(x) && has_partner(x, difference_set(b))
                && difference_set(r).contains(x) ==> difference_set(b).contains(x) || exists|
                y: DifferenceView,
            | #[trigger] difference_set(b).contains(y) && same_pair(x, y) && preferred(x, y) == x,
        forall|x: DifferenceView|
            #[trigger] difference_set(a).contains(x) && !has_partner(x, difference_set(b))
                ==> difference_set(r).contains(x),
        forall|y: DifferenceView|
            #[trigger] difference_set(b).contains(y) && !has_partner(y, difference_set(a))
                ==> difference_set(r).contains(y),
        forall|x: DifferenceView|
            #[trigger] difference_set(a).contains(x) && has_partner(x, difference_set(b))
                ==> exists|y: DifferenceView|
                #[trigger] difference_set(b).contains(y) && same_pair(x, y) && difference_set(
                    r,
                ).contains(preferred(x, y)),
        partners_unique(difference_set(a), difference_set(b)) ==> difference_set(r) == spec_merge(
            difference_set(a),
            difference_set(b),
        ),
{
    let ghost aset = difference_set(a);
    let ghost bset = difference_set(b);
    let items = difference_set_items(&a);
    let ghost iv = items@.map_values(|d: Difference| d@);
    let mut acc = difference_set_new();
    let ghost mut chosen: Seq<DifferenceView> = Seq::empty();
    let n = items.len();
    assert(lists(iv, aset)) by {
        assert forall|x: DifferenceView| aset.contains(x) implies exists|k: int| 0 <= k < iv.len() && #[trigger] iv[k] == x by {
            let k = choose|k: int| 0 <= k < items.len() && #[trigger] items@[k]@ == x;
            assert(iv[k] == x);
        }
    }
    assert(difference_set(acc) =~= seq_elements(chosen));
    for i in 0..n
        invariant
            n == items.len(),
            iv == items@.map_values(|d: Difference| d@),
            bset == difference_set(b),
            chosen.len() == i,
            forall|j: int| 0 <= j < i ==> merge_candidate(#[trigger] chosen[j], iv[j], bset),
            difference_set(acc) == seq_elements(chosen),
    {
        let x = items[i].duplicate();
        let ghost xv = x@;
        assert(xv == iv[i as int]);
        let c = match find(&x, &b) {
            Some(y) => {
                let c = if x.event.is_deletion() {
                    x
                } else if y.event.is_deletion() {
                    y
                } else if x.event.get_timestamp() >= y.event.get_timestamp() {
                    x
                } else {
                    y
                };
                proof {
                    assert(merge_candidate(c@, xv, bset));
                }
                c
            },
            None => x,
        };
        let ghost cv = c@;
        difference_set_insert(&mut acc, c);
        proof {
            let old_chosen = chosen;
            chosen = chosen.push(cv);
            assert(chosen[i as int] == cv);
            assert forall|j: int| 0 <= j < i + 1 implies merge_candidate(#[trigger] chosen[j], iv[j], bset) by {
                if j < i {
                    assert(chosen[j] == old_chosen[j]);
                }
            }
            assert forall|d: DifferenceView|
                #![trigger difference_set(acc).contains(d)]
                #![trigger seq_elements(chosen).contains(d)]
                difference_set(acc).contains(d) <==> seq_elements(chosen).contains(d) by {
                if seq_elements(old_chosen).contains(d) {
                    let j = choose|j: int| 0 <= j < old_chosen.len() && old_chosen[j] == d;
                    assert(chosen[j] == d);
                }
                if seq_elements(chosen).contains(d) && d != cv {
                    let j = choose|j: int| 0 <= j < chosen.len() && chosen[j] == d;
                    assert(old_chosen[j] == d);
                }
            }
            assert(difference_set(acc) =~= seq_elements(chosen));
        }
    }
    let rest = unmatched(&a, &b);
    proof {
        lemma_merge_parts(aset, bset, iv, chosen, difference_set(rest));
    }
    let r = difference_set_union(acc, rest);
    proof {
        assert forall|x: DifferenceView|
            #[trigger] aset.contains(x) && has_partner(x, bset) && difference_set(r).contains(x)
                implies bset.contains(x) || exists|y: DifferenceView|
            #[trigger] bset.contains(y) && same_pair(x, y) && preferred(x, y) == x by {
            if !bset.contains(x) {
                let w = choose|w: DifferenceView| #[trigger] aset.contains(w) && merge_candidate(x, w, bset);
                if has_partner(w, bset) {
                    let y = choose|y: DifferenceView|
                        #[trigger] bset.contains(y) && same_pair(w, y) && x == preferred(w, y);
                    if x == w {
                        assert(bset.contains(y) && same_pair(x, y) && preferred(x, y) == x);
                    } else {
                        assert(x == y);
                    }
                } else {
                    assert(x == w);
                }
            }
        }
    }
    r
}

/// The place of `p`, a path under `from_root`, under `to_root`, in normal
/// form. `None` where `p` is not under `from_root`.
pub open spec fn counterpart(p: Seq<char>, from_root: Seq<char>, to_root: Seq<char>) -> Option<
    Seq<char>,
> {
    match spec_replace_with(p, from_root, to_root) {
        Some(q) => Some(normal_form(q)),
        None => None,
    }
}

/// The difference that a file `p` of `from` makes with `to`: `p` brought over
/// to its place under `to`'s root, as its latest event left it, where `to`
/// holds no history for that place or an older one. Both paths are given in
/// normal form, and `to` is looked up by path. `None` where `to` is as recent,
/// or `p` is not under `from`'s root.
pub open spec fn spec_difference_of(p: Seq<char>, from: History, to: History) -> Option<
    DifferenceView,
> {
    let latest = from.entries()[p][0];
    let there = by_path(to.entries());
    match counterpart(p, from.root@, to.root@) {
        Some(dist) => if there.contains_key(dist) {
            if latest.timestamp() > there[dist][0].timestamp() {
                Some(DifferenceView { from: normal_form(p), to: dist, event: latest })
            } else {
                None
            }
        } else {
            Some(DifferenceView { from: normal_form(p), to: dist, event: latest })
        },
        None => None,
    }
}

/// The differences of every file of `from` with `to`.
pub open spec fn spec_differences(from: History, to: History) -> Set<DifferenceView> {
    Set::new(
        |d: DifferenceView|
            exists|p: Seq<char>| #[trigger]
                from.entries().contains_key(p) && spec_difference_of(p, from, to) == Some(d),
    )
}

/// The file `p` of `from` can be compared with `to`: it has an event, lies
/// under `from`'s root, and its counterpart in `to`, if recorded, has an
/// event too.
pub open spec fn file_comparable(p: Seq<char>, from: History, to: History) -> bool {
    &&& from.entries()[p].len() > 0
    &&& under_root(p, from.root@)
    &&& match counterpart(p, from.root@, to.root@) {
        Some(dist) => by_path(to.entries()).contains_key(dist) ==> by_path(to.entries())[dist].len()
            > 0,
        None => true,
    }
}

/// Every file of `from` can be compared with `to`, no two of whose keys name
/// the same path, so that a file's counterpart is found by its path.
pub open spec fn comparable(from: History, to: History) -> bool {
    &&& forall|p: Seq<char>| #[trigger] from.entries().contains_key(p) ==> file_comparable(p, from, to)
    &&& paths_distinct(to.entries())
}

/// The differences that one side holds over the other.
pub struct Differences(pub im::HashSet<Difference>);

impl View for Differences {
    type V = Set<DifferenceView>;

    open spec fn view(&self) -> Set<DifferenceView> {
        difference_set(self.0)
    }
}

impl Differences {
    /// The files of `from` that are missing from `to` or newer than their
    /// counterpart there, each as a difference that brings it over. Paths
    /// are compared as paths: `to` is looked up by the normal form of each
    /// counterpart.
    pub fn new(from: &History, to: &History) -> (d: Differences)
        requires
            comparable(*from, *to),
        ensures
            d@ == spec_differences(*from, *to),
    {
        let index = match index_by_path(&to.histories) {
            Some(ix) => ix,
            None => return Differences(difference_set_new()),
        };
        let items = histories_listing(&from.histories);
        let mut acc = difference_set_new();
        let n = items.len();
        let ghost target = spec_differences(*from, *to);
        assert(difference_set(acc) =~= Set::new(
            |d: DifferenceView|
                exists|j: int| 0 <= j < 0 && spec_difference_of(#[trigger] items@[j].0@, *from, *to) == Some(d),
        ));
        for i in 0..n
            invariant
                n == items.len(),
                comparable(*from, *to),
                history_entries(index) == by_path(to.entries()),
                forall|j: int|
                    0 <= j < items.len() ==> from.entries().contains_key(#[trigger] items@[j].0@)
                        && event_list(items@[j].1) == from.entries()[items@[j].0@],
                difference_set(acc) == Set::new(
                    |d: DifferenceView|
                        exists|j: int|
                            0 <= j < i && spec_difference_of(#[trigger] items@[j].0@, *from, *to) == Some(d),
                ),
        {
            let path = &items[i].0;
            let history = &items[i].1;
            let ghost old_acc = difference_set(acc);
            let ghost this = spec_difference_of(path@, *from, *to);
            proof {
                assert(from.entries().contains_key(path@));
                assert(file_comparable(path@, *from, *to));
            }
            let dist = normalize(History::replace_with(path, &from.root, &to.root).as_str());
            let source = normalize(path.as_str());
            match event_list_front(history) {
                Some(h1) => {
                    match histories_get(&index, &dist) {
                        Some(dist_history) => {
                            proof {
                                assert(by_path(to.entries()).contains_key(dist@));
                            }
                            match event_list_front(&dist_history) {
                                Some(h2) => {
                                    if h1.get_timestamp() > h2.get_timestamp() {
                                        difference_set_insert(
                                            &mut acc,
                                            Difference::new(source, dist, h1),
                                        );
                                    }
                                },
                                None => {},
                            }
                        },
                        None => {
                            difference_set_insert(&mut acc, Difference::new(source, dist, h1));
                        },
                    }
                },
                None => {},
            }
            proof {
                let next = Set::new(
                    |d: DifferenceView|
                        exists|j: int|
                            0 <= j < i + 1 && spec_difference_of(#[trigger] items@[j].0@, *from, *to) == Some(d),
                );
                assert forall|d: DifferenceView| #[trigger] difference_set(acc).contains(d) <==> next.contains(d) by {
                    if old_acc.contains(d) {
                        let j = choose|j: int|
                            0 <= j < i && spec_difference_of(#[trigger] items@[j].0@, *from, *to) == Some(d);
                        assert(0 <= j < i + 1 && spec_difference_of(items@[j].0@, *from, *to) == Some(d));
                    }
                    if next.contains(d) {
                        let j = choose|j: int|
                            0 <= j < i + 1 && spec_difference_of(#[trigger] items@[j].0@, *from, *to) == Some(d);
                        if j < i {
                            assert(old_acc.contains(d));
                        }
                    }
                }
                assert(difference_set(acc) =~= next);
            }
        }
        proof {
            assert forall|d: DifferenceView| #[trigger] difference_set(acc).contains(d) <==> target.contains(d) by {
                if target.contains(d) {
                    let p = choose|p: Seq<char>| #[trigger]
                        from.entries().contains_key(p) && spec_difference_of(p, *from, *to) == Some(d);
                    let k = choose|k: int| 0 <= k < items.len() && #[trigger] items@[k].0@ == p;
                    assert(0 <= k < n && spec_difference_of(items@[k].0@, *from, *to) == Some(d));
                }
                if difference_set(acc).contains(d) {
                    let j = choose|j: int|
                        0 <= j < n && spec_difference_of(#[trigger] items@[j].0@, *from, *to) == Some(d);
                    assert(from.entries().contains_key(items@[j].0@));
                }
            }
            assert(difference_set(acc) =~= target);
        }
        Differences(acc)
    }
}

impl Differences {
    /// `new` where every file of `from` can be compared with `to`, else
    /// `None`.
    pub fn try_new(from: &History, to: &History) -> (r: Option<Differences>)
        ensures
            r is Some <==> comparable(*from, *to),
            r matches Some(d) ==> d@ == spec_differences(*from, *to),
    {
        let index = match index_by_path(&to.histories) {
            Some(ix) => ix,
            None => return None,
        };
        let items = histories_listing(&from.histories);
        let n = items.len();
        for i in 0..n
            invariant
                n == items.len(),
                paths_distinct(to.entries()),
                history_entries(index) == by_path(to.entries()),
                forall|j: int|
                    0 <= j < items.len() ==> from.entries().contains_key(#[trigger] items@[j].0@)
                        && event_list(items@[j].1) == from.entries()[items@[j].0@],
                forall|j: int| 0 <= j < i ==> file_comparable(#[trigger] items@[j].0@, *from, *to),
        {
            let path = &items[i].0;
            proof {
                assert(from.entries().contains_key(path@));
            }
            if event_list_front(&items[i].1).is_none() {
                return None;
            }
            match History::try_replace_with(path, &from.root, &to.root) {
                None => {
                    return None;
                },
                Some(place) => {
                    let dist = normalize(place.as_str());
                    match histories_get(&index, &dist) {
                        Some(dist_history) => {
                            if event_list_front(&dist_history).is_none() {
                                return None;
                            }
                        },
                        None => {},
                    }
                },
            }
        }
        proof {
            assert forall|p: Seq<char>| #[trigger]
                from.entries().contains_key(p) implies file_comparable(p, *from, *to) by {
                let k = choose|k: int| 0 <= k < items.len() && #[trigger] items@[k].0@ == p;
                assert(file_comparable(items@[k].0@, *from, *to));
            }
        }
        Some(Differences::new(from, to))
    }

    /// Merges these differences with those found from the other side, as
    /// `merge_diffs` does.
    pub fn merge_with(&self, to: Differences) -> (r: Differences)
        ensures
            r@.subset_of(self@.union(to@)),
            forall|d: DifferenceView|
                #[trigger] r@.contains(d) ==> to@.contains(d) || exists|x: DifferenceView|
                    #[trigger] self@.contains(x) && merge_candidate(d, x, to@),
            forall|x: DifferenceView|
                #[trigger] self@.contains(x) && has_partner(x, to@) && r@.contains(x) ==> to@.contains(x)
                    || exists|y: DifferenceView|
                    #[trigger] to@.contains(y) && same_pair(x, y) && preferred(x, y) == x,
            forall|x: DifferenceView|
                #[trigger] self@.contains(x) && !has_partner(x, to@) ==> r@.contains(x),
            forall|y: DifferenceView|
                #[trigger] to@.contains(y) && !has_partner(y, self@) ==> r@.contains(y),
            forall|x: DifferenceView|
                #[trigger] self@.contains(x) && has_partner(x, to@) ==> exists|y: DifferenceView|
                    #[trigger] to@.contains(y) && same_pair(x, y) && r@.contains(preferred(x, y)),
            partners_unique(self@, to@) ==> r@ == spec_merge(self@, to@),
    {
        Differences(merge_diffs(difference_set_clone(&self.0), difference_set_clone(&to.0)))
    }

    /// Every difference once, in an unstated order.
    pub fn items(&self) -> (r: Vec<Difference>)
        ensures
            forall|i: int| 0 <= i < r.len() ==> self@.contains(#[trigger] r@[i]@),
            forall|x: DifferenceView|
                self@.contains(x) ==> exists|i: int| 0 <= i < r.len() && #[trigger] r@[i]@ == x,
            forall|i: int, j: int| 0 <= i < j < r.len() ==> #[trigger] r@[i]@ != #[trigger] r@[j]@,
    {
        difference_set_items(&self.0)
    }
}

/// What bringing a difference over does on disk.
pub enum SyncAction {
    /// The file at `target` is removed.
    Remove { target: String },
    /// The file at `source` is copied to `target`, its directory made first.
    Copy { source: String, target: String },
}

impl Difference {
    /// A deletion removes the file on the other side; any other event copies
    /// it over.
    pub fn sync_action(&self) -> (a: SyncAction)
        ensures
            self.event.is_delete() ==> (a matches SyncAction::Remove { target } && target@
                == self.to@),
            !self.event.is_delete() ==> (a matches SyncAction::Copy { source, target } && source@
                == self.from@ && target@ == self.to@),
    {
        if self.event.is_deletion() {
            SyncAction::Remove { target: self.to.clone() }
        } else {
            SyncAction::Copy { source: self.from.clone(), target: self.to.clone() }
        }
    }
}

/// No two differences of `s` concern the same pair of files.
pub open spec fn pair_distinct(s: Set<DifferenceView>) -> bool {
    forall|y1: DifferenceView, y2: DifferenceView|
        #![trigger s.contains(y1), s.contains(y2)]
        s.contains(y1) && s.contains(y2) && same_pair(y1, y2) ==> y1 == y2
}

/// Concerning the same pair of files is an equivalence.
pub proof fn lemma_same_pair_equivalence(x: DifferenceView, y: DifferenceView, z: DifferenceView)
    ensures
        same_pair(x, x),
        same_pair(x, y) ==> same_pair(y, x),
        same_pair(x, y) && same_pair(y, z) ==> same_pair(x, z),
        same_pair(x, preferred(x, y)) || same_pair(y, preferred(x, y)),
        preferred(x, y) == x || preferred(x, y) == y,
{
}

/// Where the differences of one side concern distinct pairs of files, no
/// difference of the other side has two partners among them.
pub proof fn law_partners_unique(a: Set<DifferenceView>, b: Set<DifferenceView>)
    requires
        pair_distinct(b),
    ensures
        partners_unique(a, b),
{
    assert forall|x: DifferenceView, y1: DifferenceView, y2: DifferenceView|
        #![trigger a.contains(x), b.contains(y1), b.contains(y2)]
        a.contains(x) && b.contains(y1) && b.contains(y2) && same_pair(x, y1) && same_pair(x, y2)
            implies y1 == y2 by {
        lemma_same_pair_equivalence(y1, x, y2);
        lemma_same_pair_equivalence(x, y1, y2);
    }
}

/// A difference resolves to one on the same pair of files.
proof fn lemma_resolved_same_pair(x: DifferenceView, ys: Set<DifferenceView>)
    ensures
        same_pair(x, resolved(x, ys)),
        resolved(x, ys) == x || ys.contains(resolved(x, ys)),
{
    if has_partner(x, ys) {
        let p = partner(x, ys);
        assert(ys.contains(p) && same_pair(x, p));
        lemma_same_pair_equivalence(x, p, p);
        lemma_same_pair_equivalence(p, x, x);
    }
}

/// A difference of `a` that is not the one the merge keeps for its own pair
/// is not in the merge, where each side concerns distinct pairs of files.
proof fn lemma_merge_excludes(a: Set<DifferenceView>, b: Set<DifferenceView>, x: DifferenceView, w: DifferenceView)
    requires
        pair_distinct(a),
        pair_distinct(b),
        a.contains(x) || b.contains(x),
        same_pair(x, w),
        spec_merge(a, b).contains(w),
    ensures
        a.contains(x) ==> w == resolved(x, b),
        b.contains(x) && has_partner(x, a) ==> w == resolved(partner(x, a), b),
        b.contains(x) && !has_partner(x, a) ==> w == x,
{
    law_partners_unique(a, b);
    if a.map(|z: DifferenceView| resolved(z, b)).contains(w) {
        let z = choose|z: DifferenceView| a.contains(z) && #[trigger] resolved(z, b) == w;
        lemma_resolved_same_pair(z, b);
        lemma_same_pair_equivalence(z, w, x);
        lemma_same_pair_equivalence(w, x, x);
        lemma_same_pair_equivalence(z, x, x);
        if a.contains(x) {
            assert(z == x);
        }
        if b.contains(x) {
            assert(has_partner(x, a)) by {
                lemma_same_pair_equivalence(x, z, z);
            }
            let p = partner(x, a);
            assert(a.contains(p) && same_pair(x, p));
            lemma_same_pair_equivalence(z, x, p);
            assert(z == p);
        }
    } else {
        assert(b.contains(w) && !has_partner(w, a));
        if a.contains(x) {
            lemma_same_pair_equivalence(w, x, x);
            assert(has_partner(w, a));
        }
        if b.contains(x) {
            assert(w == x);
        }
    }
}

/// A deletion on one side wins over a creation or change of the same pair of
/// files on the other: the merge keeps the deletion and drops the other.
pub proof fn law_merge_deletion_wins(
    a: Set<DifferenceView>,
    b: Set<DifferenceView>,
    x: DifferenceView,
    y: DifferenceView,
)
    requires
        pair_distinct(a),
        pair_distinct(b),
        a.contains(x),
        b.contains(y),
        same_pair(x, y),
        x.event.is_delete() != y.event.is_delete(),
    ensures
        x.event.is_delete() ==> spec_merge(a, b).contains(x) && !spec_merge(a, b).contains(y),
        y.event.is_delete() ==> spec_merge(a, b).contains(y) && !spec_merge(a, b).contains(x),
{
    law_partners_unique(a, b);
    let p = partner(x, b);
    assert(b.contains(p) && same_pair(x, p));
    assert(p == y);
    assert(resolved(x, b) == preferred(x, y));
    assert(a.map(|z: DifferenceView| resolved(z, b)).contains(resolved(x, b)));
    lemma_same_pair_equivalence(x, y, y);
    lemma_same_pair_equivalence(y, x, x);
    if spec_merge(a, b).contains(y) {
        lemma_merge_excludes(a, b, x, y);
    }
    if spec_merge(a, b).contains(x) {
        lemma_merge_excludes(a, b, x, x);
    }
}

/// Between a creation or change on each side of the same pair of files, the
/// merge keeps the later one and drops the other.
pub proof fn law_merge_later_wins(
    a: Set<DifferenceView>,
    b: Set<DifferenceView>,
    x: DifferenceView,
    y: DifferenceView,
)
    requires
        pair_distinct(a),
        pair_distinct(b),
        a.contains(x),
        b.contains(y),
        same_pair(x, y),
        !x.event.is_delete(),
        !y.event.is_delete(),
        x.event.timestamp() != y.event.timestamp(),
    ensures
        x.event.timestamp() > y.event.timestamp() ==> spec_merge(a, b).contains(x)
            && !spec_merge(a, b).contains(y),
        y.event.timestamp() > x.event.timestamp() ==> spec_merge(a, b).contains(y)
            && !spec_merge(a, b).contains(x),
{
    law_partners_unique(a, b);
    let p = partner(x, b);
    assert(b.contains(p) && same_pair(x, p));
    assert(p == y);
    assert(resolved(x, b) == preferred(x, y));
    assert(a.map(|z: DifferenceView| resolved(z, b)).contains(resolved(x, b)));
    lemma_same_pair_equivalence(x, y, y);
    lemma_same_pair_equivalence(y, x, x);
    if spec_merge(a, b).contains(y) {
        lemma_merge_excludes(a, b, x, y);
    }
    if spec_merge(a, b).contains(x) {
        lemma_merge_excludes(a, b, x, x);
    }
}

/// Where each side concerns distinct pairs of files, the merge concerns every
/// pair of files that either side does, each exactly once.
pub proof fn law_merge_each_pair_once(a: Set<DifferenceView>, b: Set<DifferenceView>)
    requires
        pair_distinct(a),
        pair_distinct(b),
    ensures
        pair_distinct(spec_merge(a, b)),
        forall|z: DifferenceView| #[trigger] a.contains(z) ==> has_partner(z, spec_merge(a, b)),
        forall|z: DifferenceView| #[trigger] b.contains(z) ==> has_partner(z, spec_merge(a, b)),
{
    let m = spec_merge(a, b);
    law_partners_unique(a, b);
    assert forall|y1: DifferenceView, y2: DifferenceView|
        #![trigger m.contains(y1), m.contains(y2)]
        m.contains(y1) && m.contains(y2) && same_pair(y1, y2) implies y1 == y2 by {
        assert(m.subset_of(a.union(b))) by {
            assert forall|w: DifferenceView| #[trigger] m.contains(w) implies a.union(b).contains(w) by {
                if a.map(|z: DifferenceView| resolved(z, b)).contains(w) {
                    let z = choose|z: DifferenceView| a.contains(z) && #[trigger] resolved(z, b) == w;
                    lemma_resolved_same_pair(z, b);
                }
            }
        }
        lemma_same_pair_equivalence(y1, y2, y2);
        lemma_same_pair_equivalence(y2, y1, y1);
        if a.contains(y1) {
            lemma_merge_excludes(a, b, y1, y1);
            lemma_merge_excludes(a, b, y1, y2);
        } else {
            if has_partner(y1, a) {
                lemma_merge_excludes(a, b, y1, y1);
                lemma_merge_excludes(a, b, y1, y2);
            } else {
                lemma_merge_excludes(a, b, y1, y1);
                lemma_merge_excludes(a, b, y1, y2);
            }
        }
    }
    assert forall|z: DifferenceView| #[trigger] a.contains(z) implies has_partner(z, m) by {
        lemma_resolved_same_pair(z, b);
        assert(a.map(|w: DifferenceView| resolved(w, b)).contains(resolved(z, b)));
        assert(m.contains(resolved(z, b)));
    }
    assert forall|z: DifferenceView| #[trigger] b.contains(z) implies has_partner(z, m) by {
        if has_partner(z, a) {
            let x = partner(z, a);
            assert(a.contains(x) && same_pair(z, x));
            lemma_resolved_same_pair(x, b);
            assert(a.map(|w: DifferenceView| resolved(w, b)).contains(resolved(x, b)));
            lemma_same_pair_equivalence(z, x, resolved(x, b));
            assert(m.contains(resolved(x, b)));
        } else {
            lemma_same_pair_equivalence(z, z, z);
            assert(m.contains(z));
        }
    }
}

/// Merging with no differences from the other side, in either order, keeps
/// the differences as they are.
pub proof fn law_merge_with_nothing(a: Set<DifferenceView>)
    ensures
        spec_merge(a, Set::empty()) == a,
        spec_merge(Set::empty(), a) == a,
{
    let e = Set::<DifferenceView>::empty();
    assert forall|x: DifferenceView| #[trigger] a.contains(x) implies resolved(x, e) == x by {}
    let ra = a.map(|x: DifferenceView| resolved(x, e));
    assert(ra =~= a) by {
        assert forall|d: DifferenceView| #[trigger] ra.contains(d) implies a.contains(d) by {
            let x = choose|x: DifferenceView| a.contains(x) && #[trigger] resolved(x, e) == d;
        }
        assert forall|d: DifferenceView| #[trigger] a.contains(d) implies ra.contains(d) by {
            assert(resolved(d, e) == d);
        }
    }
    assert(e.filter(|y: DifferenceView| !has_partner(y, a)) =~= e);
    assert(spec_merge(a, e) =~= a);
    assert(e.map(|x: DifferenceView| resolved(x, a)) =~= e);
    assert(a.filter(|y: DifferenceView| !has_partner(y, e)) =~= a);
    assert(spec_merge(e, a) =~= a);
}

/// A tree never differs from itself: where every file of a history can be
/// compared with the history itself, there is no difference.
pub proof fn law_no_difference_with_itself(h: History)
    requires
        comparable(h, h),
    ensures
        spec_differences(h, h) == Set::<DifferenceView>::empty(),
{
    assert forall|d: DifferenceView| !#[trigger] spec_differences(h, h).contains(d) by {
        if spec_differences(h, h).contains(d) {
            let p = choose|p: Seq<char>| #[trigger]
                h.entries().contains_key(p) && spec_difference_of(p, h, h) == Some(d);
            assert(file_comparable(p, h, h));
            let rel = path_strip_prefix(p, h.root@)->0;
            law_same_path_same_normal_form(spec_join(h.root@, rel), p);
            assert(counterpart(p, h.root@, h.root@) == Some(normal_form(p)));
            lemma_by_path(h.entries(), p);
        }
    }
    assert(spec_differences(h, h) =~= Set::<DifferenceView>::empty());
}

/// Where the rests that `strip_prefix` gives are relative, a file's
/// counterpart has the file as its own counterpart.
proof fn lemma_counterpart_back(a: History, b: History, p: Seq<char>, q: Seq<char>)
    requires
        under_root(p, a.root@),
        under_root(q, b.root@),
        a.root@.len() > 0,
        b.root@.len() > 0,
        !is_absolute(path_strip_prefix(p, a.root@)->0),
        !is_absolute(path_strip_prefix(q, b.root@)->0),
        counterpart(p, a.root@, b.root@) == Some(normal_form(q)),
    ensures
        counterpart(q, b.root@, a.root@) == Some(normal_form(p)),
{
    let rel = path_strip_prefix(p, a.root@)->0;
    let rel2 = path_strip_prefix(q, b.root@)->0;
    let there = spec_join(b.root@, rel);
    law_normal_form_is_normal(there);
    law_normal_form_is_normal(q);
    assert(same_path(there, q));
    lemma_components_of_join(b.root@, rel);
    lemma_components_of_join(b.root@, rel2);
    lemma_components_of_join(a.root@, rel);
    lemma_components_of_join(a.root@, rel2);
    let cb = path_components(b.root@);
    let n1 = named_pieces(segments(rel));
    let n2 = named_pieces(segments(rel2));
    assert(cb + n1 == cb + n2);
    assert(n1 =~= (cb + n1).subrange(cb.len() as int, (cb + n1).len() as int));
    assert(n2 =~= (cb + n2).subrange(cb.len() as int, (cb + n2).len() as int));
    assert(same_path(spec_join(a.root@, rel2), p));
    law_same_path_same_normal_form(spec_join(a.root@, rel2), p);
}

/// Of a file and its counterpart on the other side, at most one differs from
/// the other: the newer one. Where their latest events carry the same time,
/// neither does. This holds where both histories can be compared with each
/// other, their roots are not empty, and the rests that `strip_prefix` gives
/// for the two paths are relative.
pub proof fn law_one_direction_per_pair(a: History, b: History, p: Seq<char>, q: Seq<char>)
    requires
        comparable(a, b),
        comparable(b, a),
        a.root@.len() > 0,
        b.root@.len() > 0,
        a.entries().contains_key(p),
        b.entries().contains_key(q),
        counterpart(p, a.root@, b.root@) == Some(normal_form(q)),
        !is_absolute(path_strip_prefix(p, a.root@)->0),
        !is_absolute(path_strip_prefix(q, b.root@)->0),
    ensures
        !((exists|d: DifferenceView| #[trigger] spec_differences(a, b).contains(d) && d.from
            == normal_form(p)) && (exists|d: DifferenceView| #[trigger] spec_differences(
            b,
            a,
        ).contains(d) && d.from == normal_form(q))),
        a.entries()[p][0].timestamp() == b.entries()[q][0].timestamp() ==> !(exists|d: DifferenceView|
            #[trigger] spec_differences(a, b).contains(d) && d.from == normal_form(p)) && !(exists|
            d: DifferenceView,
        | #[trigger] spec_differences(b, a).contains(d) && d.from == normal_form(q)),
{
    assert(file_comparable(p, a, b));
    assert(file_comparable(q, b, a));
    lemma_counterpart_back(a, b, p, q);
    lemma_by_path(a.entries(), p);
    lemma_by_path(b.entries(), q);
    assert forall|d: DifferenceView| #[trigger] spec_differences(a, b).contains(d) && d.from
        == normal_form(p) implies a.entries()[p][0].timestamp() > b.entries()[q][0].timestamp() by {
        let w = choose|w: Seq<char>| #[trigger]
            a.entries().contains_key(w) && spec_difference_of(w, a, b) == Some(d);
        assert(normal_form(w) == normal_form(p));
        assert(w == p);
    }
    assert forall|d: DifferenceView| #[trigger] spec_differences(b, a).contains(d) && d.from
        == normal_form(q) implies b.entries()[q][0].timestamp() > a.entries()[p][0].timestamp() by {
        let w = choose|w: Seq<char>| #[trigger]
            b.entries().contains_key(w) && spec_difference_of(w, b, a) == Some(d);
        assert(normal_form(w) == normal_form(q));
        assert(w == q);
    }
}

/// No difference of `xs` has a partner in `ys` with the same time stamp, nor
/// one that deletes where it deletes too.
pub open spec fn no_ties(xs: Set<DifferenceView>, ys: Set<DifferenceView>) -> bool {
    forall|x: DifferenceView, y: DifferenceView|
        #![trigger xs.contains(x), ys.contains(y)]
        xs.contains(x) && ys.contains(y) && same_pair(x, y) ==> x.event.timestamp()
            != y.event.timestamp() && !(x.event.is_delete() && y.event.is_delete())
}

/// Each difference of the merge of `a` with `b` is in the merge of `b` with
/// `a`, where there are no ties.
proof fn lemma_merge_within_swapped(a: Set<DifferenceView>, b: Set<DifferenceView>)
    requires
        pair_distinct(a),
        pair_distinct(b),
        no_ties(a, b),
    ensures
        spec_merge(a, b).subset_of(spec_merge(b, a)),
{
    let ra = |x: DifferenceView| resolved(x, b);
    let rb = |y: DifferenceView| resolved(y, a);
    assert forall|d: DifferenceView| #[trigger] spec_merge(a, b).contains(d) implies spec_merge(
        b,
        a,
    ).contains(d) by {
        if a.map(ra).contains(d) {
            let x = choose|x: DifferenceView| a.contains(x) && #[trigger] ra(x) == d;
            if has_partner(x, b) {
                let y = partner(x, b);
                assert(b.contains(y) && same_pair(x, y));
                lemma_same_pair_equivalence(x, y, x);
                assert(has_partner(y, a));
                let w = partner(y, a);
                assert(a.contains(w) && same_pair(y, w));
                lemma_same_pair_equivalence(x, y, w);
                assert(w == x);
                assert(preferred(y, x) == preferred(x, y));
                assert(rb(y) == d);
                assert(b.map(rb).contains(d));
            } else {
                assert(d == x);
                assert(a.filter(|w: DifferenceView| !has_partner(w, b)).contains(d));
            }
        } else {
            assert(b.contains(d) && !has_partner(d, a));
            assert(rb(d) == d);
            assert(b.map(rb).contains(d));
        }
    }
}

/// Where each side concerns distinct pairs of files and no pair is a tie (the
/// same time stamp, or a deletion on both sides), the merge does not depend
/// on which side comes first.
pub proof fn law_merge_commutes(a: Set<DifferenceView>, b: Set<DifferenceView>)
    requires
        pair_distinct(a),
        pair_distinct(b),
        no_ties(a, b),
    ensures
        spec_merge(a, b) == spec_merge(b, a),
{
    assert forall|y: DifferenceView, x: DifferenceView|
        #![trigger b.contains(y), a.contains(x)]
        b.contains(y) && a.contains(x) && same_pair(y, x) implies y.event.timestamp()
            != x.event.timestamp() && !(y.event.is_delete() && x.event.is_delete()) by {
        lemma_same_pair_equivalence(y, x, y);
    }
    assert(no_ties(b, a));
    lemma_merge_within_swapped(a, b);
    lemma_merge_within_swapped(b, a);
    assert(spec_merge(a, b) =~= spec_merge(b, a));
}

/// Two differences concern the same pair of files exactly when they join the
/// same two paths, compared whole in normal form, in one direction or the
/// other. Differences on files that only share a name are not partners.
pub proof fn law_same_pair_by_whole_paths(x: DifferenceView, y: DifferenceView)
    ensures
        same_pair(x, y) <==> (normal_form(x.from) == normal_form(y.from) && normal_form(x.to)
            == normal_form(y.to)) || (normal_form(x.from) == normal_form(y.to) && normal_form(x.to)
            == normal_form(y.from)),
        same_pair(x, y) ==> set![normal_form(x.from), normal_form(x.to)] == set![
            normal_form(y.from),
            normal_form(y.to),
        ],
{
    if same_pair(x, y) {
        assert(set![normal_form(x.from), normal_form(x.to)] =~= set![
            normal_form(y.from),
            normal_form(y.to),
        ]);
    }
}

/// A file of `from` whose counterpart `q` in `to` is older brings its latest
/// event over, whatever kind of event that is: a deletion as much as a
/// creation or a change. Only the time stamps are compared.
pub proof fn law_newer_file_differs(from: History, to: History, p: Seq<char>, q: Seq<char>)
    requires
        from.entries().contains_key(p),
        to.entries().contains_key(q),
        paths_distinct(to.entries()),
        path_strip_prefix(p, from.root@) is Some,
        normal_form(q) == normal_form(spec_join(to.root@, path_strip_prefix(p, from.root@)->0)),
        from.entries()[p][0].timestamp() > to.entries()[q][0].timestamp(),
    ensures
        spec_differences(from, to).contains(
            DifferenceView { from: normal_form(p), to: normal_form(q), event: from.entries()[p][0] },
        ),
{
    lemma_by_path(to.entries(), q);
    let d = DifferenceView { from: normal_form(p), to: normal_form(q), event: from.entries()[p][0] };
    assert(spec_difference_of(p, from, to) == Some(d));
    assert(from.entries().contains_key(p) && spec_difference_of(p, from, to) == Some(d));
}

/// A file of `from` that has no counterpart in `to` is brought over with its
/// latest event, whatever kind of event that is.
pub proof fn law_missing_file_differs(from: History, to: History, p: Seq<char>)
    requires
        from.entries().contains_key(p),
        path_strip_prefix(p, from.root@) is Some,
        forall|q: Seq<char>|
            #[trigger] to.entries().contains_key(q) ==> normal_form(q) != normal_form(
                spec_join(to.root@, path_strip_prefix(p, from.root@)->0),
            ),
    ensures
        spec_differences(from, to).contains(
            DifferenceView {
                from: normal_form(p),
                to: normal_form(spec_join(to.root@, path_strip_prefix(p, from.root@)->0)),
                event: from.entries()[p][0],
            },
        ),
{
    let dist = normal_form(spec_join(to.root@, path_strip_prefix(p, from.root@)->0));
    assert(!by_path(to.entries()).contains_key(dist));
    let d = DifferenceView { from: normal_form(p), to: dist, event: from.entries()[p][0] };
    assert(spec_difference_of(p, from, to) == Some(d));
    assert(from.entries().contains_key(p) && spec_difference_of(p, from, to) == Some(d));
}

/// Every difference comes from a file of `from` under its root, carries that
/// file's latest event to its place under `to`'s root, and is there only
/// where `to` records nothing at that place or something older.
pub proof fn law_differences_come_from_newer_files(from: History, to: History, d: DifferenceView)
    requires
        paths_distinct(to.entries()),
        spec_differences(from, to).contains(d),
    ensures
        exists|p: Seq<char>|
            #[trigger] from.entries().contains_key(p) && path_strip_prefix(p, from.root@) is Some
                && d.from == normal_form(p) && d.event == from.entries()[p][0] && d.to == normal_form(
                spec_join(to.root@, path_strip_prefix(p, from.root@)->0),
            ) && forall|q: Seq<char>|
                #[trigger] to.entries().contains_key(q) && normal_form(q) == d.to ==> from.entries()[p][0].timestamp()
                    > to.entries()[q][0].timestamp(),
{
    let p = choose|p: Seq<char>| #[trigger]
        from.entries().contains_key(p) && spec_difference_of(p, from, to) == Some(d);
    assert forall|q: Seq<char>|
        #[trigger] to.entries().contains_key(q) && normal_form(q) == d.to implies from.entries()[p][0].timestamp()
            > to.entries()[q][0].timestamp() by {
        lemma_by_path(to.entries(), q);
    }
}

/// Two histories can be compared wherever every file lies under its root and
/// every history involved has an event; the kind of the latest events plays
/// no part. A deleted file with no counterpart on the other side is as
/// comparable as any other.
pub proof fn law_comparable_when_rooted_and_nonempty(from: History, to: History)
    requires
        forall|p: Seq<char>|
            #[trigger] from.entries().contains_key(p) ==> from.entries()[p].len() > 0 && under_root(
                p,
                from.root@,
            ),
        forall|q: Seq<char>| #[trigger] to.entries().contains_key(q) ==> to.entries()[q].len() > 0,
        paths_distinct(to.entries()),
    ensures
        comparable(from, to),
{
    assert forall|p: Seq<char>| #[trigger] from.entries().contains_key(p) implies file_comparable(
        p,
        from,
        to,
    ) by {
        if let Some(dist) = counterpart(p, from.root@, to.root@) {
            if by_path(to.entries()).contains_key(dist) {
                let k = choose|k: Seq<char>| #[trigger]
                    to.entries().contains_key(k) && normal_form(k) == dist;
                assert(to.entries().contains_key(k));
            }
        }
    }
}

} // verus!
