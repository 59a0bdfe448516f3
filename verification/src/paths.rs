use vstd::prelude::*;

verus! {

// Paths are held as strings. Two strings name the same path when they have
// the same components, as `std::path::Path::components` reads them; the
// library compares paths in their normal form, which `normalize` gives.
// Taking a path apart is left to `std::path`.

/// What `std::path::Path::strip_prefix` gives for `path` and `base`: the rest
/// of `path` after the whole components of `base`, or `None` where `base` is
/// not a prefix of `path` component by component.
pub uninterp spec fn path_strip_prefix(path: Seq<char>, base: Seq<char>) -> Option<Seq<char>>;


/// A path that starts at the root of the file system.
pub open spec fn is_absolute(p: Seq<char>) -> bool {
    p.len() > 0 && p[0] == '/'
}

/// The pieces of `p` between separators, empty pieces included.
pub open spec fn segments(p: Seq<char>) -> Seq<Seq<char>>
    decreases p.len(),
{
    if p.len() == 0 {
        seq![Seq::empty()]
    } else {
        let s = segments(p.drop_last());
        if p.last() == '/' {
            s.push(Seq::empty())
        } else {
            s.update(s.len() - 1, s.last().push(p.last()))
        }
    }
}

/// A piece that names a file or directory: neither empty nor `.`.
pub open spec fn is_named_piece(s: Seq<char>) -> bool {
    s.len() > 0 && s != seq!['.']
}

/// The named pieces among `segs`, in order.
pub open spec fn named_pieces(segs: Seq<Seq<char>>) -> Seq<Seq<char>>
    decreases segs.len(),
{
    if segs.len() == 0 {
        Seq::empty()
    } else {
        let rest = named_pieces(segs.drop_last());
        if is_named_piece(segs.last()) {
            rest.push(segs.last())
        } else {
            rest
        }
    }
}

/// The components of `p` as `Path::components` documents them: the root
/// (written `/`) for an absolute path, a leading `.` for a relative path that
/// starts with one, then every named piece. Repeated separators, `.` pieces
/// elsewhere and a trailing separator are dropped.
pub open spec fn path_components(p: Seq<char>) -> Seq<Seq<char>> {
    let segs = segments(p);
    let body = named_pieces(segs);
    if is_absolute(p) {
        seq![seq!['/']] + body
    } else if segs[0] == seq!['.'] {
        seq![seq!['.']] + body
    } else {
        body
    }
}

/// `base` is a prefix of `path`, whole components only: `Path::starts_with`.
pub open spec fn path_starts_with(path: Seq<char>, base: Seq<char>) -> bool {
    let pc = path_components(path);
    let bc = path_components(base);
    bc.len() <= pc.len() && pc.subrange(0, bc.len() as int) == bc
}

/// `child` is a suffix of `path`, whole components only: `Path::ends_with`.
pub open spec fn path_ends_with(path: Seq<char>, child: Seq<char>) -> bool {
    let pc = path_components(path);
    let cc = path_components(child);
    cc.len() <= pc.len() && pc.subrange(pc.len() - cc.len(), pc.len() as int) == cc
}

/// Two strings name the same path: `Path`'s `==`, component by component.
pub open spec fn same_path(a: Seq<char>, b: Seq<char>) -> bool {
    path_components(a) == path_components(b)
}

/// `rel` adjoined to `base`, as `PathBuf::push` (and so `Path::join`) does on
/// Unix: an absolute `rel` replaces `base`; otherwise `rel` is appended,
/// after a `/` where `base` is non-empty and does not end in one.
pub open spec fn spec_join(base: Seq<char>, rel: Seq<char>) -> Seq<char> {
    if is_absolute(rel) {
        rel
    } else if base.len() > 0 && base.last() != '/' {
        base + seq!['/'] + rel
    } else {
        base + rel
    }
}

/// The path built by pushing each of `cs` in turn onto an empty one.
pub open spec fn render(cs: Seq<Seq<char>>) -> Seq<char>
    decreases cs.len(),
{
    if cs.len() == 0 {
        Seq::empty()
    } else {
        spec_join(render(cs.drop_last()), cs.last())
    }
}

/// The normal form of a path: its components pushed one by one onto an
/// empty path. Strings that name the same path have the same normal form.
pub open spec fn normal_form(p: Seq<char>) -> Seq<char> {
    render(path_components(p))
}

/// A path already in its normal form.
pub open spec fn is_normal(p: Seq<char>) -> bool {
    normal_form(p) == p
}

/// `path` lies under `base`: `base` is a prefix of it, component by
/// component, and the rest joined back onto `base` names `path` again, as the
/// documentation of `Path::strip_prefix` says of every rest it gives.
pub open spec fn under_root(path: Seq<char>, base: Seq<char>) -> bool {
    match path_strip_prefix(path, base) {
        Some(rel) => same_path(spec_join(base, rel), path),
        None => false,
    }
}

/// Calls `std::path::Path::strip_prefix`. The result is the named one; the
/// path is turned back into a string as it came in, so nothing is lost. As
/// the documentation says, there is one exactly where `base` is a prefix of
/// `path` (`Path::starts_with`), and joined onto `base` it gives `path` again.
#[verifier::external_body]
pub(crate) fn strip_prefix(path: &str, base: &str) -> (r: Option<String>)
    ensures
        r is Some <==> path_strip_prefix(path@, base@) is Some,
        r is Some <==> path_starts_with(path@, base@),
        r matches Some(s) ==> path_strip_prefix(path@, base@) == Some(s@) && same_path(
            spec_join(base@, s@),
            path@,
        ),
{
    std::path::Path::new(path).strip_prefix(base).ok().map(|p| p.to_string_lossy().into_owned())
}

/// Calls `std::path::Path::join`, which pushes `rel` onto a copy of `base`.
#[verifier::external_body]
pub(crate) fn join_path(base: &str, rel: &str) -> (r: String)
    ensures
        r@ == spec_join(base@, rel@),
{
    std::path::Path::new(base).join(rel).to_string_lossy().into_owned()
}

/// Calls `std::path::Path::components`, each component as its text: `/` for
/// the root, `.` for a leading current directory, the name otherwise, as the
/// documentation of `components` describes them.
#[verifier::external_body]
fn component_texts(path: &str) -> (r: Vec<String>)
    ensures
        r@.map_values(|c: String| c@) == path_components(path@),
{
    std::path::Path::new(path).components().map(|c| c.as_os_str().to_string_lossy().into_owned()).collect()
}

/// The normal form of `path`: its components pushed one by one onto an empty
/// path, as collecting them into a `PathBuf` does.
pub(crate) fn normalize(path: &str) -> (r: String)
    ensures
        r@ == normal_form(path@),
{
    let pieces = component_texts(path);
    let ghost cs = pieces@.map_values(|c: String| c@);
    let mut acc = String::new();
    let n = pieces.len();
    assert(cs.take(0) =~= Seq::<Seq<char>>::empty());
    for i in 0..n
        invariant
            n == pieces.len(),
            cs == pieces@.map_values(|c: String| c@),
            acc@ == render(cs.take(i as int)),
    {
        assert(cs.take(i + 1).drop_last() =~= cs.take(i as int));
        assert(cs.take(i + 1).last() == pieces@[i as int]@);
        acc = join_path(acc.as_str(), pieces[i].as_str());
    }
    assert(cs.take(n as int) =~= cs);
    acc
}

/// Calls `std::path::Path::ends_with`, which compares whole components from
/// the end.
#[verifier::external_body]
pub(crate) fn ends_with(path: &str, child: &str) -> (r: bool)
    ensures
        r == path_ends_with(path@, child@),
{
    std::path::Path::new(path).ends_with(child)
}

/// Strings with the same components have the same normal form; a path in
/// normal form names the same path as any string with its components.
pub proof fn law_same_path_same_normal_form(a: Seq<char>, b: Seq<char>)
    ensures
        same_path(a, b) ==> normal_form(a) == normal_form(b),
        same_path(a, b) && is_normal(a) && is_normal(b) ==> a == b,
{
}

/// No separator in `s`.
pub open spec fn no_sep(s: Seq<char>) -> bool {
    forall|i: int| 0 <= i < s.len() ==> s[i] != '/'
}

/// Pieces that can follow the first component of a path.
pub open spec fn valid_body(body: Seq<Seq<char>>) -> bool {
    forall|i: int| 0 <= i < body.len() ==> is_named_piece(#[trigger] body[i]) && no_sep(body[i])
}

/// What can come before the named pieces: nothing, the root, or `.`.
pub open spec fn valid_head(head: Seq<Seq<char>>) -> bool {
    head == Seq::<Seq<char>>::empty() || head == seq![seq!['/']] || head == seq![seq!['.']]
}

proof fn lemma_segments_shape(p: Seq<char>)
    ensures
        segments(p).len() >= 1,
        forall|i: int| 0 <= i < segments(p).len() ==> no_sep(#[trigger] segments(p)[i]),
    decreases p.len(),
{
    if p.len() > 0 {
        lemma_segments_shape(p.drop_last());
        let s = segments(p.drop_last());
        if p.last() != '/' {
            assert forall|i: int| 0 <= i < segments(p).len() implies no_sep(#[trigger] segments(p)[i]) by {
                if i == s.len() - 1 {
                    assert(no_sep(s.last()));
                    assert forall|j: int| 0 <= j < segments(p)[i].len() implies segments(p)[i][j] != '/' by {
                        if j < s.last().len() {
                            assert(segments(p)[i][j] == s.last()[j]);
                        }
                    }
                }
            }
        } else {
            assert forall|i: int| 0 <= i < segments(p).len() implies no_sep(#[trigger] segments(p)[i]) by {
                if i < s.len() {
                    assert(segments(p)[i] == s[i]);
                }
            }
        }
    }
}

proof fn lemma_segments_append_piece(x: Seq<char>, c: Seq<char>)
    requires
        no_sep(c),
    ensures
        segments(x + c) == segments(x).update(segments(x).len() - 1, segments(x).last() + c),
    decreases c.len(),
{
    lemma_segments_shape(x);
    if c.len() == 0 {
        assert(x + c =~= x);
        assert(segments(x).last() + c =~= segments(x).last());
        assert(segments(x).update(segments(x).len() - 1, segments(x).last()) =~= segments(x));
    } else {
        let c0 = c.drop_last();
        assert(no_sep(c0)) by {
            assert forall|i: int| 0 <= i < c0.len() implies c0[i] != '/' by {
                assert(c0[i] == c[i]);
            }
        }
        lemma_segments_append_piece(x, c0);
        assert((x + c).drop_last() =~= x + c0);
        assert((x + c).last() == c[c.len() - 1]);
        assert(segments(x).last() + c =~= (segments(x).last() + c0).push(c.last()));
        lemma_segments_shape(x + c0);
        assert(segments(x + c) =~= segments(x).update(segments(x).len() - 1, segments(x).last() + c));
    }
}

proof fn lemma_segments_sep_piece(x: Seq<char>, c: Seq<char>)
    requires
        no_sep(c),
    ensures
        segments(x + seq!['/'] + c) == segments(x).push(c),
{
    let xs = x.push('/');
    assert(x + seq!['/'] =~= xs);
    assert(xs.drop_last() =~= x);
    assert(segments(xs) == segments(x).push(Seq::empty()));
    lemma_segments_append_piece(xs, c);
    assert(Seq::<char>::empty() + c =~= c);
    assert(segments(xs).update(segments(xs).len() - 1, segments(xs).last() + c) =~= segments(x).push(c));
}

/// Rendering a head and valid pieces, then reading the components back,
/// gives them again; the facts besides carry the induction.
proof fn lemma_components_of_render(head: Seq<Seq<char>>, body: Seq<Seq<char>>)
    requires
        valid_head(head),
        valid_body(body),
    ensures
        is_absolute(render(head + body)) <==> head == seq![seq!['/']],
        segments(render(head + body))[0] == seq!['.'] <==> head == seq![seq!['.']],
        named_pieces(segments(render(head + body))) == body,
        render(head + body).len() == 0 <==> (head.len() == 0 && body.len() == 0),
        render(head + body).len() > 0 && render(head + body).last() == '/' <==> (head
            == seq![seq!['/']] && body.len() == 0),
        path_components(render(head + body)) == head + body,
    decreases body.len(),
{
    let r = render(head + body);
    if body.len() == 0 {
        assert(head + body =~= head);
        if head.len() == 0 {
            assert(r =~= Seq::<char>::empty());
            assert(segments(r) =~= seq![Seq::<char>::empty()]);
            reveal_with_fuel(named_pieces, 3);
            assert(named_pieces(segments(r)) =~= Seq::<Seq<char>>::empty());
            assert(path_components(r) =~= head);
        } else if head == seq![seq!['/']] {
            assert(head.drop_last() =~= Seq::<Seq<char>>::empty());
            assert(r =~= seq!['/']);
            assert(r.drop_last() =~= Seq::<char>::empty());
            assert(segments(Seq::<char>::empty()) =~= seq![Seq::<char>::empty()]);
            assert(segments(r) =~= seq![Seq::<char>::empty(), Seq::<char>::empty()]);
            reveal_with_fuel(named_pieces, 3);
            assert(named_pieces(segments(r).drop_last()) =~= Seq::<Seq<char>>::empty());
            assert(named_pieces(segments(r)) =~= Seq::<Seq<char>>::empty());
            assert(seq![seq!['/']] + Seq::<Seq<char>>::empty() =~= head);
            assert(path_components(r) =~= head);
        } else {
            assert(head.drop_last() =~= Seq::<Seq<char>>::empty());
            assert(render(Seq::<Seq<char>>::empty()) =~= Seq::<char>::empty());
            assert(Seq::<char>::empty() + seq!['.'] =~= seq!['.']);
            assert(r =~= seq!['.']);
            assert(r.drop_last() =~= Seq::<char>::empty());
            assert(segments(Seq::<char>::empty()) =~= seq![Seq::<char>::empty()]);
            assert(Seq::<char>::empty().push('.') =~= seq!['.']);
            assert(segments(r) =~= seq![seq!['.']]);
            reveal_with_fuel(named_pieces, 3);
            assert(named_pieces(segments(r).drop_last()) =~= Seq::<Seq<char>>::empty());
            assert(named_pieces(segments(r)) =~= Seq::<Seq<char>>::empty());
            assert(seq![seq!['.']] + Seq::<Seq<char>>::empty() =~= head);
            assert(path_components(r) =~= head);
        }
        assert(path_components(r) =~= head + body);
    } else {
        let body0 = body.drop_last();
        let c = body.last();
        assert(valid_body(body0)) by {
            assert forall|i: int| 0 <= i < body0.len() implies is_named_piece(#[trigger] body0[i]) && no_sep(body0[i]) by {
                assert(body0[i] == body[i]);
            }
        }
        assert(is_named_piece(body[body.len() - 1]) && no_sep(body[body.len() - 1]));
        lemma_components_of_render(head, body0);
        let r0 = render(head + body0);
        assert((head + body).drop_last() =~= head + body0);
        assert((head + body).last() == c);
        assert(r == spec_join(r0, c));
        assert(!is_absolute(c)) by {
            assert(c[0] != '/');
        }
        lemma_segments_shape(r0);
        if r0.len() > 0 && r0.last() != '/' {
            assert(r == r0 + seq!['/'] + c);
            lemma_segments_sep_piece(r0, c);
            assert(segments(r).drop_last() =~= segments(r0));
            assert(segments(r)[0] == segments(r0)[0]);
            assert(r[0] == r0[0]);
            assert(r.last() == c.last());
            assert(named_pieces(segments(r)) =~= body);
        } else if r0.len() == 0 {
            assert(r =~= c);
            assert(Seq::<char>::empty() + c =~= c);
            lemma_segments_append_piece(Seq::<char>::empty(), c);
            assert(segments(Seq::<char>::empty()) =~= seq![Seq::<char>::empty()]);
            assert(segments(Seq::<char>::empty()).last() + c =~= c);
            assert(segments(r) =~= seq![c]);
            assert(segments(r).drop_last() =~= Seq::<Seq<char>>::empty());
            assert(body0 =~= Seq::<Seq<char>>::empty());
            reveal_with_fuel(named_pieces, 3);
            assert(named_pieces(segments(r)) =~= body);
            assert(r.last() == c.last());
        } else {
            assert(r0 =~= seq!['/']);
            assert(r == r0 + c);
            assert(r0 =~= Seq::<char>::empty() + seq!['/']);
            lemma_segments_sep_piece(Seq::<char>::empty(), c);
            assert(Seq::<char>::empty() + seq!['/'] + c =~= r);
            assert(segments(Seq::<char>::empty()) =~= seq![Seq::<char>::empty()]);
            assert(segments(r) =~= seq![Seq::<char>::empty(), c]);
            assert(segments(r).drop_last() =~= seq![Seq::<char>::empty()]);
            assert(seq![Seq::<char>::empty()].drop_last() =~= Seq::<Seq<char>>::empty());
            assert(body0 =~= Seq::<Seq<char>>::empty());
            reveal_with_fuel(named_pieces, 3);
            assert(named_pieces(segments(r)) =~= body);
            assert(r[0] == '/');
            assert(r.last() == c.last());
        }
        assert(path_components(r) =~= head + body);
    }
}

/// The normal form of a path is in normal form, and names the same path.
pub proof fn law_normal_form_is_normal(p: Seq<char>)
    ensures
        same_path(normal_form(p), p),
        is_normal(normal_form(p)),
{
    lemma_segments_shape(p);
    let segs = segments(p);
    let body = named_pieces(segs);
    assert(valid_body(body)) by {
        lemma_named_pieces_valid(segs);
    }
    let head = if is_absolute(p) {
        seq![seq!['/']]
    } else if segs[0] == seq!['.'] {
        seq![seq!['.']]
    } else {
        Seq::<Seq<char>>::empty()
    };
    assert(path_components(p) =~= head + body);
    lemma_components_of_render(head, body);
}

proof fn lemma_named_pieces_valid(segs: Seq<Seq<char>>)
    requires
        forall|i: int| 0 <= i < segs.len() ==> no_sep(#[trigger] segs[i]),
    ensures
        valid_body(named_pieces(segs)),
    decreases segs.len(),
{
    if segs.len() > 0 {
        let s0 = segs.drop_last();
        assert forall|i: int| 0 <= i < s0.len() implies no_sep(#[trigger] s0[i]) by {
            assert(s0[i] == segs[i]);
        }
        lemma_named_pieces_valid(s0);
        assert(no_sep(segs[segs.len() - 1]));
        let r = named_pieces(segs);
        assert forall|i: int| 0 <= i < r.len() implies is_named_piece(#[trigger] r[i]) && no_sep(r[i]) by {
            if i < named_pieces(s0).len() {
                assert(r[i] == named_pieces(s0)[i]);
            }
        }
    }
}

/// The pieces of `y + r`: those of `y`, the last of which runs on into the
/// first of `r`, then the rest of those of `r`.
proof fn lemma_segments_concat(y: Seq<char>, r: Seq<char>)
    ensures
        segments(y + r) == segments(y).drop_last() + seq![segments(y).last() + segments(r)[0]]
            + segments(r).drop_first(),
    decreases r.len(),
{
    lemma_segments_shape(y);
    lemma_segments_shape(r);
    let d = segments(y).drop_last();
    let l = segments(y).last();
    if r.len() == 0 {
        assert(y + r =~= y);
        assert(segments(r) =~= seq![Seq::<char>::empty()]);
        assert(l + segments(r)[0] =~= l);
        assert(segments(r).drop_first() =~= Seq::<Seq<char>>::empty());
        assert(d + seq![l] + Seq::<Seq<char>>::empty() =~= segments(y));
    } else {
        let r0 = r.drop_last();
        let c = r.last();
        lemma_segments_concat(y, r0);
        lemma_segments_shape(r0);
        let s0 = segments(r0);
        assert((y + r).drop_last() =~= y + r0);
        assert((y + r).last() == c);
        assert(r.drop_last() == r0);
        let prev = d + seq![l + s0[0]] + s0.drop_first();
        assert(segments(y + r0) == prev);
        if c == '/' {
            assert(segments(r) == s0.push(Seq::<char>::empty()));
            assert(segments(r)[0] == s0[0]);
            assert(segments(r).drop_first() =~= s0.drop_first().push(Seq::<char>::empty()));
            assert(segments(y + r) == prev.push(Seq::<char>::empty()));
            assert(prev.push(Seq::<char>::empty()) =~= d + seq![l + segments(r)[0]]
                + segments(r).drop_first());
        } else {
            let sr = s0.update(s0.len() - 1, s0.last().push(c));
            assert(segments(r) == sr);
            assert(segments(y + r) == prev.update(prev.len() - 1, prev.last().push(c)));
            if s0.len() == 1 {
                assert(sr[0] == s0[0].push(c));
                assert(sr.drop_first() =~= Seq::<Seq<char>>::empty());
                assert(s0.drop_first() =~= Seq::<Seq<char>>::empty());
                assert(prev.last() == l + s0[0]);
                assert((l + s0[0]).push(c) =~= l + s0[0].push(c));
                assert(prev.update(prev.len() - 1, prev.last().push(c)) =~= d + seq![l + sr[0]]
                    + sr.drop_first());
            } else {
                assert(sr[0] == s0[0]);
                assert(sr.drop_first() =~= s0.drop_first().update(
                    s0.len() - 2,
                    s0.last().push(c),
                ));
                assert(prev.last() == s0.last());
                assert(prev.update(prev.len() - 1, prev.last().push(c)) =~= d + seq![l + sr[0]]
                    + sr.drop_first());
            }
        }
    }
}

/// The named pieces of two runs of pieces are those of each, in order.
proof fn lemma_named_pieces_concat(a: Seq<Seq<char>>, b: Seq<Seq<char>>)
    ensures
        named_pieces(a + b) == named_pieces(a) + named_pieces(b),
    decreases b.len(),
{
    if b.len() == 0 {
        assert(a + b =~= a);
        assert(named_pieces(a) + named_pieces(b) =~= named_pieces(a));
    } else {
        lemma_named_pieces_concat(a, b.drop_last());
        assert((a + b).drop_last() =~= a + b.drop_last());
        assert((a + b).last() == b.last());
        if is_named_piece(b.last()) {
            assert(named_pieces(a) + named_pieces(b) =~= (named_pieces(a) + named_pieces(
                b.drop_last(),
            )).push(b.last()));
        } else {
            assert(named_pieces(a) + named_pieces(b) =~= named_pieces(a) + named_pieces(
                b.drop_last(),
            ));
        }
    }
}

/// Joining a relative path onto a non-empty one adds the named pieces of the
/// relative path to the components of the other.
pub proof fn lemma_components_of_join(x: Seq<char>, r: Seq<char>)
    requires
        x.len() > 0,
        !is_absolute(r),
    ensures
        path_components(spec_join(x, r)) == path_components(x) + named_pieces(segments(r)),
{
    lemma_segments_shape(x);
    lemma_segments_shape(r);
    let j = spec_join(x, r);
    let y = if x.last() != '/' {
        x + seq!['/']
    } else {
        x
    };
    assert(j == y + r);
    assert(y.drop_last() =~= if x.last() != '/' { x } else { x.drop_last() });
    assert(y.last() == '/');
    assert(segments(y) == segments(y.drop_last()).push(Seq::<char>::empty()));
    lemma_segments_shape(y.drop_last());
    lemma_segments_concat(y, r);
    let sy = segments(y);
    assert(sy.last() + segments(r)[0] =~= segments(r)[0]);
    assert(seq![segments(r)[0]] + segments(r).drop_first() =~= segments(r));
    assert(segments(j) =~= sy.drop_last() + segments(r));
    lemma_named_pieces_concat(sy.drop_last(), segments(r));
    assert(sy.drop_last().push(sy.last()) =~= sy);
    assert(named_pieces(sy) == named_pieces(sy.drop_last()));
    if x.last() != '/' {
        assert(sy.drop_last() == segments(x));
    } else {
        assert(named_pieces(segments(x)) == named_pieces(segments(x).drop_last()));
        assert(segments(x).drop_last() == sy.drop_last());
    }
    assert(named_pieces(segments(j)) == named_pieces(segments(x)) + named_pieces(segments(r)));
    assert(j[0] == x[0]);
    assert(sy.drop_last().len() >= 1);
    assert(segments(j)[0] == sy.drop_last()[0]);
    if x.last() != '/' {
        assert(segments(j)[0] == segments(x)[0]);
    } else {
        assert(segments(x).len() >= 2);
        assert(segments(j)[0] == segments(x)[0]);
    }
    let head = if is_absolute(x) {
        seq![seq!['/']]
    } else if segments(x)[0] == seq!['.'] {
        seq![seq!['.']]
    } else {
        Seq::<Seq<char>>::empty()
    };
    assert(path_components(x) == head + named_pieces(segments(x)));
    assert(path_components(j) == head + named_pieces(segments(j)));
    assert(head + (named_pieces(segments(x)) + named_pieces(segments(r))) =~= (head + named_pieces(
        segments(x),
    )) + named_pieces(segments(r)));
}

} // verus!
