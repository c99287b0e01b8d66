//! What holds of every inferred rewrite and of every plan.

use vstd::prelude::*;
use vstd::utf8::*;

use crate::storage::drift;
use crate::storage::drift::Rewrite;
use crate::storage::paths;
use crate::text;

verus! {

/// The chosen location aligns with the path, no location aligns at a shallower
/// split, and no earlier one at the same split. None is chosen only where none
/// aligns.
pub proof fn law_best_split(off: Seq<Seq<char>>, roots: Seq<Seq<char>>)
    ensures
        match drift::best_split(off, roots) {
            Some((i, k)) => {
                &&& 0 <= k < roots.len()
                &&& drift::split_point(off, roots[k]) == Some(i)
                &&& forall|j: int|
                    0 <= j < roots.len() ==> match #[trigger] drift::split_point(off, roots[j]) {
                        Some(d) => i <= d && (j < k ==> i < d),
                        None => true,
                    }
            },
            None => forall|j: int|
                0 <= j < roots.len() ==> (#[trigger] drift::split_point(off, roots[j])) is None,
        },
    decreases roots.len(),
{
    if roots.len() > 0 {
        let init = roots.drop_last();
        law_best_split(off, init);
        assert forall|j: int| 0 <= j < init.len() implies #[trigger] drift::split_point(
            off,
            roots[j],
        ) == drift::split_point(off, init[j]) by {}
        assert(roots[roots.len() - 1] == roots.last());
    }
}

/// A split point is the place of the first segment that names the location's
/// folder, and it leaves something before it.
pub proof fn lemma_split_point(off: Seq<Seq<char>>, root: Seq<char>)
    ensures
        match drift::split_point(off, root) {
            Some(i) => {
                &&& 0 < i < off.len()
                &&& paths::segs(root).len() >= 2
                &&& off[i] == paths::segs(root).last()
                &&& forall|j: int| 0 <= j < i ==> off[j] != paths::segs(root).last()
            },
            None => true,
        },
{
    if paths::segs(root).len() >= 2 {
        off.index_of_first_ensures(paths::segs(root).last());
    }
}

/// The segments of a path with the leading segments `from` replaced by `to`.
pub open spec fn moved(
    path: Seq<Seq<char>>,
    from: Seq<Seq<char>>,
    to: Seq<Seq<char>>,
) -> Seq<Seq<char>> {
    to + path.skip(from.len() as int)
}

pub proof fn lemma_inferred_parts(path: Seq<char>, roots: Seq<Seq<char>>) -> (c: (int, int))
    requires
        drift::best_split(paths::segs(path), roots) is Some,
    ensures
        drift::best_split(paths::segs(path), roots) == Some(c),
        0 < c.0 < paths::segs(path).len(),
        0 <= c.1 < roots.len(),
        paths::segs(roots[c.1]).len() >= 2,
        paths::segs(path)[c.0] == paths::segs(roots[c.1]).last(),
        paths::segs(paths::rooted(paths::segs(path).take(c.0))) == paths::segs(path).take(c.0),
        paths::segs(paths::rooted(paths::segs(roots[c.1]).drop_last())) == paths::segs(
            roots[c.1],
        ).drop_last(),
{
    let off = paths::segs(path);
    let c = drift::best_split(off, roots)->0;
    law_best_split(off, roots);
    lemma_split_point(off, roots[c.1]);
    paths::law_segments_well_formed(path);
    paths::law_segments_well_formed(roots[c.1]);
    let head = off.take(c.0);
    let parent = paths::segs(roots[c.1]).drop_last();
    assert(paths::well_formed(head)) by {
        assert forall|i: int| 0 <= i < head.len() implies (#[trigger] head[i]).len() > 0
            && !head[i].contains('/') by {
            assert(head[i] == off[i]);
        }
    }
    assert(paths::well_formed(parent)) by {
        assert forall|i: int| 0 <= i < parent.len() implies (#[trigger] parent[i]).len() > 0
            && !parent[i].contains('/') by {
            assert(parent[i] == paths::segs(roots[c.1])[i]);
        }
    }
    paths::law_rooted_round_trip(head);
    paths::law_rooted_round_trip(parent);
    c
}

/// An inferred rewrite changes something, its retired root is a proper one that
/// holds the offending path, and its live root is the parent of a library
/// location.
pub proof fn law_inferred_roots(path: Seq<char>, roots: Seq<Seq<char>>)
    ensures
        match drift::inferred(path, roots) {
            Some((from, to)) => {
                &&& from != to
                &&& paths::under(path, from)
                &&& 0 < paths::segs(from).len() < paths::segs(path).len()
                &&& 0 < paths::segs(to).len()
                &&& exists|k: int|
                    0 <= k < roots.len() && paths::segs(to) == (#[trigger] paths::segs(
                        roots[k],
                    )).drop_last()
            },
            None => true,
        },
{
    if drift::inferred(path, roots) is Some {
        let c = lemma_inferred_parts(path, roots);
        let off = paths::segs(path);
        let (from, to) = drift::inferred(path, roots)->0;
        assert(off.take(c.0) == off.subrange(0, c.0));
        assert(paths::segs(to) == paths::segs(roots[c.1]).drop_last());
    }
}

/// An inferred rewrite repairs the path that it was inferred from: with the
/// retired root replaced by the live one, the path lies under a library
/// location.
pub proof fn law_rewrite_repairs(path: Seq<char>, roots: Seq<Seq<char>>)
    ensures
        match drift::inferred(path, roots) {
            Some((from, to)) => exists|k: int|
                0 <= k < roots.len() && #[trigger] paths::under(
                    paths::rooted(moved(paths::segs(path), paths::segs(from), paths::segs(to))),
                    roots[k],
                ),
            None => true,
        },
{
    if drift::inferred(path, roots) is Some {
        let (from, to) = drift::inferred(path, roots)->0;
        let c = lemma_inferred_parts(path, roots);
        let m = moved(paths::segs(path), paths::segs(from), paths::segs(to));
        lemma_moved_is_under(path, roots, c);
        paths::law_segments_well_formed(path);
        lemma_moved_well_formed(paths::segs(path), from, to);
        paths::law_rooted_round_trip(m);
        assert(paths::under(paths::rooted(m), roots[c.1]));
    }
}

proof fn lemma_moved_is_under(path: Seq<char>, roots: Seq<Seq<char>>, c: (int, int))
    requires
        drift::best_split(paths::segs(path), roots) == Some(c),
    ensures
        0 <= c.1 < roots.len(),
        paths::segs(roots[c.1]).is_prefix_of(
            moved(
                paths::segs(path),
                paths::segs(paths::rooted(paths::segs(path).take(c.0))),
                paths::segs(paths::rooted(paths::segs(roots[c.1]).drop_last())),
            ),
        ),
{
    let d = lemma_inferred_parts(path, roots);
    let off = paths::segs(path);
    let root = paths::segs(roots[c.1]);
    let m = root.drop_last() + off.skip(c.0);
    assert(root == m.subrange(0, root.len() as int)) by {
        assert forall|i: int| 0 <= i < root.len() implies root[i] == m[i] by {}
    }
}

/// A moved path has segments that a path can have.
pub proof fn lemma_moved_well_formed(path: Seq<Seq<char>>, from: Seq<char>, to: Seq<char>)
    requires
        paths::well_formed(path),
        paths::segs(from).len() <= path.len(),
    ensures
        paths::well_formed(moved(path, paths::segs(from), paths::segs(to))),
{
    let m = moved(path, paths::segs(from), paths::segs(to));
    let n = paths::segs(to).len();
    paths::law_segments_well_formed(to);
    assert forall|i: int| 0 <= i < m.len() implies (#[trigger] m[i]).len() > 0
        && !m[i].contains('/') by {
        if i < n {
            assert(m[i] == paths::segs(to)[i]);
        } else {
            assert(m[i] == path[i - n + paths::segs(from).len()]);
        }
    }
}

/// A path calls for no rewrite exactly where no location aligns with it, or
/// where it lies under the location chosen for it and the name of that
/// location's folder does not occur in it any earlier.
pub proof fn law_no_rewrite(path: Seq<char>, roots: Seq<Seq<char>>)
    ensures
        drift::inferred(path, roots) is None <==> match drift::best_split(
            paths::segs(path),
            roots,
        ) {
            Some((i, k)) => paths::under(path, roots[k]) && i == paths::segs(roots[k]).len() - 1,
            None => true,
        },
{
    let off = paths::segs(path);
    if drift::best_split(off, roots) is Some {
        let (i, k) = lemma_inferred_parts(path, roots);
        let root = paths::segs(roots[k]);
        let from = paths::rooted(off.take(i));
        let to = paths::rooted(root.drop_last());
        if from == to {
            assert(off.take(i) == root.drop_last());
            assert(root == off.subrange(0, root.len() as int)) by {
                assert(root == root.drop_last().push(root.last()));
                assert(off.subrange(0, root.len() as int) == off.take(i).push(off[i]));
            }
        }
        if paths::under(path, roots[k]) && i == root.len() - 1 {
            assert(off.take(i) == root.drop_last()) by {
                assert forall|j: int| 0 <= j < i implies off[j] == root[j] by {
                    assert(off.subrange(0, root.len() as int)[j] == off[j]);
                }
            }
        }
    }
}

proof fn lemma_encode_concat(a: Seq<char>, b: Seq<char>)
    ensures
        encode_utf8(a + b) == encode_utf8(a) + encode_utf8(b),
        a.len() > 0 ==> encode_utf8(a).len() > 0,
    decreases a.len(),
{
    if a.len() == 0 {
        assert(a + b == b);
        assert(encode_utf8(a) + encode_utf8(b) == encode_utf8(b));
    } else {
        lemma_encode_concat(a.drop_first(), b);
        assert((a + b).drop_first() == a.drop_first() + b);
        assert((a + b)[0] == a[0]);
        let e = encode_scalar(a[0] as u32);
        assert(e + (encode_utf8(a.drop_first()) + encode_utf8(b)) == (e + encode_utf8(
            a.drop_first(),
        )) + encode_utf8(b));
    }
}

proof fn lemma_joined_extends(a: Seq<Seq<char>>, b: Seq<Seq<char>>) -> (x: Seq<char>)
    requires
        a.len() < b.len(),
        a == b.take(a.len() as int),
        b[0].len() > 0,
    ensures
        text::joined(b, "/"@) == text::joined(a, "/"@) + x,
        x.len() > 0,
    decreases b.len(),
{
    reveal_strlit("/");
    if b.len() == 1 {
        assert(text::joined(a, "/"@) + b[0] == b[0]);
        b[0]
    } else if a.len() == b.len() - 1 {
        assert(b.drop_last() == a);
        let x = "/"@ + b.last();
        assert(text::joined(a, "/"@) + "/"@ + b.last() == text::joined(a, "/"@) + x);
        x
    } else {
        let init = b.drop_last();
        assert(a == init.take(a.len() as int));
        let y = lemma_joined_extends(a, init);
        let x = y + "/"@ + b.last();
        assert(text::joined(a, "/"@) + y + "/"@ + b.last() == text::joined(a, "/"@) + x);
        x
    }
}

/// A path that goes on past another one takes up more bytes.
pub proof fn lemma_longer_path(a: Seq<Seq<char>>, b: Seq<Seq<char>>)
    requires
        a.len() < b.len(),
        a.is_prefix_of(b),
        paths::well_formed(b),
    ensures
        encode_utf8(paths::rooted(a)).len() < encode_utf8(paths::rooted(b)).len(),
{
    assert(a == b.take(a.len() as int));
    assert(b[0].len() > 0);
    let x = lemma_joined_extends(a, b);
    assert(paths::rooted(b) == paths::rooted(a) + x);
    lemma_encode_concat(paths::rooted(a), x);
    lemma_encode_concat(x, Seq::<char>::empty());
}

/// Placing a rewrite inserts it somewhere, behind everything that it does not
/// go before.
pub proof fn lemma_placed(s: Seq<Rewrite>, x: Rewrite) -> (j: int)
    ensures
        0 <= j <= s.len(),
        drift::placed(s, x) == s.insert(j, x),
        j > 0 ==> !drift::goes_before(x, s[j - 1]),
        forall|i: int| j <= i < s.len() ==> drift::goes_before(x, #[trigger] s[i]),
    decreases s.len(),
{
    if s.len() == 0 || !drift::goes_before(x, s.last()) {
        assert(s.push(x) == s.insert(s.len() as int, x));
        s.len() as int
    } else {
        let init = s.drop_last();
        let j = lemma_placed(init, x);
        assert(init.insert(j, x).push(s.last()) == s.insert(j, x));
        assert forall|i: int| j <= i < s.len() implies drift::goes_before(x, #[trigger] s[i]) by {
            if i < init.len() {
                assert(init[i] == s[i]);
            }
        }
        if j > 0 {
            assert(init[j - 1] == s[j - 1]);
        }
        j
    }
}

/// Ordering a list of rewrites neither adds nor loses one.
pub proof fn law_ordered_permutes(s: Seq<Rewrite>)
    ensures
        drift::ordered(s).to_multiset() == s.to_multiset(),
        drift::ordered(s).len() == s.len(),
    decreases s.len(),
{
    broadcast use vstd::seq_lib::group_to_multiset_ensures;

    if s.len() > 0 {
        let init = s.drop_last();
        law_ordered_permutes(init);
        let j = lemma_placed(drift::ordered(init), s.last());
        vstd::seq_lib::to_multiset_insert(drift::ordered(init), j, s.last());
        assert(s == init.push(s.last()));
        vstd::seq_lib::to_multiset_build(init, s.last());
    }
}

proof fn lemma_bytes_before_transitive(a: Seq<u8>, b: Seq<u8>, c: Seq<u8>)
    ensures
        text::bytes_before(a, b) && !text::bytes_before(c, b) ==> text::bytes_before(a, c),
        !text::bytes_before(a, b) && !text::bytes_before(b, c) ==> !text::bytes_before(a, c),
    decreases a.len(),
{
    if a.len() > 0 && b.len() > 0 && c.len() > 0 {
        lemma_bytes_before_transitive(a.drop_first(), b.drop_first(), c.drop_first());
    }
}

/// No rewrite of an ordered list is to be applied before one that precedes it.
pub proof fn law_ordered_is_sorted(s: Seq<Rewrite>)
    ensures
        forall|i: int, j: int|
            0 <= i < j < drift::ordered(s).len() ==> !drift::goes_before(
                #[trigger] drift::ordered(s)[j],
                #[trigger] drift::ordered(s)[i],
            ),
    decreases s.len(),
{
    if s.len() > 0 {
        let init = s.drop_last();
        let o = drift::ordered(init);
        let x = s.last();
        law_ordered_is_sorted(init);
        let p = lemma_placed(o, x);
        let r = drift::ordered(s);
        assert forall|i: int, j: int| 0 <= i < j < r.len() implies !drift::goes_before(
            #[trigger] r[j],
            #[trigger] r[i],
        ) by {
            let a = encode_utf8(r[i].from_root);
            let b = encode_utf8(r[j].from_root);
            if i == p {
                assert(r[j] == o[j - 1]);
                assert(drift::goes_before(x, o[j - 1]));
                lemma_bytes_before_asymmetric(a, b);
            } else if j == p {
                assert(r[i] == o[i]);
                if i < p - 1 {
                    assert(!drift::goes_before(o[p - 1], o[i]));
                    assert(!drift::goes_before(x, o[p - 1]));
                    lemma_bytes_before_transitive(b, encode_utf8(o[p - 1].from_root), a);
                }
            } else {
                let i2 = if i < p {
                    i
                } else {
                    i - 1
                };
                let j2 = if j < p {
                    j
                } else {
                    j - 1
                };
                assert(r[i] == o[i2]);
                assert(r[j] == o[j2]);
            }
        }
    }
}

pub proof fn lemma_bytes_before_asymmetric(a: Seq<u8>, b: Seq<u8>)
    ensures
        text::bytes_before(a, b) ==> !text::bytes_before(b, a),
    decreases a.len(),
{
    if a.len() > 0 && b.len() > 0 {
        lemma_bytes_before_asymmetric(a.drop_first(), b.drop_first());
    }
}

/// Of two rewrites of an ordered list that neither is to be applied before the
/// other, the one that came up first stays first.
pub proof fn law_ordered_is_stable(s: Seq<Rewrite>, i: int, j: int)
    requires
        0 <= i < j < drift::ordered(s).len(),
        !drift::goes_before(drift::ordered(s)[i], drift::ordered(s)[j]),
    ensures
        exists|p: int, q: int|
            0 <= p < q < s.len() && #[trigger] s[p] == drift::ordered(s)[i] && #[trigger] s[q]
                == drift::ordered(s)[j],
    decreases s.len(),
{
    let init = s.drop_last();
    let o = drift::ordered(init);
    let x = s.last();
    let at = lemma_placed(o, x);
    let r = drift::ordered(s);
    law_ordered_permutes(init);
    if j == at {
        broadcast use vstd::seq_lib::group_to_multiset_ensures;

        assert(r[i] == o[i]);
        assert(o.contains(o[i]));
        assert(o.to_multiset().contains(o[i]));
        assert(init.to_multiset().contains(o[i]));
        assert(init.contains(o[i]));
        let p = choose|p: int| 0 <= p < init.len() && init[p] == o[i];
        assert(s[p] == r[i]);
        assert(s[s.len() - 1] == r[j]);
    } else if i == at {
        assert(r[j] == o[j - 1]);
    } else {
        let i2 = if i < at {
            i
        } else {
            i - 1
        };
        let j2 = if j < at {
            j
        } else {
            j - 1
        };
        assert(r[i] == o[i2]);
        assert(r[j] == o[j2]);
        law_ordered_is_stable(init, i2, j2);
        let (p, q) = choose|p: int, q: int|
            0 <= p < q < init.len() && #[trigger] init[p] == o[i2] && #[trigger] init[q] == o[j2];
        assert(s[p] == r[i]);
        assert(s[q] == r[j]);
    }
}

} // verus!
