//! Which rewrite a path calls for, told by the shape of the path and of the
//! library locations.

use vstd::prelude::*;

use crate::storage::drift;
use crate::storage::drift::DriftRewrite;
use crate::storage::drift_laws;
use crate::storage::paths;

verus! {

/// A location aligns with a path exactly where it has a parent and its folder
/// occurs in the path, but not as the first segment; it is split where the
/// folder occurs first, however deep that is.
pub proof fn law_split_point(off: Seq<Seq<char>>, root: Seq<char>, i: int)
    ensures
        drift::split_point(off, root) == Some(i) <==> {
            &&& paths::segs(root).len() >= 2
            &&& 0 < i < off.len()
            &&& off[i] == paths::segs(root).last()
            &&& forall|j: int| 0 <= j < i ==> off[j] != paths::segs(root).last()
        },
        drift::split_point(off, root) is Some <==> {
            &&& paths::segs(root).len() >= 2
            &&& off.contains(paths::segs(root).last())
            &&& off[0] != paths::segs(root).last()
        },
{
    let name = paths::segs(root).last();
    off.index_of_first_ensures(name);
    if off.contains(name) {
        let k = choose|k: int| 0 <= k < off.len() && off[k] == name;
        assert(off[k] == name);
    }
}

/// Whether the folder of a location turns up in a path before the place `n`,
/// other than at its start. A location without a parent has no say.
pub open spec fn aligns_before(off: Seq<Seq<char>>, root: Seq<char>, n: int) -> bool {
    &&& paths::segs(root).len() >= 2
    &&& off[0] != paths::segs(root).last()
    &&& exists|j: int| 0 < j < n && j < off.len() && #[trigger] off[j] == paths::segs(root).last()
}

/// A path that consists of a head, a folder that the head does not hold, and any
/// rest, calls for its head to be moved to the parent of the location with that
/// folder, provided that no location aligns with it earlier on, and that this
/// location is the first with that folder. Where the head is that parent, it
/// calls for nothing.
pub proof fn law_inferred(
    path: Seq<char>,
    roots: Seq<Seq<char>>,
    k: int,
    head: Seq<Seq<char>>,
    folder: Seq<char>,
    rest: Seq<Seq<char>>,
    parent: Seq<Seq<char>>,
)
    requires
        head.len() > 0,
        parent.len() > 0,
        !head.contains(folder),
        0 <= k < roots.len(),
        paths::segs(path) == head.push(folder) + rest,
        paths::segs(roots[k]) == parent.push(folder),
        forall|j: int|
            0 <= j < roots.len() ==> !aligns_before(
                paths::segs(path),
                #[trigger] roots[j],
                head.len() as int,
            ),
        forall|j: int|
            0 <= j < k ==> paths::segs(#[trigger] roots[j]).len() < 2 || paths::segs(
                roots[j],
            ).last() != folder,
    ensures
        head != parent ==> drift::inferred(path, roots) == Some(
            (paths::rooted(head), paths::rooted(parent)),
        ),
        head == parent ==> drift::inferred(path, roots) is None,
{
    let off = paths::segs(path);
    let n = head.len() as int;
    assert(off[n] == folder);
    assert(parent.push(folder).last() == folder);
    assert forall|j: int| 0 <= j < n implies #[trigger] off[j] != folder by {
        assert(off[j] == head[j]);
    }
    law_split_point(off, roots[k], n);
    drift_laws::law_best_split(off, roots);
    let (i, c) = drift::best_split(off, roots)->0;
    assert(i <= n) by {
        assert(drift::split_point(off, roots[k]) == Some(n));
    }
    law_split_point(off, roots[c], i);
    assert(!aligns_before(off, roots[c], n));
    assert(off[i] == paths::segs(roots[c]).last());
    assert(i == n);
    assert(c == k) by {
        if c < k {
            assert(paths::segs(roots[c]).last() == folder);
        }
        if c > k {
            assert(drift::split_point(off, roots[k]) == Some(n));
        }
    }
    assert(off.take(n) == head);
    assert(parent.push(folder).drop_last() == parent);
    paths::law_segments_well_formed(path);
    paths::law_segments_well_formed(roots[k]);
    assert(paths::well_formed(head)) by {
        assert forall|j: int| 0 <= j < head.len() implies (#[trigger] head[j]).len() > 0
            && !head[j].contains('/') by {
            assert(off[j] == head[j]);
        }
    }
    assert(paths::well_formed(parent)) by {
        assert forall|j: int| 0 <= j < parent.len() implies (#[trigger] parent[j]).len() > 0
            && !parent[j].contains('/') by {
            assert(paths::segs(roots[k])[j] == parent[j]);
        }
    }
    paths::law_rooted_round_trip(head);
    paths::law_rooted_round_trip(parent);
}

/// The same for one location: whatever the depth of the path and of the
/// location, the path's head moves to the location's parent.
pub proof fn law_inferred_from_one_location(
    head: Seq<Seq<char>>,
    folder: Seq<char>,
    rest: Seq<Seq<char>>,
    parent: Seq<Seq<char>>,
)
    requires
        head.len() > 0,
        parent.len() > 0,
        !head.contains(folder),
        paths::well_formed(head.push(folder) + rest),
        paths::well_formed(parent.push(folder)),
    ensures
        ({
            let path = paths::rooted(head.push(folder) + rest);
            let roots = seq![paths::rooted(parent.push(folder))];
            &&& head != parent ==> drift::inferred(path, roots) == Some(
                (paths::rooted(head), paths::rooted(parent)),
            )
            &&& head == parent ==> drift::inferred(path, roots) is None
        }),
{
    let path = paths::rooted(head.push(folder) + rest);
    let roots = seq![paths::rooted(parent.push(folder))];
    paths::law_rooted_round_trip(head.push(folder) + rest);
    paths::law_rooted_round_trip(parent.push(folder));
    let off = paths::segs(path);
    assert forall|j: int| 0 <= j < roots.len() implies !aligns_before(
        off,
        #[trigger] roots[j],
        head.len() as int,
    ) by {
        assert(paths::segs(roots[j]).last() == folder);
        assert forall|x: int| 0 < x < head.len() implies #[trigger] off[x] != folder by {
            assert(off[x] == head[x]);
        }
    }
    law_inferred(path, roots, 0, head, folder, rest, parent);
}

/// A path calls for nothing where no location aligns with it: each has no
/// parent, or a folder that the path does not hold or that it begins with.
pub proof fn law_nothing_inferred(path: Seq<char>, roots: Seq<Seq<char>>)
    requires
        forall|k: int|
            0 <= k < roots.len() ==> {
                ||| paths::segs(#[trigger] roots[k]).len() < 2
                ||| !paths::segs(path).contains(paths::segs(roots[k]).last())
                ||| paths::segs(path)[0] == paths::segs(roots[k]).last()
            },
    ensures
        drift::inferred(path, roots) is None,
{
    let off = paths::segs(path);
    drift_laws::law_best_split(off, roots);
    if let Some((i, k)) = drift::best_split(off, roots) {
        law_split_point(off, roots[k], i);
    }
}

/// What a rewrite shows of itself is its own roots and count, and a list of
/// them shows each.
pub proof fn law_rewrite_view(r: DriftRewrite, s: Seq<DriftRewrite>)
    ensures
        r@.from_root == r.from_root@,
        r@.to_root == r.to_root@,
        r@.occurrences == r.occurrences,
        drift::rewrite_views(s).len() == s.len(),
        forall|i: int| 0 <= i < s.len() ==> #[trigger] drift::rewrite_views(s)[i] == s[i]@,
{
}

} // verus!
