//! The prefix rewrites that bring drifted paths back under a live root.

use vstd::prelude::*;
use vstd::utf8::*;

use crate::lists;
use crate::storage::paths;
use crate::text;

verus! {

/// A planned prefix rewrite: every stored path under `from_root` should move
/// to `to_root`.
#[derive(Debug, Clone, PartialEq, Eq)]
pub struct DriftRewrite {
    /// Retired root currently baked into stored paths, e.g. `/data`.
    pub from_root: String,
    /// Live root that the library location resolves under, e.g.
    /// `/mnt/data/media`.
    pub to_root: String,
    /// How many sampled offending paths mapped to this rewrite.
    pub occurrences: u64,
}

/// A rewrite without its count: the retired root and the live one.
pub type Move = (Seq<char>, Seq<char>);

/// What a [`DriftRewrite`] says.
#[verifier::ext_equal]
pub struct Rewrite {
    pub from_root: Seq<char>,
    pub to_root: Seq<char>,
    pub occurrences: int,
}

impl View for DriftRewrite {
    type V = Rewrite;

    open spec fn view(&self) -> Rewrite {
        Rewrite {
            from_root: self.from_root@,
            to_root: self.to_root@,
            occurrences: self.occurrences as int,
        }
    }
}

/// What a sequence of rewrites says.
pub open spec fn rewrite_views(s: Seq<DriftRewrite>) -> Seq<Rewrite> {
    s.map_values(|r: DriftRewrite| r@)
}

/// Where the path with the segments `off` would be split to align it with the
/// library location `root`: at the first segment that is the name of the
/// location's folder. A location without a parent, and a path that begins with
/// the folder, do not align.
pub open spec fn split_point(off: Seq<Seq<char>>, root: Seq<char>) -> Option<int> {
    let r = paths::segs(root);
    if r.len() < 2 {
        None
    } else {
        match off.index_of_first(r.last()) {
            Some(i) => if i > 0 {
                Some(i)
            } else {
                None
            },
            None => None,
        }
    }
}

/// The shallowest split over all locations, and which of them gives it; the
/// earliest one where several give the same.
pub open spec fn best_split(off: Seq<Seq<char>>, roots: Seq<Seq<char>>) -> Option<(int, int)>
    decreases roots.len(),
{
    if roots.len() == 0 {
        None
    } else {
        let before = best_split(off, roots.drop_last());
        match (split_point(off, roots.last()), before) {
            (None, _) => before,
            (Some(i), None) => Some((i, roots.len() - 1)),
            (Some(i), Some(b)) => if i < b.0 {
                Some((i, roots.len() - 1))
            } else {
                before
            },
        }
    }
}

/// The rewrite that an offending path calls for: from what precedes the split
/// to the parent of the location that it aligns with, where these differ.
pub open spec fn inferred(path: Seq<char>, roots: Seq<Seq<char>>) -> Option<Move> {
    let off = paths::segs(path);
    match best_split(off, roots) {
        Some((i, k)) => {
            let from = paths::rooted(off.take(i));
            let to = paths::rooted(paths::segs(roots[k]).drop_last());
            if from == to {
                None
            } else {
                Some((from, to))
            }
        },
        None => None,
    }
}

/// The first place of `x` among the string slices.
fn position(s: &Vec<&str>, x: &str) -> (r: Option<usize>)
    ensures
        match r {
            Some(i) => text::str_views(s@).index_of_first(x@) == Some(i as int),
            None => text::str_views(s@).index_of_first(x@) is None,
        },
{
    let ghost all = text::str_views(s@);
    proof {
        all.index_of_first_ensures(x@);
    }
    let n: usize = s.len();
    let mut i: usize = 0;
    while i < n
        invariant
            i <= n == s@.len(),
            all == text::str_views(s@),
            forall|j: int| 0 <= j < i ==> all[j] != x@,
        decreases n - i,
    {
        if text::same_text(s[i], x) {
            assert(all[i as int] == x@);
            proof {
                all.index_of_first_ensures(x@);
            }
            return Some(i);
        }
        i += 1;
    }
    None
}

/// Infers the rewrite for a single offending path.
///
/// A library location ends at its folder (`/mnt/data/media/movies`); an item
/// path continues past it (`/data/movies/Film/f.mkv`). The folder's name splits
/// the item path: what precedes it is the retired root (`/data`), and the
/// location without its folder is the live one (`/mnt/data/media`). Where
/// several locations align, the shallowest split wins.
pub fn infer_rewrite(offending: &str, authoritative: &[String]) -> (r: Option<(String, String)>)
    ensures
        match r {
            Some(m) => inferred(offending@, text::views(authoritative@)) == Some((m.0@, m.1@)),
            None => inferred(offending@, text::views(authoritative@)) is None,
        },
{
    let off = paths::segments(offending);
    let ghost os = text::str_views(off@);
    let ghost roots = text::views(authoritative@);
    let mut best: Option<(usize, String)> = None;
    let ghost mut chosen: int = 0;
    let n: usize = authoritative.len();
    let mut k: usize = 0;
    while k < n
        invariant
            k <= n == authoritative@.len(),
            os == text::str_views(off@),
            roots == text::views(authoritative@),
            match best {
                Some(b) => {
                    &&& best_split(os, roots.take(k as int)) == Some((b.0 as int, chosen))
                    &&& 0 <= chosen < k
                    &&& b.0 < os.len()
                    &&& b.1@ == paths::rooted(paths::segs(roots[chosen]).drop_last())
                },
                None => best_split(os, roots.take(k as int)) is None,
            },
        decreases n - k,
    {
        let a = paths::segments(authoritative[k].as_str());
        let ghost r = text::str_views(a@);
        proof {
            assert(roots.take(k + 1).drop_last() == roots.take(k as int));
            assert(roots.take(k + 1).last() == authoritative@[k as int]@);
            assert(r == paths::segs(roots[k as int]));
        }
        if a.len() >= 2 {
            let last = a[a.len() - 1];
            assert(last@ == r.last());
            if let Some(i) = position(&off, last) {
                proof {
                    os.index_of_first_ensures(last@);
                }
                let better: bool = match &best {
                    Some(b) => i < b.0,
                    None => true,
                };
                if i > 0 && better {
                    let to_root = paths::rooted_path(a.as_slice(), a.len() - 1);
                    assert(r.take(r.len() - 1) == r.drop_last());
                    best = Some((i, to_root));
                    proof {
                        chosen = k as int;
                    }
                }
            }
        }
        k += 1;
    }
    assert(roots.take(n as int) == roots);
    match best {
        Some((i, to_root)) => {
            let from_root = paths::rooted_path(off.as_slice(), i);
            if text::same_text(from_root.as_str(), to_root.as_str()) {
                None
            } else {
                Some((from_root, to_root))
            }
        },
        None => None,
    }
}

/// The rewrites that the offending paths call for, one by one.
pub open spec fn moves(offending: Seq<Seq<char>>, roots: Seq<Seq<char>>) -> Seq<Move> {
    offending.filter_map(|p: Seq<char>| inferred(p, roots))
}

/// The distinct moves, each with how often it occurs, in the order in which
/// they come up.
pub open spec fn tally(m: Seq<Move>) -> Seq<Rewrite> {
    lists::distinct(m).map_values(
        |x: Move|
            Rewrite {
                from_root: x.0,
                to_root: x.1,
                occurrences: lists::occurrences(m, x) as int,
            },
    )
}

/// Whether `a` is to be applied before `b`: the longer retired root goes first,
/// and among those of one length the one that is first in byte order.
pub open spec fn goes_before(a: Rewrite, b: Rewrite) -> bool {
    let x = encode_utf8(a.from_root);
    let y = encode_utf8(b.from_root);
    x.len() > y.len() || (x.len() == y.len() && text::bytes_before(x, y))
}

/// `s` with `x` put in after everything that it does not go before.
pub open spec fn placed(s: Seq<Rewrite>, x: Rewrite) -> Seq<Rewrite>
    decreases s.len(),
{
    if s.len() == 0 || !goes_before(x, s.last()) {
        s.push(x)
    } else {
        placed(s.drop_last(), x).push(s.last())
    }
}

/// The rewrites in the order in which they are to be applied; those that share
/// a retired root keep the order that they had.
pub open spec fn ordered(s: Seq<Rewrite>) -> Seq<Rewrite>
    decreases s.len(),
{
    if s.len() == 0 {
        s
    } else {
        placed(ordered(s.drop_last()), s.last())
    }
}

/// The plan for a batch of offending paths.
pub open spec fn planned(offending: Seq<Seq<char>>, roots: Seq<Seq<char>>) -> Seq<Rewrite> {
    ordered(tally(moves(offending, roots)))
}

proof fn lemma_occurrences_push(m: Seq<Move>, x: Move, y: Move)
    ensures
        lists::occurrences(m.push(x), y) == lists::occurrences(m, y) + if x == y {
            1nat
        } else {
            0
        },
{
    assert(m.push(x).drop_last() == m);
}

/// A move that comes up for the first time is added at the end of the tally.
pub proof fn lemma_tally_new(m: Seq<Move>, x: Move)
    requires
        !lists::distinct(m).contains(x),
    ensures
        tally(m.push(x)) == tally(m).push(
            Rewrite { from_root: x.0, to_root: x.1, occurrences: 1 },
        ),
{
    assert(m.push(x).drop_last() == m);
    lists::lemma_distinct(m);
    lists::lemma_occurrences(m, x);
    let wanted = tally(m).push(Rewrite { from_root: x.0, to_root: x.1, occurrences: 1 });
    assert forall|i: int| 0 <= i < wanted.len() implies tally(m.push(x))[i] == wanted[i] by {
        lemma_occurrences_push(m, x, lists::distinct(m.push(x))[i]);
        if i < lists::distinct(m).len() {
            assert(lists::distinct(m).contains(lists::distinct(m)[i]));
        }
    }
    assert(tally(m.push(x)) == wanted);
}

/// A move that came up before is counted once more where it stands.
pub proof fn lemma_tally_again(m: Seq<Move>, x: Move, j: int)
    requires
        0 <= j < lists::distinct(m).len(),
        lists::distinct(m)[j] == x,
    ensures
        tally(m.push(x)) == tally(m).update(
            j,
            Rewrite {
                from_root: x.0,
                to_root: x.1,
                occurrences: tally(m)[j].occurrences + 1,
            },
        ),
{
    assert(m.push(x).drop_last() == m);
    assert(lists::distinct(m).contains(x));
    lists::lemma_distinct(m);
    let wanted = tally(m).update(
        j,
        Rewrite { from_root: x.0, to_root: x.1, occurrences: tally(m)[j].occurrences + 1 },
    );
    assert forall|i: int| 0 <= i < wanted.len() implies tally(m.push(x))[i] == wanted[i] by {
        lemma_occurrences_push(m, x, lists::distinct(m)[i]);
    }
    assert(tally(m.push(x)) == wanted);
}

/// Where the rewrite from `from_root` to `to_root` stands among those found so
/// far.
fn find_rewrite(acc: &Vec<DriftRewrite>, from_root: &str, to_root: &str) -> (r: Option<usize>)
    ensures
        match r {
            Some(j) => {
                &&& j < acc@.len()
                &&& acc@[j as int].from_root@ == from_root@
                &&& acc@[j as int].to_root@ == to_root@
            },
            None => forall|j: int|
                0 <= j < acc@.len() ==> (#[trigger] acc@[j]).from_root@ != from_root@
                    || acc@[j].to_root@ != to_root@,
        },
{
    let n: usize = acc.len();
    let mut j: usize = 0;
    while j < n
        invariant
            j <= n == acc@.len(),
            forall|i: int|
                0 <= i < j ==> (#[trigger] acc@[i]).from_root@ != from_root@ || acc@[i].to_root@
                    != to_root@,
        decreases n - j,
    {
        if text::same_text(acc[j].from_root.as_str(), from_root) && text::same_text(
            acc[j].to_root.as_str(),
            to_root,
        ) {
            return Some(j);
        }
        j += 1;
    }
    None
}

/// Whether `a` is to be applied before `b`.
fn applies_before(a: &DriftRewrite, b: &DriftRewrite) -> (r: bool)
    ensures
        r == goes_before(a@, b@),
{
    let x: usize = a.from_root.as_str().as_bytes().len();
    let y: usize = b.from_root.as_str().as_bytes().len();
    x > y || (x == y && text::text_before(a.from_root.as_str(), b.from_root.as_str()))
}

/// `placed` puts the new rewrite at the place behind which everything is to be
/// applied later.
proof fn lemma_placed_at(s: Seq<Rewrite>, x: Rewrite, j: int)
    requires
        0 <= j <= s.len(),
        j == 0 || !goes_before(x, s[j - 1]),
        forall|i: int| j <= i < s.len() ==> goes_before(x, #[trigger] s[i]),
    ensures
        placed(s, x) == s.insert(j, x),
    decreases s.len(),
{
    if j < s.len() {
        let init = s.drop_last();
        assert forall|i: int| j <= i < init.len() implies goes_before(x, #[trigger] init[i]) by {
            assert(init[i] == s[i]);
        }
        assert(goes_before(x, s[s.len() - 1]));
        lemma_placed_at(init, x, j);
        assert(init.insert(j, x).push(s.last()) == s.insert(j, x));
    } else {
        assert(s.insert(j, x) == s.push(x));
    }
}

/// Puts the rewrites in the order in which they are to be applied.
fn sort_rewrites(v: &mut Vec<DriftRewrite>)
    ensures
        rewrite_views(final(v)@) == ordered(rewrite_views(old(v)@)),
{
    let ghost start = v@;
    let ghost all = rewrite_views(start);
    let n: usize = v.len();
    let mut i: usize = 0;
    assert(all.take(0) == Seq::<Rewrite>::empty());
    while i < n
        invariant
            i <= n == v@.len() == start.len(),
            all == rewrite_views(start),
            rewrite_views(v@.take(i as int)) == ordered(all.take(i as int)),
            v@.skip(i as int) == start.skip(i as int),
        decreases n - i,
    {
        let ghost before = v@;
        assert(before[i as int] == before.skip(i as int)[0]);
        assert(before[i as int] == start[i as int]);
        let x = v.remove(i);
        let mut j: usize = i;
        assert(v@ == before.remove(i as int));
        while j > 0 && applies_before(&x, &v[j - 1])
            invariant
                j <= i < n,
                v@.len() == n - 1,
                forall|k: int| j <= k < i ==> goes_before(x@, (#[trigger] v@[k])@),
            decreases j,
        {
            j -= 1;
        }
        let ghost rest = v@;
        v.insert(j, x);
        proof {
            let sorted = rewrite_views(before.take(i as int));
            assert(sorted == ordered(all.take(i as int)));
            assert forall|k: int| j <= k < sorted.len() implies goes_before(
                x@,
                #[trigger] sorted[k],
            ) by {
                assert(rest[k] == before[k]);
            }
            if j > 0 {
                assert(rest[j - 1] == before[j - 1]);
            }
            lemma_placed_at(sorted, x@, j as int);
            assert(all.take(i + 1).drop_last() == all.take(i as int));
            assert(all.take(i + 1).last() == x@);
            assert(rewrite_views(v@.take(i + 1)) == sorted.insert(j as int, x@));
            assert(v@.skip(i + 1) == start.skip(i + 1)) by {
                assert forall|k: int| i < k < n implies v@[k] == start[k] by {
                    assert(before.skip(i as int)[k - i] == start.skip(i as int)[k - i]);
                }
            }
        }
        i += 1;
    }
    assert(v@.take(n as int) == v@);
    assert(all.take(n as int) == all);
}

/// Plans the set of distinct prefix rewrites for a batch of offending paths:
/// one for each pair of roots, with the number of paths that call for it, the
/// longest retired root first.
pub fn plan_rewrites(offending: &[String], authoritative: &[String]) -> (r: Vec<DriftRewrite>)
    ensures
        rewrite_views(r@) == planned(text::views(offending@), text::views(authoritative@)),
{
    let mut acc: Vec<DriftRewrite> = Vec::new();
    let ghost offs = text::views(offending@);
    let ghost roots = text::views(authoritative@);
    let ghost infer = |p: Seq<char>| inferred(p, roots);
    let n: usize = offending.len();
    let mut i: usize = 0;
    proof {
        assert(offs.take(0) == Seq::<Seq<char>>::empty());
        reveal_with_fuel(Seq::filter_map, 1);
        assert(rewrite_views(acc@) == tally(moves(offs.take(0), roots)));
    }
    while i < n
        invariant
            i <= n == offending@.len(),
            offs == text::views(offending@),
            roots == text::views(authoritative@),
            infer == (|p: Seq<char>| inferred(p, roots)),
            moves(offs.take(i as int), roots).len() <= i,
            rewrite_views(acc@) == tally(moves(offs.take(i as int), roots)),
        decreases n - i,
    {
        let ghost m = moves(offs.take(i as int), roots);
        proof {
            offs.lemma_filter_map_take_succ(infer, i as int);
        }
        if let Some((from_root, to_root)) = infer_rewrite(offending[i].as_str(), authoritative) {
            let ghost x = (from_root@, to_root@);
            let ghost held = acc@;
            proof {
                assert(infer(offs[i as int]) == Some(x));
                assert(moves(offs.take(i + 1), roots) == m.push(x));
                assert(rewrite_views(held) == tally(m));
                assert(rewrite_views(held).len() == lists::distinct(m).len());
            }
            match find_rewrite(&acc, from_root.as_str(), to_root.as_str()) {
                Some(j) => {
                    proof {
                        assert(rewrite_views(held)[j as int] == held[j as int]@);
                        assert(tally(m)[j as int].from_root == lists::distinct(m)[j as int].0);
                        assert(lists::distinct(m)[j as int] == x);
                        lemma_tally_again(m, x, j as int);
                        lists::lemma_occurrences(m, x);
                    }
                    acc[j].occurrences = acc[j].occurrences + 1;
                    assert(rewrite_views(acc@) == rewrite_views(held).update(j as int, acc@[j as int]@));
                },
                None => {
                    proof {
                        assert(!lists::distinct(m).contains(x)) by {
                            if lists::distinct(m).contains(x) {
                                let j = choose|j: int|
                                    0 <= j < lists::distinct(m).len() && lists::distinct(m)[j] == x;
                                assert(rewrite_views(held)[j] == held[j]@);
                            }
                        }
                        lemma_tally_new(m, x);
                    }
                    let rewrite = DriftRewrite { from_root, to_root, occurrences: 1 };
                    acc.push(rewrite);
                    assert(rewrite_views(acc@) == rewrite_views(held).push(rewrite@));
                },
            }
        } else {
            proof {
                assert(infer(offs[i as int]) is None);
                assert(moves(offs.take(i + 1), roots) == m);
            }
        }
        i += 1;
    }
    assert(offs.take(n as int) == offs);
    sort_rewrites(&mut acc);
    acc
}

} // verus!
