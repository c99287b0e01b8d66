//! What a plan covers, and what applying it does to a path.

use vstd::prelude::*;
use vstd::utf8::*;

use crate::lists;
use crate::storage::drift;
use crate::storage::drift::Move;
use crate::storage::drift::Rewrite;
use crate::storage::drift_laws;
use crate::storage::paths;
use crate::text;

verus! {

/// How many paths the rewrites stand for in all.
pub open spec fn total(s: Seq<Rewrite>) -> int
    decreases s.len(),
{
    if s.len() == 0 {
        0
    } else {
        total(s.drop_last()) + s.last().occurrences
    }
}

proof fn lemma_total_insert(s: Seq<Rewrite>, j: int, x: Rewrite)
    requires
        0 <= j <= s.len(),
    ensures
        total(s.insert(j, x)) == total(s) + x.occurrences,
    decreases s.len(),
{
    if j == s.len() {
        assert(s.insert(j, x).drop_last() == s);
    } else {
        lemma_total_insert(s.drop_last(), j, x);
        assert(s.insert(j, x).drop_last() == s.drop_last().insert(j, x));
    }
}

proof fn lemma_total_update(s: Seq<Rewrite>, j: int, x: Rewrite)
    requires
        0 <= j < s.len(),
    ensures
        total(s.update(j, x)) == total(s) - s[j].occurrences + x.occurrences,
    decreases s.len(),
{
    if j == s.len() - 1 {
        assert(s.update(j, x).drop_last() == s.drop_last());
    } else {
        lemma_total_update(s.drop_last(), j, x);
        assert(s.update(j, x).drop_last() == s.drop_last().update(j, x));
    }
}

proof fn lemma_total_ordered(s: Seq<Rewrite>)
    ensures
        total(drift::ordered(s)) == total(s),
    decreases s.len(),
{
    if s.len() > 0 {
        let o = drift::ordered(s.drop_last());
        lemma_total_ordered(s.drop_last());
        let j = drift_laws::lemma_placed(o, s.last());
        lemma_total_insert(o, j, s.last());
    }
}

proof fn lemma_total_tally(m: Seq<Move>)
    ensures
        total(drift::tally(m)) == m.len(),
    decreases m.len(),
{
    if m.len() > 0 {
        let init = m.drop_last();
        let x = m.last();
        let t = drift::tally(init);
        lemma_total_tally(init);
        assert(m == init.push(x));
        if lists::distinct(init).contains(x) {
            let j = choose|j: int|
                0 <= j < lists::distinct(init).len() && lists::distinct(init)[j] == x;
            drift::lemma_tally_again(init, x, j);
            lemma_total_update(t, j, drift::tally(m)[j]);
        } else {
            drift::lemma_tally_new(init, x);
            assert(drift::tally(m).drop_last() == t);
        }
    }
}

/// A plan accounts for every offending path that calls for a rewrite, and for
/// no other: its counts add up to their number.
pub proof fn law_plan_counts_every_path(offending: Seq<Seq<char>>, roots: Seq<Seq<char>>)
    ensures
        total(drift::planned(offending, roots)) == drift::moves(offending, roots).len(),
{
    lemma_total_ordered(drift::tally(drift::moves(offending, roots)));
    lemma_total_tally(drift::moves(offending, roots));
}

proof fn lemma_plan_entry(m: Seq<Move>, i: int) -> (j: int)
    requires
        0 <= i < drift::ordered(drift::tally(m)).len(),
    ensures
        0 <= j < drift::tally(m).len(),
        drift::tally(m)[j] == drift::ordered(drift::tally(m))[i],
{
    broadcast use vstd::seq_lib::group_to_multiset_ensures;

    let t = drift::tally(m);
    let o = drift::ordered(t);
    drift_laws::law_ordered_permutes(t);
    assert(o.contains(o[i]));
    assert(o.to_multiset().contains(o[i]));
    assert(t.contains(o[i]));
    choose|j: int| 0 <= j < t.len() && t[j] == o[i]
}

/// The count of a planned rewrite is the number of offending paths that call
/// for it, and there is at least one.
pub proof fn law_plan_counts(offending: Seq<Seq<char>>, roots: Seq<Seq<char>>, i: int)
    requires
        0 <= i < drift::planned(offending, roots).len(),
    ensures
        ({
            let r = drift::planned(offending, roots)[i];
            let m = drift::moves(offending, roots);
            &&& r.occurrences == lists::occurrences(m, (r.from_root, r.to_root))
            &&& r.occurrences > 0
            &&& m.contains((r.from_root, r.to_root))
        }),
{
    let m = drift::moves(offending, roots);
    let j = lemma_plan_entry(m, i);
    lists::lemma_distinct(m);
    let x = lists::distinct(m)[j];
    assert(lists::distinct(m).contains(x));
    lists::lemma_occurrences(m, x);
}

proof fn lemma_moves_of_init(offending: Seq<Seq<char>>, roots: Seq<Seq<char>>)
    requires
        offending.len() > 0,
    ensures
        drift::moves(offending, roots) == match drift::inferred(offending.last(), roots) {
            Some(x) => drift::moves(offending.drop_last(), roots).push(x),
            None => drift::moves(offending.drop_last(), roots),
        },
{
    let infer = |p: Seq<char>| drift::inferred(p, roots);
    let n = offending.len() - 1;
    offending.lemma_filter_map_take_succ(infer, n);
    assert(offending.take(n + 1) == offending);
    assert(offending.take(n) == offending.drop_last());
    assert(infer(offending[n]) == drift::inferred(offending.last(), roots));
}

proof fn lemma_moves_counted(offending: Seq<Seq<char>>, roots: Seq<Seq<char>>, x: Move)
    ensures
        lists::occurrences(drift::moves(offending, roots), x) == offending.filter(
            |p: Seq<char>| drift::inferred(p, roots) == Some(x),
        ).len(),
    decreases offending.len(),
{
    let calls = |p: Seq<char>| drift::inferred(p, roots) == Some(x);
    if offending.len() == 0 {
        reveal_with_fuel(Seq::filter, 1);
        reveal_with_fuel(Seq::filter_map, 1);
    } else {
        let init = offending.drop_last();
        lemma_moves_counted(init, roots, x);
        lemma_moves_of_init(offending, roots);
        init.lemma_filter_push(offending.last(), calls);
        assert(init.push(offending.last()) == offending);
        if let Some(y) = drift::inferred(offending.last(), roots) {
            let m = drift::moves(init, roots);
            assert(m.push(y).drop_last() == m);
        }
    }
}

/// The count of a planned rewrite is the number of offending paths that call for
/// exactly that rewrite.
pub proof fn law_plan_counts_paths(offending: Seq<Seq<char>>, roots: Seq<Seq<char>>, i: int)
    requires
        0 <= i < drift::planned(offending, roots).len(),
    ensures
        ({
            let r = drift::planned(offending, roots)[i];
            r.occurrences == offending.filter(
                |p: Seq<char>| drift::inferred(p, roots) == Some((r.from_root, r.to_root)),
            ).len()
        }),
{
    let r = drift::planned(offending, roots)[i];
    law_plan_counts(offending, roots, i);
    lemma_moves_counted(offending, roots, (r.from_root, r.to_root));
}

/// A plan is ordered by its retired roots: the one that takes up more bytes goes
/// first, and of two that take up as many, the one that is first in the order of
/// bytes.
pub proof fn law_plan_order(
    offending: Seq<Seq<char>>,
    roots: Seq<Seq<char>>,
    i: int,
    j: int,
)
    requires
        0 <= i < j < drift::planned(offending, roots).len(),
    ensures
        ({
            let a = encode_utf8(drift::planned(offending, roots)[i].from_root);
            let b = encode_utf8(drift::planned(offending, roots)[j].from_root);
            &&& a.len() >= b.len()
            &&& a.len() == b.len() ==> a == b || text::bytes_before(a, b)
        }),
{
    let a = encode_utf8(drift::planned(offending, roots)[i].from_root);
    let b = encode_utf8(drift::planned(offending, roots)[j].from_root);
    drift_laws::law_ordered_is_sorted(drift::tally(drift::moves(offending, roots)));
    if a.len() == b.len() {
        lemma_bytes_before_total(a, b);
    }
}

proof fn lemma_bytes_before_total(a: Seq<u8>, b: Seq<u8>)
    requires
        a.len() == b.len(),
    ensures
        a == b || text::bytes_before(a, b) || text::bytes_before(b, a),
    decreases a.len(),
{
    if a.len() > 0 {
        lemma_bytes_before_total(a.drop_first(), b.drop_first());
        if a[0] == b[0] && a.drop_first() == b.drop_first() {
            assert(a == seq![a[0]] + a.drop_first());
            assert(b == seq![b[0]] + b.drop_first());
        }
    }
}

proof fn lemma_distinct_turns_up<A>(s: Seq<A>, a: int, b: int) -> (p: int)
    requires
        0 <= a < b < lists::distinct(s).len(),
    ensures
        0 <= p < s.len(),
        s[p] == lists::distinct(s)[a],
        !s.take(p + 1).contains(lists::distinct(s)[b]),
    decreases s.len(),
{
    let init = s.drop_last();
    let before = lists::distinct(init);
    lists::lemma_distinct(init);
    if b < before.len() {
        let p = lemma_distinct_turns_up(init, a, b);
        assert(init.take(p + 1) == s.take(p + 1));
        p
    } else {
        assert(before.contains(before[a]));
        let p = choose|p: int| 0 <= p < init.len() && init[p] == before[a];
        let y = lists::distinct(s)[b];
        assert(y == s.last());
        let head = s.take(p + 1);
        if head.contains(y) {
            let q = choose|q: int| 0 <= q < head.len() && head[q] == y;
            assert(init[q] == y);
            assert(init.contains(y));
        }
        p
    }
}

proof fn lemma_moves_turn_up(offending: Seq<Seq<char>>, roots: Seq<Seq<char>>, p: int) -> (at: int)
    requires
        0 <= p < drift::moves(offending, roots).len(),
    ensures
        0 <= at < offending.len(),
        drift::inferred(offending[at], roots) == Some(drift::moves(offending, roots)[p]),
        drift::moves(offending.take(at + 1), roots) == drift::moves(offending, roots).take(p + 1),
    decreases offending.len(),
{
    let m = drift::moves(offending, roots);
    if offending.len() == 0 {
        reveal_with_fuel(Seq::filter_map, 1);
        0
    } else {
        let init = offending.drop_last();
        let before = drift::moves(init, roots);
        lemma_moves_of_init(offending, roots);
        if p < before.len() {
            let at = lemma_moves_turn_up(init, roots, p);
            assert(init.take(at + 1) == offending.take(at + 1));
            assert(before.take(p + 1) == m.take(p + 1));
            at
        } else {
            assert(offending.take(offending.len() as int) == offending);
            assert(m.take(p + 1) == m);
            offending.len() - 1
        }
    }
}

/// Rewrites of a plan that share a retired root keep the order in which the
/// offending paths first call for them.
pub proof fn law_plan_keeps_ties_in_order(
    offending: Seq<Seq<char>>,
    roots: Seq<Seq<char>>,
    i: int,
    j: int,
)
    requires
        0 <= i < j < drift::planned(offending, roots).len(),
        drift::planned(offending, roots)[i].from_root == drift::planned(
            offending,
            roots,
        )[j].from_root,
    ensures
        ({
            let a = drift::planned(offending, roots)[i];
            let b = drift::planned(offending, roots)[j];
            exists|at: int|
                {
                    &&& 0 <= at < offending.len()
                    &&& #[trigger] drift::inferred(offending[at], roots) == Some(
                        (a.from_root, a.to_root),
                    )
                    &&& forall|q: int|
                        0 <= q <= at ==> drift::inferred(#[trigger] offending[q], roots) != Some(
                            (b.from_root, b.to_root),
                        )
                }
        }),
{
    let m = drift::moves(offending, roots);
    let t = drift::tally(m);
    let o = drift::ordered(t);
    let key = encode_utf8(o[i].from_root);
    let y = (o[j].from_root, o[j].to_root);
    drift_laws::lemma_bytes_before_asymmetric(key, key);
    drift_laws::law_ordered_is_stable(t, i, j);
    let (a, b) = choose|p: int, q: int|
        0 <= p < q < t.len() && #[trigger] t[p] == o[i] && #[trigger] t[q] == o[j];
    let p = lemma_distinct_turns_up(m, a, b);
    assert(lists::distinct(m)[b] == y);
    let at = lemma_moves_turn_up(offending, roots, p);
    assert forall|q: int| 0 <= q <= at implies drift::inferred(#[trigger] offending[q], roots)
        != Some(y) by {
        if drift::inferred(offending[q], roots) == Some(y) {
            assert(offending.take(at + 1)[q] == offending[q]);
            lemma_moves_contains(offending.take(at + 1), roots, q);
        }
    }
    assert(drift::inferred(offending[at], roots) == Some((o[i].from_root, o[i].to_root)));
}

/// Every rewrite that an offending path calls for is in the plan.
pub proof fn law_plan_is_complete(offending: Seq<Seq<char>>, roots: Seq<Seq<char>>, path: Seq<char>)
    requires
        offending.contains(path),
    ensures
        match drift::inferred(path, roots) {
            Some((from, to)) => exists|i: int|
                0 <= i < drift::planned(offending, roots).len() && (#[trigger] drift::planned(
                    offending,
                    roots,
                )[i]).from_root == from && drift::planned(offending, roots)[i].to_root == to,
            None => true,
        },
{
    broadcast use vstd::seq_lib::group_to_multiset_ensures;

    if drift::inferred(path, roots) is Some {
        let x = drift::inferred(path, roots)->0;
        let infer = |p: Seq<char>| drift::inferred(p, roots);
        let m = drift::moves(offending, roots);
        let t = drift::tally(m);
        let o = drift::ordered(t);
        let at = choose|at: int| 0 <= at < offending.len() && offending[at] == path;
        assert(infer(offending[at]) == Some(x));
        lemma_moves_contains(offending, roots, at);
        assert(m.contains(x));
        lists::lemma_distinct(m);
        assert(lists::distinct(m).contains(x));
        let j = choose|j: int| 0 <= j < lists::distinct(m).len() && lists::distinct(m)[j] == x;
        drift_laws::law_ordered_permutes(t);
        assert(t.contains(t[j]));
        assert(t.to_multiset().contains(t[j]));
        assert(o.to_multiset().contains(t[j]));
        assert(o.contains(t[j]));
        let i = choose|i: int| 0 <= i < o.len() && o[i] == t[j];
        assert(drift::planned(offending, roots)[i].from_root == x.0);
    }
}

proof fn lemma_moves_contains(offending: Seq<Seq<char>>, roots: Seq<Seq<char>>, at: int)
    requires
        0 <= at < offending.len(),
        drift::inferred(offending[at], roots) is Some,
    ensures
        drift::moves(offending, roots).contains(drift::inferred(offending[at], roots)->0),
    decreases offending.len(),
{
    let infer = |p: Seq<char>| drift::inferred(p, roots);
    let init = offending.drop_last();
    let x = drift::inferred(offending[at], roots)->0;
    let m = drift::moves(offending, roots);
    reveal_with_fuel(Seq::filter_map, 2);
    if at == offending.len() - 1 {
        assert(m[m.len() - 1] == x);
    } else {
        lemma_moves_contains(init, roots, at);
        let k = choose|k: int|
            0 <= k < drift::moves(init, roots).len() && drift::moves(init, roots)[k] == x;
        assert(m[k] == x);
    }
}

/// No two rewrites of a plan have both roots in common.
pub proof fn law_plan_is_distinct(
    offending: Seq<Seq<char>>,
    roots: Seq<Seq<char>>,
    i: int,
    j: int,
)
    requires
        0 <= i < j < drift::planned(offending, roots).len(),
    ensures
        drift::planned(offending, roots)[i].from_root != drift::planned(
            offending,
            roots,
        )[j].from_root || drift::planned(offending, roots)[i].to_root != drift::planned(
            offending,
            roots,
        )[j].to_root,
{
    let m = drift::moves(offending, roots);
    let t = drift::tally(m);
    let o = drift::ordered(t);
    lists::lemma_distinct(m);
    if o[i].from_root == o[j].from_root && o[i].to_root == o[j].to_root {
        let key = encode_utf8(o[i].from_root);
        drift_laws::lemma_bytes_before_asymmetric(key, key);
        drift_laws::law_ordered_is_stable(t, i, j);
        let (p, q) = choose|p: int, q: int|
            0 <= p < q < t.len() && #[trigger] t[p] == o[i] && #[trigger] t[q] == o[j];
        assert(lists::distinct(m)[p] == lists::distinct(m)[q]);
    }
}

proof fn lemma_moves_origin(offending: Seq<Seq<char>>, roots: Seq<Seq<char>>, x: Move) -> (at: int)
    requires
        drift::moves(offending, roots).contains(x),
    ensures
        0 <= at < offending.len(),
        drift::inferred(offending[at], roots) == Some(x),
    decreases offending.len(),
{
    let infer = |p: Seq<char>| drift::inferred(p, roots);
    let m = drift::moves(offending, roots);
    reveal_with_fuel(Seq::filter_map, 2);
    let k = choose|k: int| 0 <= k < m.len() && m[k] == x;
    let init = offending.drop_last();
    let before = drift::moves(init, roots);
    if k < before.len() {
        assert(before[k] == x);
        let at = lemma_moves_origin(init, roots, x);
        assert(init[at] == offending[at]);
        at
    } else {
        offending.len() - 1
    }
}

/// Every planned rewrite is called for by one of the offending paths.
pub proof fn law_plan_is_sound(offending: Seq<Seq<char>>, roots: Seq<Seq<char>>, i: int)
    requires
        0 <= i < drift::planned(offending, roots).len(),
    ensures
        ({
            let r = drift::planned(offending, roots)[i];
            exists|at: int|
                0 <= at < offending.len() && #[trigger] drift::inferred(offending[at], roots)
                    == Some((r.from_root, r.to_root))
        }),
{
    let r = drift::planned(offending, roots)[i];
    law_plan_counts(offending, roots, i);
    let at = lemma_moves_origin(offending, roots, (r.from_root, r.to_root));
    assert(drift::inferred(offending[at], roots) == Some((r.from_root, r.to_root)));
}

proof fn lemma_roots_are_rooted(path: Seq<char>, roots: Seq<Seq<char>>)
    requires
        drift::inferred(path, roots) is Some,
    ensures
        ({
            let (from, to) = drift::inferred(path, roots)->0;
            &&& from == paths::rooted(paths::segs(from))
            &&& to == paths::rooted(paths::segs(to))
        }),
{
    let c = drift_laws::lemma_inferred_parts(path, roots);
}

/// A more general rewrite never stands before a more specific one: no retired
/// root of a plan lies beneath a different one that precedes it.
pub proof fn law_plan_never_shadows(
    offending: Seq<Seq<char>>,
    roots: Seq<Seq<char>>,
    i: int,
    j: int,
)
    requires
        0 <= i < j < drift::planned(offending, roots).len(),
        paths::under(
            drift::planned(offending, roots)[j].from_root,
            drift::planned(offending, roots)[i].from_root,
        ),
    ensures
        drift::planned(offending, roots)[i].from_root == drift::planned(
            offending,
            roots,
        )[j].from_root,
{
    let plan = drift::planned(offending, roots);
    let a = plan[i].from_root;
    let b = plan[j].from_root;
    law_plan_is_sound(offending, roots, i);
    law_plan_is_sound(offending, roots, j);
    let p = choose|at: int|
        0 <= at < offending.len() && #[trigger] drift::inferred(offending[at], roots) == Some(
            (plan[i].from_root, plan[i].to_root),
        );
    let q = choose|at: int|
        0 <= at < offending.len() && #[trigger] drift::inferred(offending[at], roots) == Some(
            (plan[j].from_root, plan[j].to_root),
        );
    lemma_roots_are_rooted(offending[p], roots);
    lemma_roots_are_rooted(offending[q], roots);
    drift_laws::law_ordered_is_sorted(drift::tally(drift::moves(offending, roots)));
    if paths::segs(a).len() < paths::segs(b).len() {
        paths::law_segments_well_formed(b);
        drift_laws::lemma_longer_path(paths::segs(a), paths::segs(b));
        assert(drift::goes_before(plan[j], plan[i]));
    } else {
        assert(paths::segs(b).subrange(0, paths::segs(a).len() as int) == paths::segs(b));
    }
}

/// The segments of a path after one rewrite: moved where it lies under the
/// retired root, unchanged where it does not.
pub open spec fn applied(path: Seq<Seq<char>>, r: Rewrite) -> Seq<Seq<char>> {
    if paths::segs(r.from_root).is_prefix_of(path) {
        drift_laws::moved(path, paths::segs(r.from_root), paths::segs(r.to_root))
    } else {
        path
    }
}

/// The segments of a path after a whole plan, one rewrite after the other.
pub open spec fn applied_all(path: Seq<Seq<char>>, plan: Seq<Rewrite>) -> Seq<Seq<char>>
    decreases plan.len(),
{
    if plan.len() == 0 {
        path
    } else {
        applied(applied_all(path, plan.drop_last()), plan.last())
    }
}

/// A path that was moved from `from` to `to` lies under `other` exactly where
/// `to` does, or where `other` lies beneath `to` and the rest of the path
/// happens to go on as `other` does.
pub proof fn law_moved_path_lands_under(
    from: Seq<char>,
    to: Seq<char>,
    other: Seq<char>,
    rest: Seq<Seq<char>>,
)
    ensures
        paths::segs(other).is_prefix_of(
            drift_laws::moved(paths::segs(from) + rest, paths::segs(from), paths::segs(to)),
        ) <==> {
            ||| paths::under(to, other)
            ||| {
                &&& paths::under(other, to)
                &&& paths::segs(other).skip(paths::segs(to).len() as int).is_prefix_of(rest)
            }
        },
{
    let f = paths::segs(from);
    let t = paths::segs(to);
    let o = paths::segs(other);
    let m = drift_laws::moved(f + rest, f, t);
    assert((f + rest).skip(f.len() as int) == rest);
    assert(m == t + rest);
    if o.is_prefix_of(m) {
        assert forall|i: int| 0 <= i < o.len() implies o[i] == m[i] by {
            assert(m.subrange(0, o.len() as int)[i] == m[i]);
        }
        if o.len() <= t.len() {
            assert(o == t.subrange(0, o.len() as int));
        } else {
            assert(t == o.subrange(0, t.len() as int));
            let tail = o.skip(t.len() as int);
            assert(tail == rest.subrange(0, tail.len() as int));
        }
    }
    if o.is_prefix_of(t) {
        assert forall|i: int| 0 <= i < o.len() implies o[i] == m[i] by {
            assert(t.subrange(0, o.len() as int)[i] == t[i]);
        }
        assert(o == m.subrange(0, o.len() as int));
    }
    let tail = o.skip(t.len() as int);
    if t.is_prefix_of(o) && tail.is_prefix_of(rest) {
        assert forall|i: int| 0 <= i < o.len() implies o[i] == m[i] by {
            if i < t.len() {
                assert(o.subrange(0, t.len() as int)[i] == o[i]);
            } else {
                assert(tail[i - t.len()] == o[i]);
                assert(rest.subrange(0, tail.len() as int)[i - t.len()] == rest[i - t.len()]);
            }
        }
        assert(o == m.subrange(0, o.len() as int));
    }
}

/// When a planned rewrite matches again what it has moved. The text of its live
/// root, with a slash behind, begins with that of its retired root exactly where
/// the live root lies under the retired one. A path that was moved lies under
/// the retired root again exactly there, and where the retired root lies beneath
/// the live one and the rest of the path happens to go on as it does.
pub proof fn law_rewrite_matches_again(
    offending: Seq<Seq<char>>,
    roots: Seq<Seq<char>>,
    i: int,
    rest: Seq<Seq<char>>,
)
    requires
        0 <= i < drift::planned(offending, roots).len(),
    ensures
        ({
            let from = drift::planned(offending, roots)[i].from_root;
            let to = drift::planned(offending, roots)[i].to_root;
            &&& (from + "/"@).is_prefix_of(to + "/"@) <==> paths::under(to, from)
            &&& paths::segs(from).is_prefix_of(
                drift_laws::moved(paths::segs(from) + rest, paths::segs(from), paths::segs(to)),
            ) <==> {
                ||| paths::under(to, from)
                ||| {
                    &&& paths::under(from, to)
                    &&& paths::segs(from).skip(paths::segs(to).len() as int).is_prefix_of(rest)
                }
            }
        }),
{
    let from = drift::planned(offending, roots)[i].from_root;
    let to = drift::planned(offending, roots)[i].to_root;
    law_plan_is_sound(offending, roots, i);
    let at = choose|at: int|
        0 <= at < offending.len() && #[trigger] drift::inferred(offending[at], roots) == Some(
            (from, to),
        );
    lemma_roots_are_rooted(offending[at], roots);
    drift_laws::law_inferred_roots(offending[at], roots);
    paths::law_segments_well_formed(from);
    paths::law_segments_well_formed(to);
    paths::law_under_as_text(paths::segs(to), paths::segs(from));
    law_moved_path_lands_under(from, to, from, rest);
}

proof fn lemma_untouched(path: Seq<Seq<char>>, plan: Seq<Rewrite>)
    requires
        forall|j: int|
            0 <= j < plan.len() ==> !paths::segs((#[trigger] plan[j]).from_root).is_prefix_of(path),
    ensures
        applied_all(path, plan) == path,
    decreases plan.len(),
{
    if plan.len() > 0 {
        let init = plan.drop_last();
        assert forall|j: int| 0 <= j < init.len() implies !paths::segs(
            (#[trigger] init[j]).from_root,
        ).is_prefix_of(path) by {
            assert(init[j] == plan[j]);
        }
        lemma_untouched(path, init);
        assert(plan[plan.len() - 1] == plan.last());
    }
}

proof fn lemma_applied_once(path: Seq<Seq<char>>, plan: Seq<Rewrite>, i: int)
    requires
        0 <= i < plan.len(),
        forall|j: int|
            0 <= j < i ==> !paths::segs((#[trigger] plan[j]).from_root).is_prefix_of(path),
        forall|j: int|
            i < j < plan.len() ==> !paths::segs((#[trigger] plan[j]).from_root).is_prefix_of(
                applied(path, plan[i]),
            ),
    ensures
        applied_all(path, plan) == applied(path, plan[i]),
    decreases plan.len(),
{
    let init = plan.drop_last();
    if i == plan.len() - 1 {
        assert forall|j: int| 0 <= j < init.len() implies !paths::segs(
            (#[trigger] init[j]).from_root,
        ).is_prefix_of(path) by {
            assert(init[j] == plan[j]);
        }
        lemma_untouched(path, init);
    } else {
        assert forall|j: int| i < j < init.len() implies !paths::segs(
            (#[trigger] init[j]).from_root,
        ).is_prefix_of(applied(path, init[i])) by {
            assert(init[j] == plan[j]);
        }
        assert forall|j: int| 0 <= j < i implies !paths::segs(
            (#[trigger] init[j]).from_root,
        ).is_prefix_of(path) by {
            assert(init[j] == plan[j]);
        }
        lemma_applied_once(path, init, i);
        assert(plan[plan.len() - 1] == plan.last());
    }
}

/// A path is touched once: the first rewrite whose retired root holds it moves
/// it, and no later rewrite matches it again. Left out are the plans in which
/// one does: where the live root lies under a later retired root, or the later
/// retired root beneath the live one and the rest of the path goes on as it does.
pub proof fn law_path_is_touched_once(path: Seq<Seq<char>>, plan: Seq<Rewrite>, i: int)
    requires
        0 <= i < plan.len(),
        paths::segs(plan[i].from_root).is_prefix_of(path),
        forall|j: int|
            0 <= j < i ==> !paths::segs((#[trigger] plan[j]).from_root).is_prefix_of(path),
        forall|j: int|
            i < j < plan.len() ==> {
                &&& !paths::under(plan[i].to_root, (#[trigger] plan[j]).from_root)
                &&& !(paths::under(plan[j].from_root, plan[i].to_root) && paths::segs(
                    plan[j].from_root,
                ).skip(paths::segs(plan[i].to_root).len() as int).is_prefix_of(
                    path.skip(paths::segs(plan[i].from_root).len() as int),
                ))
            },
    ensures
        applied_all(path, plan) == drift_laws::moved(
            path,
            paths::segs(plan[i].from_root),
            paths::segs(plan[i].to_root),
        ),
{
    let f = paths::segs(plan[i].from_root);
    let rest = path.skip(f.len() as int);
    assert(path == f + rest);
    assert forall|j: int| i < j < plan.len() implies !paths::segs(
        (#[trigger] plan[j]).from_root,
    ).is_prefix_of(applied(path, plan[i])) by {
        law_moved_path_lands_under(
            plan[i].from_root,
            plan[i].to_root,
            plan[j].from_root,
            rest,
        );
    }
    lemma_applied_once(path, plan, i);
}

/// A path outside every retired root of a plan stays as it is.
pub proof fn law_other_paths_are_untouched(path: Seq<Seq<char>>, plan: Seq<Rewrite>)
    requires
        forall|j: int|
            0 <= j < plan.len() ==> !paths::segs((#[trigger] plan[j]).from_root).is_prefix_of(path),
    ensures
        applied_all(path, plan) == path,
{
    lemma_untouched(path, plan);
}

/// A retired root that holds an offending path goes no deeper than the one
/// inferred for that path.
proof fn lemma_no_deeper_root(path: Seq<char>, other: Seq<char>, roots: Seq<Seq<char>>)
    requires
        drift::inferred(path, roots) is Some,
        drift::inferred(other, roots) is Some,
        ({
            let (from, to) = drift::inferred(other, roots)->0;
            paths::under(path, from)
        }),
    ensures
        ({
            let (from, to) = drift::inferred(path, roots)->0;
            let (deep, live) = drift::inferred(other, roots)->0;
            paths::segs(deep).len() <= paths::segs(from).len()
        }),
{
    let p = paths::segs(path);
    let q = paths::segs(other);
    let (i, k) = drift_laws::lemma_inferred_parts(path, roots);
    let (d, l) = drift_laws::lemma_inferred_parts(other, roots);
    let name = paths::segs(roots[k]).last();
    drift_laws::law_best_split(p, roots);
    drift_laws::law_best_split(q, roots);
    drift_laws::lemma_split_point(p, roots[k]);
    if i < d {
        assert forall|j: int| 0 <= j < d implies p[j] == q[j] by {
            assert(q.take(d)[j] == q[j]);
            assert(p.subrange(0, d)[j] == p[j]);
        }
        q.index_of_first_ensures(name);
        assert(q[i] == name);
        assert(q.contains(name));
        assert(q.index_of_first(name) == Some(i));
        assert(drift::split_point(q, roots[k]) == Some(i));
    }
}

/// Applying a plan restores every sampled path that calls for a rewrite: it
/// ends up under a library location, as it was before the plan. Left out are a path whose retired root
/// the plan moves to another live root before, and a path whose new place lies
/// under a retired root that is still to come.
pub proof fn law_plan_restores(
    offending: Seq<Seq<char>>,
    roots: Seq<Seq<char>>,
    path: Seq<char>,
    i: int,
)
    requires
        offending.contains(path),
        0 <= i < drift::planned(offending, roots).len(),
        drift::inferred(path, roots) == Some(
            (
                drift::planned(offending, roots)[i].from_root,
                drift::planned(offending, roots)[i].to_root,
            ),
        ),
        forall|j: int|
            0 <= j < i ==> (#[trigger] drift::planned(offending, roots)[j]).from_root
                != drift::planned(offending, roots)[i].from_root,
        forall|j: int|
            i < j < drift::planned(offending, roots).len() ==> !paths::segs(
                (#[trigger] drift::planned(offending, roots)[j]).from_root,
            ).is_prefix_of(applied(paths::segs(path), drift::planned(offending, roots)[i])),
    ensures
        exists|k: int|
            0 <= k < roots.len() && #[trigger] paths::under(
                paths::rooted(
                    applied_all(paths::segs(path), drift::planned(offending, roots)),
                ),
                roots[k],
            ),
{
    let plan = drift::planned(offending, roots);
    let p = paths::segs(path);
    let from = plan[i].from_root;
    drift_laws::law_inferred_roots(path, roots);
    lemma_roots_are_rooted(path, roots);
    assert forall|j: int| 0 <= j < i implies !paths::segs(
        (#[trigger] plan[j]).from_root,
    ).is_prefix_of(p) by {
        if paths::segs(plan[j].from_root).is_prefix_of(p) {
            law_plan_is_sound(offending, roots, j);
            let at = choose|at: int|
                0 <= at < offending.len() && #[trigger] drift::inferred(offending[at], roots)
                    == Some((plan[j].from_root, plan[j].to_root));
            lemma_no_deeper_root(path, offending[at], roots);
            let a = paths::segs(plan[j].from_root);
            let b = paths::segs(from);
            assert(a == b.subrange(0, a.len() as int)) by {
                assert forall|x: int| 0 <= x < a.len() implies a[x] == b[x] by {
                    assert(p.subrange(0, a.len() as int)[x] == p[x]);
                    assert(p.subrange(0, b.len() as int)[x] == p[x]);
                }
            }
            law_plan_never_shadows(offending, roots, j, i);
        }
    }
    lemma_applied_once(p, plan, i);
    drift_laws::law_rewrite_repairs(path, roots);
}

/// Applying a plan restores every sampled path that calls for a rewrite, with
/// the library locations moved along as well: none of them changes, and the path
/// ends up under one of them. Left out, besides what [`law_plan_restores`]
/// leaves out, are the plans that move a location, since it lies under a retired
/// root: with the location `/mnt/data/movies`, the path `/mnt/movies/f` calls for
/// `/mnt` to become `/mnt/data`, and that takes the location to
/// `/mnt/data/data/movies`.
pub proof fn law_plan_restores_and_keeps_locations(
    offending: Seq<Seq<char>>,
    roots: Seq<Seq<char>>,
    path: Seq<char>,
    i: int,
)
    requires
        offending.contains(path),
        0 <= i < drift::planned(offending, roots).len(),
        drift::inferred(path, roots) == Some(
            (
                drift::planned(offending, roots)[i].from_root,
                drift::planned(offending, roots)[i].to_root,
            ),
        ),
        forall|j: int|
            0 <= j < i ==> (#[trigger] drift::planned(offending, roots)[j]).from_root
                != drift::planned(offending, roots)[i].from_root,
        forall|j: int|
            i < j < drift::planned(offending, roots).len() ==> !paths::segs(
                (#[trigger] drift::planned(offending, roots)[j]).from_root,
            ).is_prefix_of(applied(paths::segs(path), drift::planned(offending, roots)[i])),
        forall|k: int, j: int|
            0 <= k < roots.len() && 0 <= j < drift::planned(offending, roots).len()
                ==> !#[trigger] paths::under(
                roots[k],
                drift::planned(offending, roots)[j].from_root,
            ),
    ensures
        forall|k: int|
            0 <= k < roots.len() ==> applied_all(
                paths::segs(#[trigger] roots[k]),
                drift::planned(offending, roots),
            ) == paths::segs(roots[k]),
        exists|k: int|
            0 <= k < roots.len() && applied_all(
                paths::segs(#[trigger] roots[k]),
                drift::planned(offending, roots),
            ).is_prefix_of(applied_all(paths::segs(path), drift::planned(offending, roots))),
{
    let plan = drift::planned(offending, roots);
    let p = applied_all(paths::segs(path), plan);
    assert forall|k: int| 0 <= k < roots.len() implies applied_all(
        paths::segs(#[trigger] roots[k]),
        plan,
    ) == paths::segs(roots[k]) by {
        assert forall|j: int| 0 <= j < plan.len() implies !paths::segs(
            (#[trigger] plan[j]).from_root,
        ).is_prefix_of(paths::segs(roots[k])) by {
            assert(!paths::under(roots[k], plan[j].from_root));
        }
        lemma_untouched(paths::segs(roots[k]), plan);
    }
    law_plan_restores(offending, roots, path, i);
    let k = choose|k: int|
        0 <= k < roots.len() && #[trigger] paths::under(paths::rooted(p), roots[k]);
    paths::law_segments_well_formed(path);
    lemma_applied_well_formed(paths::segs(path), plan);
    paths::law_rooted_round_trip(p);
    assert(paths::segs(roots[k]).is_prefix_of(p));
}

proof fn lemma_applied_well_formed(path: Seq<Seq<char>>, plan: Seq<Rewrite>)
    requires
        paths::well_formed(path),
    ensures
        paths::well_formed(applied_all(path, plan)),
    decreases plan.len(),
{
    if plan.len() > 0 {
        let before = applied_all(path, plan.drop_last());
        let r = plan.last();
        lemma_applied_well_formed(path, plan.drop_last());
        if paths::segs(r.from_root).is_prefix_of(before) {
            drift_laws::lemma_moved_well_formed(before, r.from_root, r.to_root);
        }
    }
}

} // verus!
