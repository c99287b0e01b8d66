//! Sequences without repetition, and how often a value occurs in one.

use vstd::prelude::*;

verus! {

/// The distinct values of `s`, each where it occurs first.
pub open spec fn distinct<A>(s: Seq<A>) -> Seq<A>
    decreases s.len(),
{
    if s.len() == 0 {
        Seq::empty()
    } else {
        let before = distinct(s.drop_last());
        if before.contains(s.last()) {
            before
        } else {
            before.push(s.last())
        }
    }
}

/// How often `x` occurs in `s`.
pub open spec fn occurrences<A>(s: Seq<A>, x: A) -> nat
    decreases s.len(),
{
    if s.len() == 0 {
        0
    } else {
        occurrences(s.drop_last(), x) + if s.last() == x {
            1nat
        } else {
            0
        }
    }
}

/// `distinct` keeps every value of `s`, adds none and repeats none.
pub proof fn lemma_distinct<A>(s: Seq<A>)
    ensures
        distinct(s).no_duplicates(),
        distinct(s).len() <= s.len(),
        forall|x: A| #[trigger] distinct(s).contains(x) <==> s.contains(x),
    decreases s.len(),
{
    if s.len() > 0 {
        let init = s.drop_last();
        let before = distinct(init);
        lemma_distinct(init);
        assert(s == init.push(s.last()));
        assert forall|x: A| #[trigger] distinct(s).contains(x) <==> s.contains(x) by {
            if s.contains(x) {
                let i = choose|i: int| 0 <= i < s.len() && s[i] == x;
                if i < init.len() {
                    assert(init[i] == x);
                    assert(before.contains(x));
                    let j = choose|j: int| 0 <= j < before.len() && before[j] == x;
                    assert(distinct(s)[j] == x);
                } else {
                    assert(x == s.last());
                    if !before.contains(x) {
                        assert(distinct(s)[before.len() as int] == x);
                    }
                }
            }
            if distinct(s).contains(x) {
                let j = choose|j: int| 0 <= j < distinct(s).len() && distinct(s)[j] == x;
                if j < before.len() {
                    assert(before[j] == x);
                    assert(before.contains(x));
                    let i = choose|i: int| 0 <= i < init.len() && init[i] == x;
                    assert(s[i] == x);
                } else {
                    assert(s[s.len() - 1] == x);
                }
            }
        }
    }
}

/// A sequence that repeats nothing is its own `distinct`.
pub proof fn lemma_distinct_of_distinct<A>(s: Seq<A>)
    requires
        s.no_duplicates(),
    ensures
        distinct(s) == s,
    decreases s.len(),
{
    if s.len() > 0 {
        let init = s.drop_last();
        lemma_distinct_of_distinct(init);
        assert(!init.contains(s.last())) by {
            if init.contains(s.last()) {
                let i = choose|i: int| 0 <= i < init.len() && init[i] == s.last();
                assert(s[i] == s[s.len() - 1]);
            }
        }
        assert(s == init.push(s.last()));
    }
}

/// A value occurs in `s` exactly if it occurs at least once.
pub proof fn lemma_occurrences<A>(s: Seq<A>, x: A)
    ensures
        occurrences(s, x) <= s.len(),
        s.contains(x) <==> occurrences(s, x) > 0,
    decreases s.len(),
{
    if s.len() > 0 {
        let init = s.drop_last();
        lemma_occurrences(init, x);
        if s.contains(x) {
            let i = choose|i: int| 0 <= i < s.len() && s[i] == x;
            if i < init.len() {
                assert(init[i] == x);
            }
        }
        if init.contains(x) {
            let i = choose|i: int| 0 <= i < init.len() && init[i] == x;
            assert(s[i] == x);
        }
        if s.last() == x {
            assert(s[s.len() - 1] == x);
        }
    }
}

/// The distinct values are those of the sequence, none of them twice, and they
/// come in the order in which they turn up: those of any beginning come first.
pub proof fn law_distinct<A>(s: Seq<A>, k: int)
    requires
        0 <= k <= s.len(),
    ensures
        distinct(s).no_duplicates(),
        forall|x: A| #[trigger] distinct(s).contains(x) <==> s.contains(x),
        distinct(s.take(k)).is_prefix_of(distinct(s)),
    decreases s.len() - k,
{
    lemma_distinct(s);
    if k == s.len() {
        assert(s.take(k) == s);
        assert(distinct(s) == distinct(s).subrange(0, distinct(s).len() as int));
    } else {
        let a = distinct(s.take(k));
        let b = distinct(s.take(k + 1));
        let all = distinct(s);
        law_distinct(s, k + 1);
        assert(s.take(k + 1).drop_last() == s.take(k));
        assert(a == b.subrange(0, a.len() as int));
        assert(a == all.subrange(0, a.len() as int)) by {
            assert(b == all.subrange(0, b.len() as int));
            assert forall|i: int| 0 <= i < a.len() implies a[i] == all[i] by {
                assert(b[i] == all.subrange(0, b.len() as int)[i]);
            }
        }
    }
}

/// How often a value occurs is the sum over the parts of a sequence: each place
/// that holds it counts once, and no other.
pub proof fn law_occurrences<A>(a: Seq<A>, b: Seq<A>, x: A, y: A)
    ensures
        occurrences(a + b, x) == occurrences(a, x) + occurrences(b, x),
        occurrences(seq![x], x) == 1,
        x != y ==> occurrences(seq![y], x) == 0,
        occurrences(Seq::empty(), x) == 0,
    decreases b.len(),
{
    assert(occurrences(Seq::<A>::empty(), x) == 0);
    assert(seq![x].drop_last() == Seq::<A>::empty());
    assert(seq![y].drop_last() == Seq::<A>::empty());
    if b.len() == 0 {
        assert(a + b == a);
    } else {
        law_occurrences(a, b.drop_last(), x, y);
        assert((a + b).drop_last() == a + b.drop_last());
    }
}

} // verus!
