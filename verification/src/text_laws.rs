//! What splitting, joining, trimming and numbers in decimal are, told by how
//! they relate to each other and to the characters of the text.

use vstd::arithmetic::power::*;
use vstd::prelude::*;

use crate::text;

verus! {

/// The views of strings are their texts, one for one.
pub proof fn law_views(s: Seq<String>, t: Seq<&str>)
    ensures
        text::views(s).len() == s.len(),
        forall|i: int| 0 <= i < s.len() ==> #[trigger] text::views(s)[i] == s[i]@,
        text::str_views(t).len() == t.len(),
        forall|i: int| 0 <= i < t.len() ==> #[trigger] text::str_views(t)[i] == t[i]@,
{
}

/// Joining nothing gives nothing, joining one part gives it back, and joining
/// two lists one behind the other puts the separator once between their joins.
pub proof fn law_join(a: Seq<Seq<char>>, b: Seq<Seq<char>>, x: Seq<char>, sep: Seq<char>)
    ensures
        text::joined(Seq::empty(), sep) == Seq::<char>::empty(),
        text::joined(seq![x], sep) == x,
        a.len() > 0 && b.len() > 0 ==> text::joined(a + b, sep) == text::joined(a, sep) + sep
            + text::joined(b, sep),
    decreases b.len(),
{
    if a.len() > 0 && b.len() > 0 {
        let init = b.drop_last();
        assert((a + b).drop_last() == a + init);
        assert((a + b).last() == b.last());
        law_join(a, init, x, sep);
        if init.len() == 0 {
            assert(a + init == a);
            assert(b == seq![b[0]]);
        } else {
            assert(text::joined(a, sep) + sep + (text::joined(init, sep) + sep + b.last())
                == text::joined(a, sep) + sep + text::joined(init, sep) + sep + b.last());
        }
    }
}

/// Splitting loses nothing: joined by the separator again, the pieces give the
/// text, and none of them holds the separator.
pub proof fn law_split_restores(s: Seq<char>, sep: char)
    ensures
        text::split_on(s, sep).len() > 0,
        text::joined(text::split_on(s, sep), seq![sep]) == s,
        forall|i: int|
            0 <= i < text::split_on(s, sep).len() ==> !(#[trigger] text::split_on(
                s,
                sep,
            )[i]).contains(sep),
    decreases s.len(),
{
    let pieces = text::split_on(s, sep);
    text::lemma_split_on_has_a_piece(s, sep);
    assert forall|i: int| 0 <= i < pieces.len() implies !(#[trigger] pieces[i]).contains(sep) by {
        text::lemma_split_on_pieces(s, sep, i);
    }
    if s.len() == 0 {
        assert(s == Seq::<char>::empty());
    } else {
        let before = text::split_on(s.drop_last(), sep);
        law_split_restores(s.drop_last(), sep);
        assert(s == s.drop_last().push(s.last()));
        if s.last() == sep {
            assert(pieces.drop_last() == before);
            assert(s.drop_last() + seq![sep] + Seq::<char>::empty() == s);
        } else {
            let last = before.last().push(s.last());
            assert(pieces == before.drop_last().push(last));
            assert(pieces.drop_last() == before.drop_last());
            if before.len() == 1 {
                assert(text::joined(pieces, seq![sep]) == s);
            } else {
                let head = text::joined(before.drop_last(), seq![sep]) + seq![sep];
                assert(head + last == (head + before.last()).push(s.last()));
            }
        }
    }
}

/// Parts without the separator come back out of their join, so a text has no
/// other pieces than those.
pub proof fn law_split_of_join(parts: Seq<Seq<char>>, sep: char)
    requires
        parts.len() > 0,
        forall|i: int| 0 <= i < parts.len() ==> !(#[trigger] parts[i]).contains(sep),
    ensures
        text::split_on(text::joined(parts, seq![sep]), sep) == parts,
{
    text::lemma_split_on_joined(parts, sep);
}

/// Exactly the empty pieces are left out, and the order is kept.
pub proof fn law_filled(a: Seq<Seq<char>>, b: Seq<Seq<char>>, p: Seq<char>)
    ensures
        text::filled(a + b) == text::filled(a) + text::filled(b),
        p.len() > 0 ==> text::filled(seq![p]) == seq![p],
        p.len() == 0 ==> text::filled(seq![p]) == Seq::<Seq<char>>::empty(),
        text::filled(Seq::empty()) == Seq::<Seq<char>>::empty(),
{
    let full = |p: Seq<char>| p.len() > 0;
    Seq::filter_distributes_over_add(a, b, full);
    reveal_with_fuel(Seq::filter, 2);
    assert(seq![p].drop_last() == Seq::<Seq<char>>::empty());
    assert(seq![p] == Seq::<Seq<char>>::empty().push(p));
}

/// A leading copy of the prefix makes no difference to what is left, what is
/// left does not begin with it, and a text that does not is left alone.
pub proof fn law_trim_start_text(s: Seq<char>, prefix: Seq<char>)
    requires
        prefix.len() > 0,
    ensures
        text::trim_start_text(prefix + s, prefix) == text::trim_start_text(s, prefix),
        !prefix.is_prefix_of(text::trim_start_text(s, prefix)),
        !prefix.is_prefix_of(s) ==> text::trim_start_text(s, prefix) == s,
    decreases s.len(),
{
    let n = prefix.len() as int;
    assert((prefix + s).subrange(0, n) == prefix);
    assert((prefix + s).skip(n) == s);
    if prefix.is_prefix_of(s) {
        law_trim_start_text(s.skip(n), prefix);
    }
}

/// Trimming the start takes away exactly the leading characters that are to be
/// dropped.
pub proof fn law_trim_start(s: Seq<char>, drop: spec_fn(char) -> bool, n: int)
    requires
        0 <= n <= s.len(),
        forall|i: int| 0 <= i < n ==> drop(#[trigger] s[i]),
        n < s.len() ==> !drop(s[n]),
    ensures
        text::trim_start_by(s, drop) == s.skip(n),
    decreases n,
{
    if n == 0 {
        assert(s.skip(0) == s);
    } else {
        let rest = s.drop_first();
        assert(drop(s[0]));
        assert forall|i: int| 0 <= i < n - 1 implies drop(#[trigger] rest[i]) by {
            assert(rest[i] == s[i + 1]);
        }
        law_trim_start(rest, drop, n - 1);
        assert(rest.skip(n - 1) == s.skip(n));
    }
}

/// Trimming the end takes away exactly the trailing characters that are to be
/// dropped.
pub proof fn law_trim_end(s: Seq<char>, drop: spec_fn(char) -> bool, n: int)
    requires
        0 <= n <= s.len(),
        forall|i: int| n <= i < s.len() ==> drop(#[trigger] s[i]),
        n > 0 ==> !drop(s[n - 1]),
    ensures
        text::trim_end_by(s, drop) == s.take(n),
    decreases s.len(),
{
    if n == s.len() {
        assert(s.take(n) == s);
    } else {
        let init = s.drop_last();
        assert(drop(s[s.len() - 1]));
        assert forall|i: int| n <= i < init.len() implies drop(#[trigger] init[i]) by {
            assert(init[i] == s[i]);
        }
        law_trim_end(init, drop, n);
        assert(init.take(n) == s.take(n));
    }
}

/// Trimming takes away the white space on both sides and nothing else: what
/// stands between it comes out whole, with the white space that it holds inside.
pub proof fn law_trim_keeps_the_middle(left: Seq<char>, middle: Seq<char>, right: Seq<char>)
    requires
        forall|i: int| 0 <= i < left.len() ==> text::is_space(#[trigger] left[i]),
        forall|i: int| 0 <= i < right.len() ==> text::is_space(#[trigger] right[i]),
        middle.len() > 0 ==> !text::is_space(middle.first()) && !text::is_space(middle.last()),
    ensures
        text::trimmed(left + middle + right) == middle,
{
    let s = left + middle + right;
    let space = |c: char| text::is_space(c);
    if middle.len() > 0 {
        law_trim_start(s, space, left.len() as int);
        let t = s.skip(left.len() as int);
        assert(t == middle + right);
        law_trim_end(t, space, middle.len() as int);
        assert(t.take(middle.len() as int) == middle);
    } else {
        law_trim_start(s, space, s.len() as int);
        assert(s.skip(s.len() as int) == middle);
        law_trim_end(middle, space, 0);
        assert(middle.take(0) == middle);
    }
}

/// The value of digits goes by their places: each digit counts for itself, and
/// digits in front count ten times as much for each digit behind them.
pub proof fn law_digits_value(a: Seq<char>, b: Seq<char>, c: char)
    requires
        forall|i: int| 0 <= i < b.len() ==> '0' <= #[trigger] b[i] <= '9',
        '0' <= c <= '9',
    ensures
        text::digits_value(seq![c]) == c as int - '0' as int,
        text::digits_value(a + b) == text::digits_value(a) * pow(10, b.len())
            + text::digits_value(b),
    decreases b.len(),
{
    assert(seq![c].drop_last() == Seq::<char>::empty());
    assert(text::digits_value(Seq::<char>::empty()) == 0);
    if b.len() == 0 {
        assert(a + b == a);
        lemma_pow0(10);
    } else {
        let init = b.drop_last();
        assert forall|i: int| 0 <= i < init.len() implies '0' <= #[trigger] init[i] <= '9' by {
            assert(init[i] == b[i]);
        }
        law_digits_value(a, init, c);
        assert((a + b).drop_last() == a + init);
        let x = text::digits_value(a) as int;
        let p = pow(10, init.len());
        lemma_pow1(10);
        lemma_pow_adds(10, init.len(), 1);
        assert(x * (p * 10) == (x * p) * 10) by (nonlinear_arith);
    }
}

/// A number is written in digits that have its value, and not with a zero in
/// front unless it is zero.
pub proof fn law_decimal(n: nat)
    ensures
        forall|i: int| 0 <= i < text::decimal(n).len() ==> '0' <= #[trigger] text::decimal(n)[i]
            <= '9',
        text::digits_value(text::decimal(n)) == n,
        text::decimal(n).len() > 0,
        text::decimal(n).first() == '0' ==> n == 0 && text::decimal(n).len() == 1,
    decreases n,
{
    let d = text::decimal(n);
    if n < 10 {
        assert(d.drop_last() == Seq::<char>::empty());
        assert(text::digits_value(Seq::<char>::empty()) == 0);
    } else {
        law_decimal(n / 10);
        assert(d.drop_last() == text::decimal(n / 10));
        assert forall|i: int| 0 <= i < d.len() implies '0' <= #[trigger] d[i] <= '9' by {
            if i < d.len() - 1 {
                assert(d[i] == text::decimal(n / 10)[i]);
            }
        }
    }
}

/// Digits are read as their value, with a plus sign in front as well, and as its
/// negative behind a minus sign, as far as 64 bits go; beyond that they are not
/// read at all.
pub proof fn law_integer_is_read(digits: Seq<char>)
    requires
        digits.len() > 0,
        forall|i: int| 0 <= i < digits.len() ==> '0' <= #[trigger] digits[i] <= '9',
    ensures
        ({
            let value = text::digits_value(digits);
            let read = if value <= 0x7fff_ffff_ffff_ffff {
                Some(value as i64)
            } else {
                None
            };
            &&& text::integer_of(digits) == read
            &&& text::integer_of(seq!['+'] + digits) == read
            &&& text::integer_of(seq!['-'] + digits) == if value <= 0x8000_0000_0000_0000 {
                Some((-value) as i64)
            } else {
                None
            }
        }),
{
    let d = |c: char| text::is_digit(c);
    assert('0' <= digits[0] <= '9');
    assert(digits.all(d)) by {
        assert forall|i: int| 0 <= i < digits.len() implies d(#[trigger] digits[i]) by {}
    }
    assert((seq!['+'] + digits).skip(1) == digits);
    assert((seq!['-'] + digits).skip(1) == digits);
}

/// Only digits with at most one sign in front are read as an integer.
pub proof fn law_only_integers_are_read(s: Seq<char>)
    requires
        text::integer_of(s) is Some,
    ensures
        s.len() > 0,
        '0' <= s[0] <= '9' || ((s[0] == '+' || s[0] == '-') && s.len() > 1),
        forall|i: int| 1 <= i < s.len() ==> '0' <= #[trigger] s[i] <= '9',
{
    let d = |c: char| text::is_digit(c);
    let signed = s.len() > 0 && (s[0] == '-' || s[0] == '+');
    let digits = if signed {
        s.skip(1)
    } else {
        s
    };
    assert(digits.all(d));
    assert(d(digits[0]));
    assert forall|i: int| 1 <= i < s.len() implies '0' <= #[trigger] s[i] <= '9' by {
        if signed {
            assert(d(digits[i - 1]));
        } else {
            assert(d(digits[i]));
        }
    }
}

/// Bytes come before others exactly where the first place at which the two
/// differ says so: there the first ones have ended, or have the smaller byte.
pub proof fn law_bytes_before(a: Seq<u8>, b: Seq<u8>, k: int)
    requires
        0 <= k <= a.len(),
        k <= b.len(),
        a.take(k) == b.take(k),
        k < a.len() && k < b.len() ==> a[k] != b[k],
    ensures
        text::bytes_before(a, b) <==> k < b.len() && (k == a.len() || a[k] < b[k]),
    decreases k,
{
    if k > 0 {
        assert(a.take(k)[0] == a[0]);
        assert(b.take(k)[0] == b[0]);
        assert(a.drop_first().take(k - 1) == a.take(k).drop_first());
        assert(b.drop_first().take(k - 1) == b.take(k).drop_first());
        if k < a.len() {
            assert(a.drop_first()[k - 1] == a[k]);
        }
        if k < b.len() {
            assert(b.drop_first()[k - 1] == b[k]);
        }
        law_bytes_before(a.drop_first(), b.drop_first(), k - 1);
    }
}

} // verus!
