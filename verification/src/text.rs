//! Strings as sequences of characters: splitting, trimming, joining, numbers
//! in decimal, and the byte order of UTF-8 text.

use vstd::prelude::*;
use vstd::utf8::*;

verus! {

/// The views of a sequence of strings.
pub open spec fn views(s: Seq<String>) -> Seq<Seq<char>> {
    s.map_values(|x: String| x@)
}

/// The views of a sequence of string slices.
pub open spec fn str_views(s: Seq<&str>) -> Seq<Seq<char>> {
    s.map_values(|x: &str| x@)
}

/// The characters of `s`.
pub fn chars_of(s: &str) -> (r: Vec<char>)
    ensures
        r@ == s@,
{
    let mut r: Vec<char> = Vec::new();
    for c in it: s.chars()
        invariant
            it.seq() == s@,
            r@ == s@.take(it.index() as int),
    {
        r.push(c);
    }
    assert(s@.take(s@.len() as int) == s@);
    r
}

/// Whether two string slices hold the same text.
pub fn same_text(a: &str, b: &str) -> (r: bool)
    ensures
        r == (a@ == b@),
{
    let x = a.as_bytes();
    let y = b.as_bytes();
    proof {
        encode_utf8_decode_utf8(a@);
        encode_utf8_decode_utf8(b@);
    }
    if x.len() != y.len() {
        return false;
    }
    let n: usize = x.len();
    let mut i: usize = 0;
    while i < n
        invariant
            n == x@.len() == y@.len(),
            i <= n,
            forall|j: int| 0 <= j < i ==> x@[j] == y@[j],
            x@ == encode_utf8(a@),
            y@ == encode_utf8(b@),
        decreases n - i,
    {
        if x[i] != y[i] {
            return false;
        }
        i += 1;
    }
    assert(x@ == y@);
    true
}

/// The pieces of `s` between the occurrences of `sep`, empty ones kept. There
/// is always one piece more than there are separators.
pub open spec fn split_on(s: Seq<char>, sep: char) -> Seq<Seq<char>>
    decreases s.len(),
{
    if s.len() == 0 {
        seq![Seq::empty()]
    } else {
        let before = split_on(s.drop_last(), sep);
        if s.last() == sep {
            before.push(Seq::empty())
        } else {
            before.drop_last().push(before.last().push(s.last()))
        }
    }
}

pub proof fn lemma_split_on_has_a_piece(s: Seq<char>, sep: char)
    ensures
        split_on(s, sep).len() >= 1,
    decreases s.len(),
{
    if s.len() > 0 {
        lemma_split_on_has_a_piece(s.drop_last(), sep);
    }
}

/// Splitting at a separator splits what is on each side of it.
pub proof fn lemma_split_on_concat(a: Seq<char>, b: Seq<char>, sep: char)
    ensures
        split_on(a.push(sep) + b, sep) == split_on(a, sep) + split_on(b, sep),
    decreases b.len(),
{
    let whole = a.push(sep) + b;
    lemma_split_on_has_a_piece(b, sep);
    if b.len() == 0 {
        assert(whole == a.push(sep));
        assert(whole.drop_last() == a);
        assert(split_on(whole, sep) == split_on(a, sep) + split_on(b, sep));
    } else {
        let init = b.drop_last();
        lemma_split_on_concat(a, init, sep);
        lemma_split_on_has_a_piece(init, sep);
        assert(whole.drop_last() == a.push(sep) + init);
        assert(whole.last() == b.last());
        assert(split_on(whole, sep) == split_on(a, sep) + split_on(b, sep));
    }
}

/// Text without the separator is one piece.
pub proof fn lemma_split_on_single(s: Seq<char>, sep: char)
    requires
        !s.contains(sep),
    ensures
        split_on(s, sep) == seq![s],
    decreases s.len(),
{
    if s.len() > 0 {
        let init = s.drop_last();
        assert(!init.contains(sep)) by {
            if init.contains(sep) {
                let i = choose|i: int| 0 <= i < init.len() && init[i] == sep;
                assert(s[i] == sep);
            }
        }
        lemma_split_on_single(init, sep);
        assert(s[s.len() - 1] != sep);
        assert(init.push(s.last()) == s);
        assert(split_on(s, sep) == seq![s]);
    } else {
        assert(s == Seq::<char>::empty());
        assert(split_on(s, sep) == seq![s]);
    }
}

/// No piece holds the separator.
pub proof fn lemma_split_on_pieces(s: Seq<char>, sep: char, i: int)
    requires
        0 <= i < split_on(s, sep).len(),
    ensures
        !split_on(s, sep)[i].contains(sep),
    decreases s.len(),
{
    if s.len() > 0 {
        let before = split_on(s.drop_last(), sep);
        lemma_split_on_has_a_piece(s.drop_last(), sep);
        if i < before.len() {
            lemma_split_on_pieces(s.drop_last(), sep, i);
            if s.last() != sep && i == before.len() - 1 {
                let piece = before[i].push(s.last());
                if piece.contains(sep) {
                    let j = choose|j: int| 0 <= j < piece.len() && piece[j] == sep;
                    assert(before[i][j] == sep);
                }
            }
        }
    }
}

/// Parts without the separator come back out of their join.
pub proof fn lemma_split_on_joined(parts: Seq<Seq<char>>, sep: char)
    requires
        parts.len() > 0,
        forall|i: int| 0 <= i < parts.len() ==> !(#[trigger] parts[i]).contains(sep),
    ensures
        split_on(joined(parts, seq![sep]), sep) == parts,
    decreases parts.len(),
{
    lemma_split_on_single(parts.last(), sep);
    if parts.len() == 1 {
        assert(parts == seq![parts[0]]);
    } else {
        let init = parts.drop_last();
        assert forall|i: int| 0 <= i < init.len() implies !(#[trigger] init[i]).contains(sep) by {
            assert(init[i] == parts[i]);
        }
        lemma_split_on_joined(init, sep);
        let head = joined(init, seq![sep]);
        assert(joined(parts, seq![sep]) == head.push(sep) + parts.last());
        lemma_split_on_concat(head, parts.last(), sep);
        assert(parts == init + seq![parts.last()]);
    }
}

/// The pieces of `s`, from its character number `from` on, between the
/// occurrences of `sep`.
pub fn split_from<'a>(s: &'a str, from: usize, sep: char) -> (r: Vec<&'a str>)
    requires
        from <= s@.len(),
    ensures
        str_views(r@) == split_on(s@.skip(from as int), sep),
{
    let chars = chars_of(s);
    let n: usize = chars.len();
    let ghost tail = s@.skip(from as int);
    let mut r: Vec<&'a str> = Vec::new();
    let mut start: usize = from;
    let mut i: usize = from;
    assert(tail.take(0) == Seq::<char>::empty());
    assert(s@.subrange(start as int, i as int) == Seq::<char>::empty());
    assert(str_views(r@) == split_on(tail.take(0), sep).drop_last());
    while i < n
        invariant
            n == chars@.len(),
            chars@ == s@,
            tail == s@.skip(from as int),
            from <= start <= i <= n,
            split_on(tail.take(i - from), sep).len() >= 1,
            str_views(r@) == split_on(tail.take(i - from), sep).drop_last(),
            s@.subrange(start as int, i as int) == split_on(tail.take(i - from), sep).last(),
        decreases n - i,
    {
        let ghost next = tail.take(i + 1 - from);
        assert(next.drop_last() == tail.take(i - from));
        assert(next.last() == s@[i as int]);
        proof {
            lemma_split_on_has_a_piece(next, sep);
        }
        let ghost before = split_on(tail.take(i - from), sep);
        let ghost held = r@;
        if chars[i] == sep {
            let piece = s.substring_char(start, i);
            r.push(piece);
            start = i + 1;
            proof {
                assert(str_views(r@) == str_views(held).push(piece@));
                assert(before == before.drop_last().push(before.last()));
                assert(split_on(next, sep).drop_last() == before);
                assert(s@.subrange(start as int, i + 1) == Seq::<char>::empty());
            }
        } else {
            proof {
                assert(s@.subrange(start as int, i + 1) == s@.subrange(start as int, i as int).push(
                    s@[i as int],
                ));
                assert(split_on(next, sep).drop_last() == before.drop_last());
            }
        }
        i += 1;
    }
    let ghost held = r@;
    let piece = s.substring_char(start, n);
    r.push(piece);
    proof {
        assert(tail.take(n - from) == tail);
        assert(str_views(r@) == str_views(held).push(piece@));
        let all = split_on(tail, sep);
        assert(all == all.drop_last().push(all.last()));
    }
    r
}

/// The pieces that are not empty.
pub open spec fn filled(pieces: Seq<Seq<char>>) -> Seq<Seq<char>> {
    pieces.filter(|p: Seq<char>| p.len() > 0)
}

/// Pieces none of which is empty are all kept.
pub proof fn lemma_filled_of_filled(parts: Seq<Seq<char>>)
    requires
        forall|i: int| 0 <= i < parts.len() ==> (#[trigger] parts[i]).len() > 0,
    ensures
        filled(parts) == parts,
    decreases parts.len(),
{
    reveal_with_fuel(Seq::filter, 2);
    if parts.len() > 0 {
        let init = parts.drop_last();
        assert forall|i: int| 0 <= i < init.len() implies (#[trigger] init[i]).len() > 0 by {
            assert(init[i] == parts[i]);
        }
        lemma_filled_of_filled(init);
        assert(parts == init.push(parts.last()));
    }
}

/// `s` without any of the leading copies of `prefix`.
pub open spec fn trim_start_text(s: Seq<char>, prefix: Seq<char>) -> Seq<char>
    decreases s.len(),
{
    if 0 < prefix.len() && prefix.is_prefix_of(s) {
        trim_start_text(s.skip(prefix.len() as int), prefix)
    } else {
        s
    }
}

/// `s` without the leading characters that are `drop`.
pub open spec fn trim_start_by(s: Seq<char>, drop: spec_fn(char) -> bool) -> Seq<char>
    decreases s.len(),
{
    if s.len() > 0 && drop(s.first()) {
        trim_start_by(s.drop_first(), drop)
    } else {
        s
    }
}

/// `s` without the trailing characters that are `drop`.
pub open spec fn trim_end_by(s: Seq<char>, drop: spec_fn(char) -> bool) -> Seq<char>
    decreases s.len(),
{
    if s.len() > 0 && drop(s.last()) {
        trim_end_by(s.drop_last(), drop)
    } else {
        s
    }
}

/// The characters with the Unicode property White_Space.
pub open spec fn is_space(c: char) -> bool {
    ||| '\u{9}' <= c <= '\u{d}'
    ||| c == ' '
    ||| c == '\u{85}'
    ||| c == '\u{a0}'
    ||| c == '\u{1680}'
    ||| '\u{2000}' <= c <= '\u{200a}'
    ||| c == '\u{2028}'
    ||| c == '\u{2029}'
    ||| c == '\u{202f}'
    ||| c == '\u{205f}'
    ||| c == '\u{3000}'
}

/// Whether `c` has the Unicode property White_Space.
pub fn is_whitespace(c: char) -> (r: bool)
    ensures
        r == is_space(c),
{
    ('\u{9}' <= c && c <= '\u{d}') || c == ' ' || c == '\u{85}' || c == '\u{a0}' || c == '\u{1680}'
        || ('\u{2000}' <= c && c <= '\u{200a}') || c == '\u{2028}' || c == '\u{2029}' || c
        == '\u{202f}' || c == '\u{205f}' || c == '\u{3000}'
}

/// `s` without the white space around it.
pub open spec fn trimmed(s: Seq<char>) -> Seq<char> {
    trim_end_by(trim_start_by(s, |c: char| is_space(c)), |c: char| is_space(c))
}

/// What is left after trimming the end is a beginning of the text, and it does
/// not end in a character that is to be dropped.
pub proof fn lemma_trim_end_by(s: Seq<char>, drop: spec_fn(char) -> bool)
    ensures
        trim_end_by(s, drop).len() <= s.len(),
        trim_end_by(s, drop) == s.take(trim_end_by(s, drop).len() as int),
        trim_end_by(s, drop).len() > 0 ==> !drop(trim_end_by(s, drop).last()),
    decreases s.len(),
{
    if s.len() > 0 && drop(s.last()) {
        lemma_trim_end_by(s.drop_last(), drop);
        let t = trim_end_by(s, drop);
        assert(s.drop_last().take(t.len() as int) == s.take(t.len() as int));
    } else {
        assert(s.take(s.len() as int) == s);
    }
}

/// What is left after trimming the start is an end of the text, and it does
/// not begin with a character that is to be dropped.
pub proof fn lemma_trim_start_by(s: Seq<char>, drop: spec_fn(char) -> bool)
    ensures
        trim_start_by(s, drop).len() <= s.len(),
        trim_start_by(s, drop) == s.skip(s.len() - trim_start_by(s, drop).len()),
        trim_start_by(s, drop).len() > 0 ==> !drop(trim_start_by(s, drop).first()),
    decreases s.len(),
{
    if s.len() > 0 && drop(s.first()) {
        let rest = s.drop_first();
        lemma_trim_start_by(rest, drop);
        let t = trim_start_by(s, drop);
        assert(rest.skip(rest.len() - t.len()) == s.skip(s.len() - t.len()));
    } else {
        assert(s.skip(0) == s);
    }
}

/// Trimmed text has no white space around it: trimming it again changes
/// nothing.
pub proof fn law_trim_idempotent(s: Seq<char>)
    ensures
        trimmed(trimmed(s)) == trimmed(s),
        trimmed(s).len() > 0 ==> !is_space(trimmed(s).first()) && !is_space(trimmed(s).last()),
        exists|i: int, j: int| 0 <= i <= j <= s.len() && trimmed(s) == #[trigger] s.subrange(i, j),
{
    let space = |c: char| is_space(c);
    let head = trim_start_by(s, space);
    let t = trim_end_by(head, space);
    lemma_trim_start_by(s, space);
    lemma_trim_end_by(head, space);
    let i = s.len() - head.len();
    assert(t == s.subrange(i as int, i + t.len()));
    if t.len() > 0 {
        assert(t.first() == head.first());
        assert(trim_start_by(t, space) == t);
        assert(trim_end_by(t, space) == t);
    }
}

/// `s` without the white space around it.
pub fn trim<'a>(s: &'a str) -> (r: &'a str)
    ensures
        r@ == trimmed(s@),
{
    let chars = chars_of(s);
    let ghost space = |c: char| is_space(c);
    let mut start: usize = 0;
    let mut end: usize = chars.len();
    assert(s@.skip(0) == s@);
    while start < end && is_whitespace(chars[start])
        invariant
            start <= end == chars@.len(),
            chars@ == s@,
            space == (|c: char| is_space(c)),
            trim_start_by(s@, space) == trim_start_by(s@.skip(start as int), space),
        decreases end - start,
    {
        assert(s@.skip(start as int).drop_first() == s@.skip(start + 1));
        start += 1;
    }
    let ghost rest = s@.skip(start as int);
    assert(trim_start_by(s@, space) == rest);
    assert(s@.subrange(start as int, end as int) == rest);
    while start < end && is_whitespace(chars[end - 1])
        invariant
            start <= end <= chars@.len(),
            chars@ == s@,
            space == (|c: char| is_space(c)),
            trim_end_by(rest, space) == trim_end_by(s@.subrange(start as int, end as int), space),
        decreases end,
    {
        assert(s@.subrange(start as int, end as int).drop_last() == s@.subrange(
            start as int,
            end - 1,
        ));
        end -= 1;
    }
    s.substring_char(start, end)
}

/// `s` without the copies of `last` at its end.
pub fn trim_end_char<'a>(s: &'a str, last: char) -> (r: &'a str)
    ensures
        r@ == trim_end_by(s@, |c: char| c == last),
{
    let chars = chars_of(s);
    let ghost drop = |c: char| c == last;
    let mut end: usize = chars.len();
    assert(s@.take(end as int) == s@);
    while 0 < end && chars[end - 1] == last
        invariant
            end <= chars@.len(),
            chars@ == s@,
            drop == (|c: char| c == last),
            trim_end_by(s@, drop) == trim_end_by(s@.take(end as int), drop),
        decreases end,
    {
        assert(s@.take(end as int).drop_last() == s@.take(end - 1));
        end -= 1;
    }
    assert(s@.subrange(0, end as int) == s@.take(end as int));
    s.substring_char(0, end)
}

/// The parts in order, with `sep` between each two.
pub open spec fn joined(parts: Seq<Seq<char>>, sep: Seq<char>) -> Seq<char>
    decreases parts.len(),
{
    if parts.len() == 0 {
        Seq::empty()
    } else if parts.len() == 1 {
        parts[0]
    } else {
        joined(parts.drop_last(), sep) + sep + parts.last()
    }
}

/// Joins the strings with `sep` between each two.
pub fn join(parts: &[String], sep: &str) -> (r: String)
    ensures
        r@ == joined(views(parts@), sep@),
{
    let mut r = String::new();
    let n: usize = parts.len();
    let ghost all = views(parts@);
    let mut i: usize = 0;
    assert(all.take(0) == Seq::<Seq<char>>::empty());
    while i < n
        invariant
            i <= n == parts@.len(),
            all == views(parts@),
            r@ == joined(all.take(i as int), sep@),
        decreases n - i,
    {
        assert(all.take(i + 1).drop_last() == all.take(i as int));
        if i > 0 {
            r.append(sep);
        }
        r.append(parts[i].as_str());
        i += 1;
    }
    assert(all.take(n as int) == all);
    r
}

/// Joins the first `n` string slices with `sep` between each two.
pub fn join_first(parts: &[&str], n: usize, sep: &str) -> (r: String)
    requires
        n <= parts@.len(),
    ensures
        r@ == joined(str_views(parts@).take(n as int), sep@),
{
    let mut r = String::new();
    let ghost all = str_views(parts@);
    let mut i: usize = 0;
    assert(all.take(0) == Seq::<Seq<char>>::empty());
    while i < n
        invariant
            i <= n <= parts@.len(),
            all == str_views(parts@),
            r@ == joined(all.take(i as int), sep@),
        decreases n - i,
    {
        assert(all.take(i + 1).drop_last() == all.take(i as int));
        if i > 0 {
            r.append(sep);
        }
        r.append(parts[i]);
        i += 1;
    }
    r
}

/// The character that stands for a decimal digit.
pub open spec fn digit_char(d: int) -> char {
    (48 + d) as char
}

/// `n` in decimal, without leading zeros.
pub open spec fn decimal(n: nat) -> Seq<char>
    decreases n,
{
    if n < 10 {
        seq![digit_char(n as int)]
    } else {
        decimal(n / 10).push(digit_char((n % 10) as int))
    }
}

fn digit_text(d: u64) -> (r: &'static str)
    requires
        d < 10,
    ensures
        r@ == seq![digit_char(d as int)],
{
    proof {
        reveal_strlit("0");
        reveal_strlit("1");
        reveal_strlit("2");
        reveal_strlit("3");
        reveal_strlit("4");
        reveal_strlit("5");
        reveal_strlit("6");
        reveal_strlit("7");
        reveal_strlit("8");
        reveal_strlit("9");
    }
    match d {
        0 => "0",
        1 => "1",
        2 => "2",
        3 => "3",
        4 => "4",
        5 => "5",
        6 => "6",
        7 => "7",
        8 => "8",
        _ => "9",
    }
}

/// Writes `n` in decimal.
pub fn decimal_text(n: u64) -> (r: String)
    ensures
        r@ == decimal(n as nat),
    decreases n,
{
    if n < 10 {
        digit_text(n).to_owned()
    } else {
        let mut r = decimal_text(n / 10);
        r.append(digit_text(n % 10));
        r
    }
}

/// Whether `c` is a decimal digit.
pub open spec fn is_digit(c: char) -> bool {
    '0' <= c <= '9'
}

/// The number that a sequence of decimal digits stands for.
pub open spec fn digits_value(s: Seq<char>) -> nat
    decreases s.len(),
{
    if s.len() == 0 {
        0
    } else {
        digits_value(s.drop_last()) * 10 + (s.last() as nat - 48) as nat
    }
}

/// The number of at most 64 bits, sign counted, that `s` writes in decimal: an
/// optional sign, then one or more digits and nothing else.
pub open spec fn integer_of(s: Seq<char>) -> Option<i64> {
    let negative = s.len() > 0 && s[0] == '-';
    let digits = if s.len() > 0 && (s[0] == '-' || s[0] == '+') {
        s.skip(1)
    } else {
        s
    };
    let value = if negative {
        -(digits_value(digits) as int)
    } else {
        digits_value(digits) as int
    };
    if digits.len() > 0 && digits.all(|c: char| is_digit(c)) && i64::MIN <= value <= i64::MAX {
        Some(value as i64)
    } else {
        None
    }
}

/// `n` in decimal, with a minus sign in front where it is negative.
pub open spec fn signed_decimal(n: int) -> Seq<char> {
    if n < 0 {
        seq!['-'] + decimal((-n) as nat)
    } else {
        decimal(n as nat)
    }
}

proof fn lemma_decimal_is_digits(n: nat)
    ensures
        decimal(n).len() > 0,
        decimal(n).all(|c: char| is_digit(c)),
        digits_value(decimal(n)) == n,
    decreases n,
{
    let d = |c: char| is_digit(c);
    if n < 10 {
        assert(decimal(n).drop_last() == Seq::<char>::empty());
        assert(digits_value(Seq::<char>::empty()) == 0);
    } else {
        let head = decimal(n / 10);
        lemma_decimal_is_digits(n / 10);
        assert(decimal(n).drop_last() == head);
        assert forall|i: int| 0 <= i < decimal(n).len() implies d(#[trigger] decimal(n)[i]) by {
            if i < head.len() {
                assert(decimal(n)[i] == head[i]);
                assert(d(head[i]));
            }
        }
    }
}

/// An integer of 64 bits that is written in decimal is read back.
pub proof fn law_decimal_round_trip(n: i64)
    ensures
        integer_of(signed_decimal(n as int)) == Some(n),
{
    let s = signed_decimal(n as int);
    let d = |c: char| is_digit(c);
    if n < 0 {
        lemma_decimal_is_digits((-n) as nat);
        assert(s.skip(1) == decimal((-n) as nat));
    } else {
        lemma_decimal_is_digits(n as nat);
        assert(d(s[0]));
    }
}

proof fn lemma_digits_value_grows(s: Seq<char>, n: int)
    requires
        0 <= n <= s.len(),
    ensures
        digits_value(s.take(n)) <= digits_value(s),
    decreases s.len() - n,
{
    if n == s.len() {
        assert(s.take(n) == s);
    } else {
        lemma_digits_value_grows(s, n + 1);
        assert(s.take(n + 1).drop_last() == s.take(n));
    }
}

/// Reads an integer in decimal.
pub fn parse_integer(s: &str) -> (r: Option<i64>)
    ensures
        r == integer_of(s@),
{
    let chars = chars_of(s);
    let n: usize = chars.len();
    let negative: bool = n > 0 && chars[0] == '-';
    let first: usize = if n > 0 && (chars[0] == '-' || chars[0] == '+') {
        1
    } else {
        0
    };
    let ghost digits = s@.skip(first as int);
    assert(s@.skip(0) == s@);
    if first == n {
        return None;
    }
    let bound: u64 = if negative {
        0x8000_0000_0000_0000
    } else {
        0x7fff_ffff_ffff_ffff
    };
    let mut value: u64 = 0;
    let mut i: usize = first;
    assert(digits.take(0) == Seq::<char>::empty());
    while i < n
        invariant
            first <= i <= n,
            first == 0 || first == 1,
            n == chars@.len(),
            chars@ == s@,
            digits == s@.skip(first as int),
            first == 1 <==> s@[0] == '-' || s@[0] == '+',
            negative <==> s@[0] == '-',
            s@.skip(0) == s@,
            0 < n,
            bound == if negative {
                0x8000_0000_0000_0000u64
            } else {
                0x7fff_ffff_ffff_ffffu64
            },
            value <= bound,
            value == digits_value(digits.take(i - first)),
            forall|j: int| 0 <= j < i - first ==> is_digit(#[trigger] digits[j]),
        decreases n - i,
    {
        let c = chars[i];
        assert(digits[i - first] == c);
        if c < '0' || '9' < c {
            assert(!(|c: char| is_digit(c))(digits[i - first]));
            return None;
        }
        let d: u64 = (c as u32 - 48) as u64;
        assert(digits.take(i + 1 - first).drop_last() == digits.take(i - first));
        assert(digits_value(digits.take(i + 1 - first)) == value * 10 + d);
        if value > (bound - d) / 10 {
            proof {
                lemma_digits_value_grows(digits, i + 1 - first);
                assert(value * 10 + d > bound);
            }
            return None;
        }
        value = value * 10 + d;
        i += 1;
    }
    assert(digits.take(n - first) == digits);
    assert(digits.all(|c: char| is_digit(c)));
    if negative {
        if value == 0x8000_0000_0000_0000 {
            Some(i64::MIN)
        } else {
            Some(-(value as i64))
        }
    } else {
        Some(value as i64)
    }
}

/// Whether the bytes `a` come before the bytes `b` in the dictionary order.
pub open spec fn bytes_before(a: Seq<u8>, b: Seq<u8>) -> bool
    decreases a.len(),
{
    if b.len() == 0 {
        false
    } else if a.len() == 0 {
        true
    } else {
        a[0] < b[0] || (a[0] == b[0] && bytes_before(a.drop_first(), b.drop_first()))
    }
}

/// Whether the UTF-8 bytes of `a` come before those of `b` in the dictionary
/// order.
pub fn text_before(a: &str, b: &str) -> (r: bool)
    ensures
        r == bytes_before(encode_utf8(a@), encode_utf8(b@)),
{
    let x = a.as_bytes();
    let y = b.as_bytes();
    let mut i: usize = 0;
    assert(x@.skip(0) == x@);
    assert(y@.skip(0) == y@);
    while i < x.len() && i < y.len() && x[i] == y[i]
        invariant
            i <= x@.len(),
            i <= y@.len(),
            bytes_before(x@, y@) == bytes_before(x@.skip(i as int), y@.skip(i as int)),
        decreases x@.len() - i,
    {
        assert(x@.skip(i as int).drop_first() == x@.skip(i + 1));
        assert(y@.skip(i as int).drop_first() == y@.skip(i + 1));
        i += 1;
    }
    if i == y.len() {
        false
    } else if i == x.len() {
        true
    } else {
        x[i] < y[i]
    }
}

} // verus!
