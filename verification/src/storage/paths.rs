//! Paths as sequences of segments.

use vstd::prelude::*;

use crate::text;
use crate::text_laws;

verus! {

/// The scheme that a stored URL may carry in front of its path.
pub open spec fn scheme() -> Seq<char> {
    "file://"@
}

/// The non-empty segments of a path or of a URL with the scheme `file`.
pub open spec fn segs(path: Seq<char>) -> Seq<Seq<char>> {
    text::filled(text::split_on(text::trim_start_text(path, scheme()), '/'))
}

/// Whether `path` is `root` itself or lives beneath it, segment by segment.
pub open spec fn under(path: Seq<char>, root: Seq<char>) -> bool {
    segs(root).is_prefix_of(segs(path))
}

/// The absolute path with these segments.
pub open spec fn rooted(parts: Seq<Seq<char>>) -> Seq<char> {
    "/"@ + text::joined(parts, "/"@)
}

/// Splits an absolute path into its non-empty segments.
pub fn segments<'a>(path: &'a str) -> (r: Vec<&'a str>)
    ensures
        text::str_views(r@) == segs(path@),
{
    let from = after_scheme(path);
    let pieces = text::split_from(path, from, '/');
    let ghost all = text::str_views(pieces@);
    let ghost full = |p: Seq<char>| p.len() > 0;
    let mut r: Vec<&'a str> = Vec::new();
    let n: usize = pieces.len();
    let mut i: usize = 0;
    assert(all.take(0).filter(full) == Seq::<Seq<char>>::empty());
    while i < n
        invariant
            i <= n == pieces@.len(),
            all == text::str_views(pieces@),
            full == (|p: Seq<char>| p.len() > 0),
            text::str_views(r@) == all.take(i as int).filter(full),
        decreases n - i,
    {
        let piece = pieces[i];
        let ghost held = r@;
        proof {
            assert(all.take(i + 1) == all.take(i as int).push(piece@));
            all.take(i as int).lemma_filter_push(piece@, full);
        }
        if !piece.is_empty() {
            r.push(piece);
            assert(text::str_views(r@) == text::str_views(held).push(piece@));
        }
        i += 1;
    }
    assert(all.take(n as int) == all);
    r
}

/// The number of characters that the leading copies of the scheme take up.
fn after_scheme(path: &str) -> (r: usize)
    ensures
        r <= path@.len(),
        path@.skip(r as int) == text::trim_start_text(path@, scheme()),
{
    let chars = text::chars_of(path);
    let n: usize = chars.len();
    let mut r: usize = 0;
    proof {
        reveal_strlit("file://");
    }
    assert(path@.skip(0) == path@);
    while n - r >= 7 && chars[r] == 'f' && chars[r + 1] == 'i' && chars[r + 2] == 'l' && chars[r
        + 3] == 'e' && chars[r + 4] == ':' && chars[r + 5] == '/' && chars[r + 6] == '/'
        invariant
            r <= n == chars@.len(),
            chars@ == path@,
            scheme() == seq!['f', 'i', 'l', 'e', ':', '/', '/'],
            text::trim_start_text(path@, scheme()) == text::trim_start_text(
                path@.skip(r as int),
                scheme(),
            ),
        decreases n - r,
    {
        let ghost rest = path@.skip(r as int);
        assert(scheme() == rest.subrange(0, 7));
        assert(rest.skip(7) == path@.skip(r + 7));
        r += 7;
    }
    proof {
        let rest = path@.skip(r as int);
        if scheme().is_prefix_of(rest) {
            assert(rest.subrange(0, 7)[0] == path@[r as int]);
            assert(rest.subrange(0, 7)[1] == path@[r + 1]);
            assert(rest.subrange(0, 7)[2] == path@[r + 2]);
            assert(rest.subrange(0, 7)[3] == path@[r + 3]);
            assert(rest.subrange(0, 7)[4] == path@[r + 4]);
            assert(rest.subrange(0, 7)[5] == path@[r + 5]);
            assert(rest.subrange(0, 7)[6] == path@[r + 6]);
        }
    }
    r
}

/// Whether `path` is `root` itself or lives beneath it. The comparison goes by
/// whole segments, so `/mnt/data` does not hold `/mnt/database`.
pub fn is_under(path: &str, root: &str) -> (r: bool)
    ensures
        r == under(path@, root@),
{
    let p = segments(path);
    let r = segments(root);
    let ghost ps = text::str_views(p@);
    let ghost rs = text::str_views(r@);
    if r.len() > p.len() {
        return false;
    }
    let n: usize = r.len();
    let mut i: usize = 0;
    while i < n
        invariant
            i <= n == r@.len() <= p@.len(),
            ps == segs(path@),
            ps == text::str_views(p@),
            rs == segs(root@),
            rs == text::str_views(r@),
            forall|j: int| 0 <= j < i ==> ps[j] == rs[j],
        decreases n - i,
    {
        if !text::same_text(p[i], r[i]) {
            assert(ps[i as int] != rs[i as int]);
            assert(ps.subrange(0, rs.len() as int)[i as int] == ps[i as int]);
            return false;
        }
        i += 1;
    }
    assert(rs == ps.subrange(0, rs.len() as int));
    true
}

/// The absolute path made of the first `n` of these segments.
pub fn rooted_path(parts: &[&str], n: usize) -> (r: String)
    requires
        n <= parts@.len(),
    ensures
        r@ == rooted(text::str_views(parts@).take(n as int)),
{
    let mut r = "/".to_owned();
    let rest = text::join_first(parts, n, "/");
    r.append(rest.as_str());
    r
}

/// Whether these are segments that a path can have: none is empty and none
/// holds a slash.
pub open spec fn well_formed(parts: Seq<Seq<char>>) -> bool {
    forall|i: int|
        0 <= i < parts.len() ==> (#[trigger] parts[i]).len() > 0 && !parts[i].contains('/')
}

/// The segments of a path are never empty and never hold a slash.
pub proof fn law_segments_well_formed(path: Seq<char>)
    ensures
        well_formed(segs(path)),
{
    let pieces = text::split_on(text::trim_start_text(path, scheme()), '/');
    let full = |p: Seq<char>| p.len() > 0;
    assert forall|i: int| 0 <= i < segs(path).len() implies (#[trigger] segs(path)[i]).len() > 0
        && !segs(path)[i].contains('/') by {
        let piece = segs(path)[i];
        pieces.lemma_filter_pred(full, i);
        assert(full(piece));
        pieces.lemma_filter_contains_rev(full, piece);
        let j = choose|j: int| 0 <= j < pieces.len() && pieces[j] == piece;
        text::lemma_split_on_pieces(text::trim_start_text(path, scheme()), '/', j);
    }
}

/// Writing segments as an absolute path and splitting it again gives them back.
pub proof fn law_rooted_round_trip(parts: Seq<Seq<char>>)
    requires
        well_formed(parts),
    ensures
        segs(rooted(parts)) == parts,
{
    let path = rooted(parts);
    let full = |p: Seq<char>| p.len() > 0;
    let empty = Seq::<char>::empty();
    reveal_strlit("/");
    reveal_strlit("file://");
    assert("/"@ == seq!['/']);
    assert(!scheme().is_prefix_of(path)) by {
        if scheme().is_prefix_of(path) {
            assert(path.subrange(0, 7)[0] == path[0]);
        }
    }
    assert(path == empty.push('/') + text::joined(parts, seq!['/']));
    text::lemma_split_on_concat(empty, text::joined(parts, seq!['/']), '/');
    text::lemma_split_on_single(empty, '/');
    if parts.len() == 0 {
        let pieces = seq![empty] + seq![empty];
        assert(text::split_on(path, '/') == pieces);
        assert(pieces.drop_last() == seq![empty]);
        assert(seq![empty].drop_last() == Seq::<Seq<char>>::empty());
        reveal_with_fuel(Seq::filter, 3);
        assert(pieces.filter(full) == parts);
    } else {
        text::lemma_split_on_joined(parts, '/');
        Seq::filter_distributes_over_add(seq![empty], parts, full);
        reveal_with_fuel(Seq::filter, 2);
        assert(seq![empty].drop_last() == Seq::<Seq<char>>::empty());
        text::lemma_filled_of_filled(parts);
        assert(seq![empty].filter(full) + parts == parts);
    }
}

/// What follows an absolute path and a slash adds its own segments.
pub proof fn lemma_segs_past_slash(path: Seq<char>, rest: Seq<char>)
    requires
        path.len() > 0,
        path[0] == '/',
    ensures
        segs(path.push('/') + rest) == segs(path) + text::filled(text::split_on(rest, '/')),
{
    let whole = path.push('/') + rest;
    reveal_strlit("file://");
    assert(!scheme().is_prefix_of(whole)) by {
        if scheme().is_prefix_of(whole) {
            assert(whole.subrange(0, 7)[0] == whole[0]);
        }
    }
    assert(!scheme().is_prefix_of(path)) by {
        if scheme().is_prefix_of(path) {
            assert(path.subrange(0, 7)[0] == path[0]);
        }
    }
    text::lemma_split_on_concat(path, rest, '/');
    Seq::filter_distributes_over_add(
        text::split_on(path, '/'),
        text::split_on(rest, '/'),
        |p: Seq<char>| p.len() > 0,
    );
}

proof fn lemma_joined_prefix(a: Seq<Seq<char>>, b: Seq<Seq<char>>)
    requires
        0 < a.len() <= b.len(),
        a == b.take(a.len() as int),
    ensures
        (text::joined(a, "/"@) + "/"@).is_prefix_of(text::joined(b, "/"@) + "/"@),
    decreases b.len(),
{
    let x = text::joined(a, "/"@) + "/"@;
    let y = text::joined(b, "/"@) + "/"@;
    if a.len() == b.len() {
        assert(a == b);
        assert(x == y.subrange(0, x.len() as int));
    } else {
        let init = b.drop_last();
        let z = text::joined(init, "/"@) + "/"@;
        assert(a == init.take(a.len() as int));
        lemma_joined_prefix(a, init);
        assert(y == z + b.last() + "/"@);
        assert(z.subrange(0, x.len() as int) == y.subrange(0, x.len() as int));
    }
}

/// Of two absolute paths with segments, written without needless slashes, one
/// lies under the other exactly where its text, with a slash behind, begins with
/// that of the other, with a slash behind.
pub proof fn law_under_as_text(a: Seq<Seq<char>>, b: Seq<Seq<char>>)
    requires
        well_formed(a),
        well_formed(b),
        0 < b.len(),
    ensures
        under(rooted(a), rooted(b)) <==> (rooted(b) + "/"@).is_prefix_of(rooted(a) + "/"@),
{
    let x = rooted(b) + "/"@;
    let y = rooted(a) + "/"@;
    reveal_strlit("/");
    law_rooted_round_trip(a);
    law_rooted_round_trip(b);
    if under(rooted(a), rooted(b)) {
        assert(b == a.take(b.len() as int));
        lemma_joined_prefix(b, a);
        let u = text::joined(b, "/"@) + "/"@;
        let v = text::joined(a, "/"@) + "/"@;
        assert(x == "/"@ + u);
        assert(y == "/"@ + v);
        assert(u == v.subrange(0, u.len() as int));
        assert(x == y.subrange(0, x.len() as int));
    }
    if x.is_prefix_of(y) {
        let rest = y.skip(x.len() as int);
        let empty = Seq::<char>::empty();
        assert(x == rooted(b).push('/'));
        assert(y == x + rest);
        assert(y == rooted(a).push('/') + empty);
        lemma_segs_past_slash(rooted(b), rest);
        lemma_segs_past_slash(rooted(a), empty);
        assert(text::split_on(empty, '/') == seq![empty]);
        assert(text::filled(seq![empty]) == Seq::<Seq<char>>::empty()) by {
            reveal_with_fuel(Seq::filter, 2);
            assert(seq![empty].drop_last() == Seq::<Seq<char>>::empty());
        }
        assert(a == b + text::filled(text::split_on(rest, '/')));
        assert(b == a.subrange(0, b.len() as int));
    }
}

/// The scheme `file` in front of a path changes none of its segments.
pub proof fn law_scheme_is_ignored(path: Seq<char>)
    ensures
        segs(scheme() + path) == segs(path),
{
    let url = scheme() + path;
    reveal_strlit("file://");
    assert(scheme() == url.subrange(0, scheme().len() as int));
    assert(url.skip(scheme().len() as int) == path);
}

/// What the segments of a path are. A name behind a slash is one segment, a
/// slash alone is none, and absolute paths one behind the other have the
/// segments of the one and then of the other, however many there are. A slash in
/// front of a path that has none, and the scheme in front of any, change nothing.
pub proof fn law_segments(a: Seq<char>, b: Seq<char>, name: Seq<char>)
    requires
        a.len() > 0 && a[0] == '/',
        b.len() > 0 && b[0] == '/',
        name.len() > 0,
        !name.contains('/'),
    ensures
        segs(a + b) == segs(a) + segs(b),
        segs(seq!['/'] + name) == seq![name],
        segs(seq!['/']) == Seq::<Seq<char>>::empty(),
        segs("file://"@ + a) == segs(a),
{
    let empty = Seq::<char>::empty();
    let rest = b.drop_first();
    let none = Seq::<Seq<char>>::empty();
    reveal_strlit("file://");
    reveal_strlit("/");
    assert(a + b == a.push('/') + rest);
    lemma_segs_past_slash(a, rest);
    lemma_segs_of_absolute(rest);
    assert(b == seq!['/'] + rest);
    lemma_segs_of_absolute(name);
    text::lemma_split_on_single(name, '/');
    lemma_segs_of_absolute(empty);
    assert(seq!['/'] + empty == seq!['/']);
    assert(text::split_on(empty, '/') == seq![empty]);
    reveal_with_fuel(Seq::filter, 2);
    assert(seq![empty].drop_last() == none);
    assert(seq![name].drop_last() == none);
    assert(text::filled(seq![empty]) == none);
    assert(text::filled(seq![name]) == seq![name]);
    law_scheme_is_ignored(a);
}

/// A slash in front of a path without the scheme changes none of its segments,
/// and a path with nothing in it has none.
pub proof fn law_leading_slash_is_ignored(path: Seq<char>)
    requires
        !"file://"@.is_prefix_of(path),
    ensures
        segs(seq!['/'] + path) == segs(path),
        segs(Seq::empty()) == Seq::<Seq<char>>::empty(),
{
    let empty = Seq::<char>::empty();
    lemma_segs_of_absolute(path);
    reveal_strlit("file://");
    assert(text::split_on(empty, '/') == seq![empty]);
    reveal_with_fuel(Seq::filter, 2);
    assert(seq![empty].drop_last() == Seq::<Seq<char>>::empty());
    assert(text::filled(seq![empty]) == Seq::<Seq<char>>::empty());
    assert(!scheme().is_prefix_of(empty));
}

proof fn lemma_segs_of_absolute(rest: Seq<char>)
    ensures
        segs(seq!['/'] + rest) == text::filled(text::split_on(rest, '/')),
{
    let path = seq!['/'] + rest;
    let empty = Seq::<char>::empty();
    let full = |p: Seq<char>| p.len() > 0;
    reveal_strlit("file://");
    assert(!scheme().is_prefix_of(path)) by {
        if scheme().is_prefix_of(path) {
            assert(path.subrange(0, 7)[0] == path[0]);
        }
    }
    assert(path == empty.push('/') + rest);
    text::lemma_split_on_concat(empty, rest, '/');
    assert(text::split_on(empty, '/') == seq![empty]);
    Seq::filter_distributes_over_add(seq![empty], text::split_on(rest, '/'), full);
    reveal_with_fuel(Seq::filter, 2);
    assert(seq![empty].drop_last() == Seq::<Seq<char>>::empty());
    assert(seq![empty].filter(full) == Seq::<Seq<char>>::empty());
    assert(Seq::<Seq<char>>::empty() + text::filled(text::split_on(rest, '/')) == text::filled(
        text::split_on(rest, '/'),
    ));
}

/// The text of an absolute path: a slash in front of each segment, and a slash
/// alone where there is none.
pub proof fn law_rooted(a: Seq<Seq<char>>, b: Seq<Seq<char>>, name: Seq<char>)
    ensures
        rooted(Seq::empty()) == seq!['/'],
        rooted(seq![name]) == seq!['/'] + name,
        a.len() > 0 && b.len() > 0 ==> rooted(a + b) == rooted(a) + rooted(b),
{
    reveal_strlit("/");
    assert("/"@ == seq!['/']);
    text_laws::law_join(a, b, name, "/"@);
    if a.len() > 0 && b.len() > 0 {
        assert("/"@ + (text::joined(a, "/"@) + "/"@ + text::joined(b, "/"@)) == rooted(a) + rooted(
            b,
        ));
    }
}

/// A path lies under a root exactly where its segments are those of the root,
/// followed by any others or by none.
pub proof fn law_under(root: Seq<Seq<char>>, rest: Seq<Seq<char>>, path: Seq<Seq<char>>)
    requires
        well_formed(root),
        well_formed(rest),
        well_formed(path),
    ensures
        under(rooted(root + rest), rooted(root)),
        under(rooted(path), rooted(root)) <==> root.len() <= path.len() && path.take(
            root.len() as int,
        ) == root,
{
    let long = root + rest;
    assert(well_formed(long)) by {
        assert forall|i: int| 0 <= i < long.len() implies (#[trigger] long[i]).len() > 0
            && !long[i].contains('/') by {
            if i < root.len() {
                assert(long[i] == root[i]);
            } else {
                assert(long[i] == rest[i - root.len()]);
            }
        }
    }
    law_rooted_round_trip(root);
    law_rooted_round_trip(long);
    law_rooted_round_trip(path);
    assert(long.subrange(0, root.len() as int) == root);
    if root.len() <= path.len() {
        assert(path.take(root.len() as int) == path.subrange(0, root.len() as int));
    }
}

/// Whether one path lies under another goes by their segments alone.
pub proof fn law_under_goes_by_segments(path: Seq<char>, root: Seq<char>)
    ensures
        under(path, root) == under(rooted(segs(path)), rooted(segs(root))),
{
    law_segments_well_formed(path);
    law_segments_well_formed(root);
    law_rooted_round_trip(segs(path));
    law_rooted_round_trip(segs(root));
}

/// Every path lies under itself.
pub proof fn law_under_reflexive(path: Seq<char>)
    ensures
        under(path, path),
{
    assert(segs(path) == segs(path).subrange(0, segs(path).len() as int));
}

/// What lies under a path that lies under a root lies under that root.
pub proof fn law_under_transitive(a: Seq<char>, b: Seq<char>, c: Seq<char>)
    requires
        under(a, b),
        under(b, c),
    ensures
        under(a, c),
{
    assert(segs(c) == segs(a).subrange(0, segs(c).len() as int));
}

/// Two paths that lie under each other have the same segments.
pub proof fn law_under_antisymmetric(a: Seq<char>, b: Seq<char>)
    requires
        under(a, b),
        under(b, a),
    ensures
        segs(a) == segs(b),
{
}

/// A path beneath a root continues it at a slash: a name that merely begins
/// with the root's last segment is not beneath it.
pub proof fn law_under_is_segment_aligned(
    parent: Seq<Seq<char>>,
    name: Seq<char>,
    other: Seq<char>,
    rest: Seq<Seq<char>>,
)
    requires
        well_formed(parent.push(name)),
        well_formed(parent.push(other) + rest),
    ensures
        under(rooted(parent.push(other) + rest), rooted(parent.push(name))) <==> name == other,
{
    let long = parent.push(other) + rest;
    law_rooted_round_trip(parent.push(name));
    law_rooted_round_trip(long);
    let cut = long.subrange(0, parent.len() as int + 1);
    assert(cut[parent.len() as int] == other);
    assert(parent.push(name)[parent.len() as int] == name);
    if name == other {
        assert(cut == parent.push(name));
    }
}

} // verus!
