//! The SQL text that finds and rewrites stored paths.

use vstd::prelude::*;

use crate::storage::drift::{DriftRewrite, Rewrite};
use crate::text;
use crate::text_laws;

verus! {

/// `s` with every single quote doubled.
pub open spec fn escaped(s: Seq<char>) -> Seq<char>
    decreases s.len(),
{
    if s.len() == 0 {
        Seq::empty()
    } else if s.last() == '\'' {
        escaped(s.drop_last()) + "''"@
    } else {
        escaped(s.drop_last()).push(s.last())
    }
}

/// Escapes single quotes for a SQL string literal.
pub fn sql_escape(s: &str) -> (r: String)
    ensures
        r@ == escaped(s@),
{
    let chars = text::chars_of(s);
    let n: usize = chars.len();
    let mut r = String::new();
    let mut start: usize = 0;
    let mut i: usize = 0;
    assert(s@.take(0) == Seq::<char>::empty());
    assert(r@ + s@.subrange(0, 0) == escaped(s@.take(0)));
    while i < n
        invariant
            n == chars@.len(),
            chars@ == s@,
            start <= i <= n,
            r@ + s@.subrange(start as int, i as int) == escaped(s@.take(i as int)),
        decreases n - i,
    {
        assert(s@.take(i + 1).drop_last() == s@.take(i as int));
        if chars[i] == '\'' {
            let plain = s.substring_char(start, i);
            r.append(plain);
            r.append("''");
            start = i + 1;
            assert(r@ + s@.subrange(start as int, i + 1) == r@);
        } else {
            assert(r@ + s@.subrange(start as int, i + 1) == (r@ + s@.subrange(
                start as int,
                i as int,
            )).push(s@[i as int]));
        }
        i += 1;
    }
    let plain = s.substring_char(start, n);
    r.append(plain);
    assert(s@.take(n as int) == s@);
    r
}

/// The text that a SQL string literal with this content stands for: each pair
/// of quotes is one quote. A quote that stands alone would end the literal, so
/// such content stands for none.
pub open spec fn literal_value(s: Seq<char>) -> Option<Seq<char>>
    decreases s.len(),
{
    if s.len() == 0 {
        Some(Seq::empty())
    } else if s.last() != '\'' {
        match literal_value(s.drop_last()) {
            Some(v) => Some(v.push(s.last())),
            None => None,
        }
    } else if s.len() >= 2 && s[s.len() - 2] == '\'' {
        match literal_value(s.take(s.len() - 2)) {
            Some(v) => Some(v.push('\'')),
            None => None,
        }
    } else {
        None
    }
}

/// Escaped text inside quotes is one SQL literal, and it stands for the text:
/// nothing in it can end the literal.
pub proof fn law_escape_round_trip(s: Seq<char>)
    ensures
        literal_value(escaped(s)) == Some(s),
    decreases s.len(),
{
    reveal_strlit("''");
    if s.len() > 0 {
        let init = s.drop_last();
        law_escape_round_trip(init);
        let e = escaped(s);
        assert(s == init.push(s.last()));
        if s.last() == '\'' {
            assert(e.take(e.len() - 2) == escaped(init));
        } else {
            assert(e.drop_last() == escaped(init));
        }
    } else {
        assert(s == Seq::<char>::empty());
    }
}

/// Escaping goes character by character: a single quote becomes two, and every
/// other character stays as it is.
pub proof fn law_escape(a: Seq<char>, b: Seq<char>, c: char)
    ensures
        escaped(a + b) == escaped(a) + escaped(b),
        escaped(seq![c]) == if c == '\'' {
            seq!['\'', '\'']
        } else {
            seq![c]
        },
        escaped(Seq::empty()) == Seq::<char>::empty(),
    decreases b.len(),
{
    reveal_strlit("''");
    assert("''"@ == seq!['\'', '\'']);
    assert(escaped(Seq::<char>::empty()) == Seq::<char>::empty());
    assert(seq![c].drop_last() == Seq::<char>::empty());
    assert(Seq::<char>::empty() + "''"@ == "''"@);
    if b.len() == 0 {
        assert(a + b == a);
        assert(escaped(a) + escaped(b) == escaped(a));
    } else {
        let init = b.drop_last();
        law_escape(a, init, c);
        assert((a + b).drop_last() == a + init);
        assert((a + b).last() == b.last());
        assert(escaped(a + b) == escaped(a) + escaped(b));
    }
}

/// The guard for one location: the column does not begin with it.
pub open spec fn not_under_term(
    col: Seq<char>,
    root: Seq<char>,
    prefix: Seq<char>,
) -> Seq<char> {
    col + " NOT LIKE '"@ + prefix + escaped(root) + "/%'"@
}

/// The guards for all locations.
pub open spec fn not_under_terms(
    col: Seq<char>,
    roots: Seq<Seq<char>>,
    prefix: Seq<char>,
) -> Seq<Seq<char>> {
    roots.map_values(|r: Seq<char>| not_under_term(col, r, prefix))
}

/// The condition that a column lies outside every location.
pub open spec fn not_under(
    col: Seq<char>,
    roots: Seq<Seq<char>>,
    prefix: Seq<char>,
) -> Seq<char> {
    text::joined(not_under_terms(col, roots, prefix), " AND "@)
}

/// Builds a `NOT LIKE` guard that leaves out the rows under any library
/// location. `prefix` goes in front of each location: nothing for plain paths,
/// `file://` for URLs.
pub fn not_under_clause(col: &str, roots: &[String], prefix: &str) -> (r: String)
    ensures
        r@ == not_under(col@, text::views(roots@), prefix@),
{
    let mut terms: Vec<String> = Vec::new();
    let ghost all = not_under_terms(col@, text::views(roots@), prefix@);
    let n: usize = roots.len();
    let mut i: usize = 0;
    while i < n
        invariant
            i <= n == roots@.len(),
            all == not_under_terms(col@, text::views(roots@), prefix@),
            text::views(terms@) == all.take(i as int),
        decreases n - i,
    {
        let ghost held = terms@;
        let root = sql_escape(roots[i].as_str());
        let mut term = col.to_owned();
        term.append(" NOT LIKE '");
        term.append(prefix);
        term.append(root.as_str());
        term.append("/%'");
        terms.push(term);
        proof {
            assert(text::views(roots@)[i as int] == roots@[i as int]@);
            assert(text::views(terms@) == text::views(held).push(term@));
            assert(all.take(i + 1) == all.take(i as int).push(all[i as int]));
        }
        i += 1;
    }
    assert(all.take(n as int) == all);
    text::join(terms.as_slice(), " AND ")
}

/// The query for the library locations.
pub open spec fn roots_query() -> Seq<char> {
    "SELECT root_path FROM section_locations WHERE root_path LIKE '/%';"@
}

/// The query for a sample of item paths outside every location.
pub open spec fn parts_query(roots: Seq<Seq<char>>) -> Seq<char> {
    "SELECT DISTINCT file FROM media_parts WHERE file LIKE '/%' AND "@ + not_under(
        "file"@,
        roots,
        ""@,
    ) + " LIMIT 100;"@
}

/// The query for a sample of subtitle URLs outside every location.
pub open spec fn streams_query(roots: Seq<Seq<char>>) -> Seq<char> {
    "SELECT DISTINCT url FROM media_streams WHERE url LIKE 'file:///%' AND "@ + not_under(
        "url"@,
        roots,
        "file://"@,
    ) + " LIMIT 100;"@
}

/// The statement that reads the library locations.
pub fn select_roots() -> (r: String)
    ensures
        r@ == roots_query(),
{
    "SELECT root_path FROM section_locations WHERE root_path LIKE '/%';".to_owned()
}

/// The statement that samples item paths outside every location.
pub fn select_parts(roots: &[String]) -> (r: String)
    ensures
        r@ == parts_query(text::views(roots@)),
{
    let guard = not_under_clause("file", roots, "");
    let mut r = "SELECT DISTINCT file FROM media_parts WHERE file LIKE '/%' AND ".to_owned();
    r.append(guard.as_str());
    r.append(" LIMIT 100;");
    r
}

/// The statement that samples subtitle URLs outside every location.
pub fn select_streams(roots: &[String]) -> (r: String)
    ensures
        r@ == streams_query(text::views(roots@)),
{
    let guard = not_under_clause("url", roots, "file://");
    let mut r = "SELECT DISTINCT url FROM media_streams WHERE url LIKE 'file:///%' AND ".to_owned();
    r.append(guard.as_str());
    r.append(" LIMIT 100;");
    r
}

/// The statement that replaces the prefix `from` by `to`, each with `scheme` in
/// front and a slash behind, in the rows of one column that begin with it.
pub open spec fn update_statement(
    table: Seq<char>,
    col: Seq<char>,
    scheme: Seq<char>,
    from: Seq<char>,
    to: Seq<char>,
) -> Seq<char> {
    "UPDATE "@ + table + " SET "@ + col + "=replace("@ + col + ",'"@ + scheme + from + "/','"@
        + scheme + to + "/') WHERE "@ + col + " LIKE '"@ + scheme + from + "/%';"@
}

/// The statements for one rewrite, over all three columns that hold paths.
pub open spec fn repair_text(r: Rewrite) -> Seq<char> {
    let from = escaped(r.from_root);
    let to = escaped(r.to_root);
    update_statement("media_parts"@, "file"@, ""@, from, to) + "\n"@ + update_statement(
        "media_streams"@,
        "url"@,
        "file://"@,
        from,
        to,
    ) + "\n"@ + update_statement("section_locations"@, "root_path"@, ""@, from, to)
}

fn append_update(out: &mut String, table: &str, col: &str, scheme: &str, from: &str, to: &str)
    ensures
        final(out)@ == old(out)@ + update_statement(table@, col@, scheme@, from@, to@),
{
    let ghost start = out@;
    out.append("UPDATE ");
    out.append(table);
    out.append(" SET ");
    out.append(col);
    out.append("=replace(");
    out.append(col);
    out.append(",'");
    out.append(scheme);
    out.append(from);
    out.append("/','");
    out.append(scheme);
    out.append(to);
    out.append("/') WHERE ");
    out.append(col);
    out.append(" LIKE '");
    out.append(scheme);
    out.append(from);
    out.append("/%';");
    assert(out@ == start + update_statement(table@, col@, scheme@, from@, to@));
}

/// The `UPDATE ... replace()` batch for one rewrite. A leading `LIKE` guards
/// each statement, so it touches only rows that begin with the retired root. A
/// row that was moved does not match again, but where the live root lies under
/// the retired one, or the other way round and the path goes on as the retired
/// root does: `plan_laws::law_rewrite_matches_again` says exactly when.
pub fn repair_sql(rw: &DriftRewrite) -> (r: String)
    ensures
        r@ == repair_text(rw@),
{
    let from = sql_escape(rw.from_root.as_str());
    let to = sql_escape(rw.to_root.as_str());
    let mut r = String::new();
    append_update(&mut r, "media_parts", "file", "", from.as_str(), to.as_str());
    r.append("\n");
    append_update(&mut r, "media_streams", "url", "file://", from.as_str(), to.as_str());
    r.append("\n");
    append_update(&mut r, "section_locations", "root_path", "", from.as_str(), to.as_str());
    assert(r@ == repair_text(rw@));
    r
}

/// The guard names every location, each in its own term, with the column and
/// the prefix in front of it and its quotes escaped; the terms all have to hold.
pub proof fn law_guard_names_every_location(
    col: Seq<char>,
    a: Seq<Seq<char>>,
    b: Seq<Seq<char>>,
    root: Seq<char>,
    prefix: Seq<char>,
)
    ensures
        not_under(col, Seq::empty(), prefix) == Seq::<char>::empty(),
        not_under(col, seq![root], prefix) == col + " NOT LIKE '"@ + prefix + escaped(root)
            + "/%'"@,
        a.len() > 0 && b.len() > 0 ==> not_under(col, a + b, prefix) == not_under(col, a, prefix)
            + " AND "@ + not_under(col, b, prefix),
{
    let x = not_under_terms(col, a, prefix);
    let y = not_under_terms(col, b, prefix);
    assert(not_under_terms(col, Seq::empty(), prefix) == Seq::<Seq<char>>::empty());
    assert(not_under_terms(col, seq![root], prefix) == seq![not_under_term(col, root, prefix)]);
    assert(not_under_terms(col, a + b, prefix) == x + y);
    text_laws::law_join(x, y, not_under_term(col, root, prefix), " AND "@);
}

/// The queries: all locations are asked for; of the rows, at most a hundred
/// distinct ones that lie outside every one of the given locations, the URLs
/// with their scheme.
pub proof fn law_queries(roots: Seq<Seq<char>>)
    ensures
        roots_query() == "SELECT root_path FROM section_locations WHERE root_path LIKE '/%';"@,
        parts_query(roots) == "SELECT DISTINCT file FROM media_parts WHERE file LIKE '/%' AND "@
            + not_under("file"@, roots, ""@) + " LIMIT 100;"@,
        streams_query(roots)
            == "SELECT DISTINCT url FROM media_streams WHERE url LIKE 'file:///%' AND "@
            + not_under("url"@, roots, "file://"@) + " LIMIT 100;"@,
{
}

/// A repair updates three columns, in this order: each replaces the retired root
/// and a slash by the live root and a slash, in the rows that begin with the
/// former; in the URLs the scheme stands in front of both.
pub proof fn law_repair_text(r: Rewrite)
    ensures
        ({
            let from = escaped(r.from_root);
            let to = escaped(r.to_root);
            repair_text(r) == "UPDATE "@ + "media_parts"@ + " SET "@ + "file"@ + "=replace("@
                + "file"@ + ",'"@ + from + "/','"@ + to + "/') WHERE "@ + "file"@ + " LIKE '"@
                + from + "/%';"@ + "\n"@ + "UPDATE "@ + "media_streams"@ + " SET "@ + "url"@
                + "=replace("@ + "url"@ + ",'"@ + "file://"@ + from + "/','"@ + "file://"@ + to
                + "/') WHERE "@ + "url"@ + " LIKE '"@ + "file://"@ + from + "/%';"@ + "\n"@
                + "UPDATE "@ + "section_locations"@ + " SET "@ + "root_path"@ + "=replace("@
                + "root_path"@ + ",'"@ + from + "/','"@ + to + "/') WHERE "@ + "root_path"@
                + " LIKE '"@ + from + "/%';"@
        }),
{
    reveal_strlit("");
    let from = escaped(r.from_root);
    let to = escaped(r.to_root);
    lemma_plain_update("media_parts"@, "file"@, from, to);
    lemma_plain_update("section_locations"@, "root_path"@, from, to);
    let first = update_statement("media_parts"@, "file"@, ""@, from, to);
    let second = update_statement("media_streams"@, "url"@, "file://"@, from, to);
    lemma_append_update(
        first + "\n"@,
        "media_streams"@,
        "url"@,
        "file://"@,
        from,
        to,
    );
    lemma_append_plain_update(
        first + "\n"@ + second + "\n"@,
        "section_locations"@,
        "root_path"@,
        from,
        to,
    );
}

proof fn lemma_plain_update(table: Seq<char>, col: Seq<char>, from: Seq<char>, to: Seq<char>)
    ensures
        update_statement(table, col, ""@, from, to) == "UPDATE "@ + table + " SET "@ + col
            + "=replace("@ + col + ",'"@ + from + "/','"@ + to + "/') WHERE "@ + col + " LIKE '"@
            + from + "/%';"@,
{
    reveal_strlit("");
    let a = "UPDATE "@ + table + " SET "@ + col + "=replace("@ + col + ",'"@;
    assert(a + ""@ == a);
    let b = a + from + "/','"@;
    assert(b + ""@ == b);
    let c = b + to + "/') WHERE "@ + col + " LIKE '"@;
    assert(c + ""@ == c);
}

proof fn lemma_append_update(
    head: Seq<char>,
    table: Seq<char>,
    col: Seq<char>,
    scheme: Seq<char>,
    from: Seq<char>,
    to: Seq<char>,
)
    ensures
        head + update_statement(table, col, scheme, from, to) == head + "UPDATE "@ + table
            + " SET "@ + col + "=replace("@ + col + ",'"@ + scheme + from + "/','"@ + scheme + to
            + "/') WHERE "@ + col + " LIKE '"@ + scheme + from + "/%';"@,
{
    assert(head + update_statement(table, col, scheme, from, to) =~= head + "UPDATE "@ + table
        + " SET "@ + col + "=replace("@ + col + ",'"@ + scheme + from + "/','"@ + scheme + to
        + "/') WHERE "@ + col + " LIKE '"@ + scheme + from + "/%';"@);
}

proof fn lemma_append_plain_update(
    head: Seq<char>,
    table: Seq<char>,
    col: Seq<char>,
    from: Seq<char>,
    to: Seq<char>,
)
    ensures
        head + update_statement(table, col, ""@, from, to) == head + "UPDATE "@ + table + " SET "@
            + col + "=replace("@ + col + ",'"@ + from + "/','"@ + to + "/') WHERE "@ + col
            + " LIKE '"@ + from + "/%';"@,
{
    lemma_plain_update(table, col, from, to);
    assert(head + update_statement(table, col, ""@, from, to) =~= head + "UPDATE "@ + table
        + " SET "@ + col + "=replace("@ + col + ",'"@ + from + "/','"@ + to + "/') WHERE "@ + col
        + " LIKE '"@ + from + "/%';"@);
}

} // verus!
