//! What the guest commands consist of, and what is read from their output.

use vstd::prelude::*;

use crate::lifecycle::Runtime;
use crate::lists;
use crate::storage::guest;
use crate::storage::guest::{CommandLine, GuestCommand};
use crate::text;
use crate::text_laws;

verus! {

/// Whatever is run in a guest, its arguments come last, as they are and in their
/// order; in front stands what enters the guest, and nothing else.
pub proof fn law_in_guest(runtime: Runtime, id: Seq<char>, argv: Seq<Seq<char>>)
    ensures
        ({
            let c = guest::in_guest(runtime, id, argv);
            let entry = c.args.len() - argv.len();
            &&& 0 <= entry
            &&& c.args.skip(entry) == argv
            &&& match runtime {
                Runtime::Lxc => {
                    &&& c.program == "pct"@
                    &&& c.args.take(entry) == seq!["exec"@, id, "--"@]
                },
                Runtime::Docker => {
                    &&& c.program == "docker"@
                    &&& c.args.take(entry) == seq!["exec"@, id]
                },
            }
        }),
{
    let c = guest::in_guest(runtime, id, argv);
    let entry = c.args.len() - argv.len();
    assert(c.args.skip(entry) == argv);
    match runtime {
        Runtime::Lxc => {
            assert(c.args.take(entry) == seq!["exec"@, id, "--"@]);
        },
        Runtime::Docker => {
            assert(c.args.take(entry) == seq!["exec"@, id]);
        },
    }
}

/// The backup copies the database to the backup, in either runtime: the last
/// four arguments are `cp`, `-a`, the database, the backup.
pub proof fn law_copy_command(runtime: Runtime, id: Seq<char>, db: Seq<char>, backup: Seq<char>)
    ensures
        ({
            let c = guest::copy_command(runtime, id, db, backup);
            &&& c.args.len() >= 4
            &&& c.args[c.args.len() - 4] == "cp"@
            &&& c.args[c.args.len() - 3] == "-a"@
            &&& c.args[c.args.len() - 2] == db
            &&& c.args[c.args.len() - 1] == backup
        }),
        guest::copy_command(Runtime::Docker, id, db, backup) == (CommandLine {
            program: "docker"@,
            args: seq!["exec"@, id, "cp"@, "-a"@, db, backup],
        }),
        guest::copy_command(Runtime::Lxc, id, db, backup) == (CommandLine {
            program: "pct"@,
            args: seq!["exec"@, id, "--"@, "cp"@, "-a"@, db, backup],
        }),
{
    assert(seq!["exec"@, id] + seq!["cp"@, "-a"@, db, backup] == seq![
        "exec"@,
        id,
        "cp"@,
        "-a"@,
        db,
        backup,
    ]);
    assert(seq!["exec"@, id, "--"@] + seq!["cp"@, "-a"@, db, backup] == seq![
        "exec"@,
        id,
        "--"@,
        "cp"@,
        "-a"@,
        db,
        backup,
    ]);
}

/// A statement is run by the SQLite that Plex ships, on the database, and the
/// statement is the last argument, in either runtime.
pub proof fn law_sql_command(runtime: Runtime, id: Seq<char>, db: Seq<char>, sql: Seq<char>)
    ensures
        guest::sql_command(Runtime::Docker, id, db, sql) == (CommandLine {
            program: "docker"@,
            args: seq!["exec"@, id, "/usr/lib/plexmediaserver/Plex SQLite"@, db, sql],
        }),
        guest::sql_command(Runtime::Lxc, id, db, sql) == (CommandLine {
            program: "pct"@,
            args: seq!["exec"@, id, "--"@, "/usr/lib/plexmediaserver/Plex SQLite"@, db, sql],
        }),
        guest::sql_command(runtime, id, db, sql).args.last() == sql,
{
    let tail = seq!["/usr/lib/plexmediaserver/Plex SQLite"@, db, sql];
    assert(seq!["exec"@, id] + tail == seq![
        "exec"@,
        id,
        "/usr/lib/plexmediaserver/Plex SQLite"@,
        db,
        sql,
    ]);
    assert(seq!["exec"@, id, "--"@] + tail == seq![
        "exec"@,
        id,
        "--"@,
        "/usr/lib/plexmediaserver/Plex SQLite"@,
        db,
        sql,
    ]);
}

/// The mounts are listed by their targets alone, and the service is controlled
/// by its own name, in either runtime.
pub proof fn law_mounts_and_unit_commands(id: Seq<char>, verb: Seq<char>)
    ensures
        guest::mounts_command(Runtime::Docker, id) == (CommandLine {
            program: "docker"@,
            args: seq!["exec"@, id, "findmnt"@, "-rno"@, "TARGET"@],
        }),
        guest::mounts_command(Runtime::Lxc, id) == (CommandLine {
            program: "pct"@,
            args: seq!["exec"@, id, "--"@, "findmnt"@, "-rno"@, "TARGET"@],
        }),
        guest::unit_command(Runtime::Docker, id, verb) == (CommandLine {
            program: "docker"@,
            args: seq!["exec"@, id, "systemctl"@, verb, "plexmediaserver"@],
        }),
        guest::unit_command(Runtime::Lxc, id, verb) == (CommandLine {
            program: "pct"@,
            args: seq!["exec"@, id, "--"@, "systemctl"@, verb, "plexmediaserver"@],
        }),
{
    let list = seq!["findmnt"@, "-rno"@, "TARGET"@];
    let unit = seq!["systemctl"@, verb, "plexmediaserver"@];
    assert(seq!["exec"@, id] + list == seq!["exec"@, id, "findmnt"@, "-rno"@, "TARGET"@]);
    assert(seq!["exec"@, id, "--"@] + list == seq![
        "exec"@,
        id,
        "--"@,
        "findmnt"@,
        "-rno"@,
        "TARGET"@,
    ]);
    assert(seq!["exec"@, id] + unit == seq!["exec"@, id, "systemctl"@, verb, "plexmediaserver"@]);
    assert(seq!["exec"@, id, "--"@] + unit == seq![
        "exec"@,
        id,
        "--"@,
        "systemctl"@,
        verb,
        "plexmediaserver"@,
    ]);
}

/// What a command shows of itself is its own program and arguments.
pub proof fn law_command_view(c: GuestCommand)
    ensures
        c@.program == c.program@,
        c@.args.len() == c.args@.len(),
        forall|i: int| 0 <= i < c.args@.len() ==> #[trigger] c@.args[i] == c.args@[i]@,
{
}

/// A failure tells the exit status, and what was written to standard error from
/// its first character that is no white space to its last.
pub proof fn law_failure_text(
    status: Seq<char>,
    left: Seq<char>,
    middle: Seq<char>,
    right: Seq<char>,
)
    requires
        forall|i: int| 0 <= i < left.len() ==> text::is_space(#[trigger] left[i]),
        forall|i: int| 0 <= i < right.len() ==> text::is_space(#[trigger] right[i]),
        middle.len() > 0 ==> !text::is_space(middle.first()) && !text::is_space(middle.last()),
    ensures
        guest::failure_text(status, left + middle + right) == "guest command failed ("@ + status
            + "): "@ + middle,
{
    text_laws::law_trim_keeps_the_middle(left, middle, right);
}

/// Listing loses nothing and adds nothing: what is listed is the trimmed text of
/// every line, where that is not empty.
pub proof fn law_lines_lose_nothing(out: Seq<char>, l: Seq<char>)
    ensures
        guest::listed(out).contains(l) <==> l.len() > 0 && exists|i: int|
            0 <= i < text::split_on(out, '\n').len() && text::trimmed(
                #[trigger] text::split_on(out, '\n')[i],
            ) == l,
{
    let cut = |l: Seq<char>| text::trimmed(l);
    let full = |p: Seq<char>| p.len() > 0;
    let pieces = text::split_on(out, '\n');
    let all = pieces.map_values(cut);
    let kept = all.filter(full);
    lists::lemma_distinct(kept);
    if kept.contains(l) {
        let k = choose|k: int| 0 <= k < kept.len() && kept[k] == l;
        all.lemma_filter_pred(full, k);
        all.lemma_filter_contains_rev(full, l);
        let i = choose|i: int| 0 <= i < all.len() && all[i] == l;
        assert(text::trimmed(pieces[i]) == l);
    }
    if l.len() > 0 && exists|i: int|
        0 <= i < pieces.len() && text::trimmed(#[trigger] pieces[i]) == l {
        let i = choose|i: int| 0 <= i < pieces.len() && text::trimmed(#[trigger] pieces[i]) == l;
        assert(all[i] == l);
        assert(full(all[i]));
        all.lemma_filter_contains(full, i);
    }
    assert(guest::listed(out).contains(l) <==> kept.contains(l));
}

/// Lines are listed once each, in the order in which they turn up: further lines
/// of output only add to the end of the list.
pub proof fn law_lines_in_order(out: Seq<char>, more: Seq<char>)
    ensures
        guest::listed(out).no_duplicates(),
        guest::listed(out).is_prefix_of(guest::listed(out.push('\n') + more)),
{
    let cut = |l: Seq<char>| text::trimmed(l);
    let full = |p: Seq<char>| p.len() > 0;
    let a = text::split_on(out, '\n').map_values(cut);
    let b = text::split_on(more, '\n').map_values(cut);
    let whole = text::split_on(out.push('\n') + more, '\n').map_values(cut);
    text::lemma_split_on_concat(out, more, '\n');
    assert(whole == a + b);
    Seq::filter_distributes_over_add(a, b, full);
    let kept = whole.filter(full);
    let n = a.filter(full).len() as int;
    lists::lemma_distinct(a.filter(full));
    lists::law_distinct(kept, n);
    assert(kept.take(n) == a.filter(full));
}

} // verus!
