//! The commands that are run inside a guest, and what is read from their
//! output.

use vstd::prelude::*;
use vstd::utf8::*;

use crate::lifecycle::Runtime;
use crate::lists;
use crate::text;

verus! {

/// A command: a program and its arguments, passed on as they are.
#[derive(Debug, Clone, PartialEq, Eq)]
pub struct GuestCommand {
    pub program: String,
    pub args: Vec<String>,
}

/// What a [`GuestCommand`] says.
#[verifier::ext_equal]
pub struct CommandLine {
    pub program: Seq<char>,
    pub args: Seq<Seq<char>>,
}

impl View for GuestCommand {
    type V = CommandLine;

    open spec fn view(&self) -> CommandLine {
        CommandLine { program: self.program@, args: text::views(self.args@) }
    }
}

/// The `sqlite3`-compatible binary that Plex ships.
pub open spec fn plex_sqlite() -> Seq<char> {
    "/usr/lib/plexmediaserver/Plex SQLite"@
}

/// The name of the service inside the guest.
pub open spec fn plex_unit() -> Seq<char> {
    "plexmediaserver"@
}

/// The command that runs `argv` in the guest `id`.
pub open spec fn in_guest(runtime: Runtime, id: Seq<char>, argv: Seq<Seq<char>>) -> CommandLine {
    match runtime {
        Runtime::Lxc => CommandLine {
            program: "pct"@,
            args: seq!["exec"@, id, "--"@] + argv,
        },
        Runtime::Docker => CommandLine { program: "docker"@, args: seq!["exec"@, id] + argv },
    }
}

/// The command that runs one SQL statement on the library database.
pub open spec fn sql_command(
    runtime: Runtime,
    id: Seq<char>,
    db: Seq<char>,
    sql: Seq<char>,
) -> CommandLine {
    in_guest(runtime, id, seq![plex_sqlite(), db, sql])
}

/// The command that lists the live mount targets.
pub open spec fn mounts_command(runtime: Runtime, id: Seq<char>) -> CommandLine {
    in_guest(runtime, id, seq!["findmnt"@, "-rno"@, "TARGET"@])
}

/// The command that starts or stops the service.
pub open spec fn unit_command(runtime: Runtime, id: Seq<char>, verb: Seq<char>) -> CommandLine {
    in_guest(runtime, id, seq!["systemctl"@, verb, plex_unit()])
}

/// The command that copies the library database.
pub open spec fn copy_command(
    runtime: Runtime,
    id: Seq<char>,
    db: Seq<char>,
    backup: Seq<char>,
) -> CommandLine {
    in_guest(runtime, id, seq!["cp"@, "-a"@, db, backup])
}

/// The command `pct exec <id> --` or `docker exec <id>`, to which the guest
/// steps append their arguments.
pub fn guest(runtime: Runtime, id: &str) -> (r: GuestCommand)
    ensures
        r@ == in_guest(runtime, id@, Seq::empty()),
{
    let r = match runtime {
        Runtime::Lxc => {
            let mut args: Vec<String> = Vec::new();
            args.push("exec".to_owned());
            args.push(id.to_owned());
            args.push("--".to_owned());
            GuestCommand { program: "pct".to_owned(), args }
        },
        Runtime::Docker => {
            let mut args: Vec<String> = Vec::new();
            args.push("exec".to_owned());
            args.push(id.to_owned());
            GuestCommand { program: "docker".to_owned(), args }
        },
    };
    assert(r@ == in_guest(runtime, id@, Seq::empty()));
    r
}

impl GuestCommand {
    /// Adds one argument.
    pub fn arg(self, arg: &str) -> (r: GuestCommand)
        ensures
            r@ == (CommandLine { program: self@.program, args: self@.args.push(arg@) }),
    {
        let GuestCommand { program, mut args } = self;
        let ghost held = args@;
        args.push(arg.to_owned());
        let r = GuestCommand { program, args };
        assert(r@.args == text::views(held).push(arg@));
        r
    }
}

/// The command that runs one SQL statement through the guest's `Plex SQLite`.
/// Nothing goes through a shell, so spaces in paths need no quoting.
pub fn plex_sql(runtime: Runtime, id: &str, db: &str, sql: &str) -> (r: GuestCommand)
    ensures
        r@ == sql_command(runtime, id@, db@, sql@),
{
    let r = guest(runtime, id).arg("/usr/lib/plexmediaserver/Plex SQLite").arg(db).arg(sql);
    assert(r@ == sql_command(runtime, id@, db@, sql@));
    r
}

/// The command that lists the live mount targets of a guest.
pub fn list_mounts(runtime: Runtime, id: &str) -> (r: GuestCommand)
    ensures
        r@ == mounts_command(runtime, id@),
{
    let r = guest(runtime, id).arg("findmnt").arg("-rno").arg("TARGET");
    assert(r@ == mounts_command(runtime, id@));
    r
}

/// The command that applies a `systemctl` verb to the service of a guest.
pub fn control_unit(runtime: Runtime, id: &str, verb: &str) -> (r: GuestCommand)
    ensures
        r@ == unit_command(runtime, id@, verb@),
{
    let r = guest(runtime, id).arg("systemctl").arg(verb).arg("plexmediaserver");
    assert(r@ == unit_command(runtime, id@, verb@));
    r
}

/// The command that copies the library database of a guest.
pub fn copy_database(runtime: Runtime, id: &str, db: &str, backup: &str) -> (r: GuestCommand)
    ensures
        r@ == copy_command(runtime, id@, db@, backup@),
{
    let r = guest(runtime, id).arg("cp").arg("-a").arg(db).arg(backup);
    assert(r@ == copy_command(runtime, id@, db@, backup@));
    r
}

/// How a command ended.
#[derive(Debug, Clone, PartialEq, Eq)]
pub struct GuestOutput {
    /// Whether the exit status counts as success.
    pub success: bool,
    /// How the exit status reads.
    pub status: String,
    pub stdout: Vec<u8>,
    pub stderr: Vec<u8>,
}

/// The text that `String::from_utf8_lossy` makes of `bytes`.
pub uninterp spec fn lossy_text(bytes: Seq<u8>) -> Seq<char>;

/// Calls `String::from_utf8_lossy`. Taken on trust is that the text depends on
/// the bytes alone, that bytes in UTF-8 give the text that they encode, and that
/// any others give a text with a replacement character in it. How many of these
/// stand for a stretch that is not UTF-8 is not said.
#[verifier::external_body]
fn decode_lossy(bytes: &[u8]) -> (r: String)
    ensures
        r@ == lossy_text(bytes@),
        valid_utf8(bytes@) ==> r@ == decode_utf8(bytes@),
        !valid_utf8(bytes@) ==> r@.contains('\u{fffd}'),
{
    String::from_utf8_lossy(bytes).into_owned()
}

/// How a failed command is reported.
pub open spec fn failure_text(status: Seq<char>, stderr: Seq<char>) -> Seq<char> {
    "guest command failed ("@ + status + "): "@ + text::trimmed(stderr)
}

/// Reports a failed command, given how its exit status reads and what it wrote
/// to standard error.
pub fn failure_message(status: &str, stderr: &str) -> (r: String)
    ensures
        r@ == failure_text(status@, stderr@),
{
    let mut r = "guest command failed (".to_owned();
    r.append(status);
    r.append("): ");
    r.append(text::trim(stderr));
    r
}

/// The standard output of a command that succeeded; a failure carries what it
/// wrote to standard error. Bytes that are not UTF-8 are replaced.
pub fn capture(out: GuestOutput) -> (r: Result<String, String>)
    ensures
        match r {
            Ok(stdout) => {
                &&& out.success
                &&& stdout@ == lossy_text(out.stdout@)
                &&& valid_utf8(out.stdout@) ==> stdout@ == decode_utf8(out.stdout@)
                &&& !valid_utf8(out.stdout@) ==> stdout@.contains('\u{fffd}')
            },
            Err(message) => {
                &&& !out.success
                &&& message@ == failure_text(out.status@, lossy_text(out.stderr@))
                &&& valid_utf8(out.stderr@) ==> message@ == failure_text(
                    out.status@,
                    decode_utf8(out.stderr@),
                )
            },
        },
{
    if out.success {
        Ok(decode_lossy(out.stdout.as_slice()))
    } else {
        let stderr = decode_lossy(out.stderr.as_slice());
        Err(failure_message(out.status.as_str(), stderr.as_str()))
    }
}

/// The distinct lines of an output, without the white space around them and
/// without the empty ones, in the order in which they come.
pub open spec fn listed(out: Seq<char>) -> Seq<Seq<char>> {
    lists::distinct(
        text::filled(text::split_on(out, '\n').map_values(|l: Seq<char>| text::trimmed(l))),
    )
}

fn holds(list: &Vec<String>, x: &str) -> (r: bool)
    ensures
        r == text::views(list@).contains(x@),
{
    let ghost all = text::views(list@);
    let n: usize = list.len();
    let mut i: usize = 0;
    while i < n
        invariant
            i <= n == list@.len(),
            all == text::views(list@),
            forall|j: int| 0 <= j < i ==> all[j] != x@,
        decreases n - i,
    {
        if text::same_text(list[i].as_str(), x) {
            assert(all[i as int] == x@);
            return true;
        }
        i += 1;
    }
    false
}

/// Non-empty, de-duplicated lines from a guest command's output.
pub fn lines(out: &str) -> (r: Vec<String>)
    ensures
        text::views(r@) == listed(out@),
{
    let pieces = text::split_from(out, 0, '\n');
    assert(out@.skip(0) == out@);
    let ghost all = text::str_views(pieces@).map_values(|l: Seq<char>| text::trimmed(l));
    let ghost full = |p: Seq<char>| p.len() > 0;
    let mut seen: Vec<String> = Vec::new();
    let n: usize = pieces.len();
    let mut i: usize = 0;
    proof {
        reveal_with_fuel(Seq::filter, 1);
        assert(all.take(0) == Seq::<Seq<char>>::empty());
        assert(text::views(seen@) == lists::distinct(text::filled(all.take(0))));
    }
    while i < n
        invariant
            i <= n == pieces@.len(),
            all == text::str_views(pieces@).map_values(|l: Seq<char>| text::trimmed(l)),
            full == (|p: Seq<char>| p.len() > 0),
            text::views(seen@) == lists::distinct(text::filled(all.take(i as int))),
        decreases n - i,
    {
        let l = text::trim(pieces[i]);
        let ghost held = seen@;
        let ghost kept = text::filled(all.take(i as int));
        proof {
            assert(all[i as int] == l@);
            assert(all.take(i + 1) == all.take(i as int).push(l@));
            all.take(i as int).lemma_filter_push(l@, full);
            assert(kept.push(l@).drop_last() == kept);
        }
        if !l.is_empty() {
            if !holds(&seen, l) {
                let line = l.to_owned();
                seen.push(line);
                assert(text::views(seen@) == text::views(held).push(l@));
            }
        }
        i += 1;
    }
    assert(all.take(n as int) == all);
    seen
}

/// No line is listed twice, none is empty, none has white space around it and
/// none spans lines.
pub proof fn law_lines_are_clean(out: Seq<char>)
    ensures
        listed(out).no_duplicates(),
        forall|i: int|
            0 <= i < listed(out).len() ==> {
                let l = #[trigger] listed(out)[i];
                l.len() > 0 && text::trimmed(l) == l && !l.contains('\n')
            },
{
    let cut = |l: Seq<char>| text::trimmed(l);
    let full = |p: Seq<char>| p.len() > 0;
    let pieces = text::split_on(out, '\n');
    let all = pieces.map_values(cut);
    let kept = all.filter(full);
    lists::lemma_distinct(kept);
    assert forall|i: int| 0 <= i < listed(out).len() implies {
        let l = #[trigger] listed(out)[i];
        l.len() > 0 && text::trimmed(l) == l && !l.contains('\n')
    } by {
        let l = listed(out)[i];
        assert(lists::distinct(kept).contains(l));
        assert(kept.contains(l));
        let k = choose|k: int| 0 <= k < kept.len() && kept[k] == l;
        all.lemma_filter_pred(full, k);
        all.lemma_filter_contains_rev(full, l);
        let j = choose|j: int| 0 <= j < all.len() && all[j] == l;
        text::law_trim_idempotent(pieces[j]);
        text::lemma_split_on_pieces(out, '\n', j);
        if l.contains('\n') {
            let (a, b) = choose|a: int, b: int|
                0 <= a <= b <= pieces[j].len() && l == #[trigger] pieces[j].subrange(a, b);
            let x = choose|x: int| 0 <= x < l.len() && l[x] == '\n';
            assert(pieces[j][a + x] == '\n');
        }
    }
}

/// Nothing is listed of an empty output.
pub proof fn lemma_listed_nothing()
    ensures
        listed(Seq::empty()) == Seq::<Seq<char>>::empty(),
{
    let cut = |l: Seq<char>| text::trimmed(l);
    let empty = Seq::<char>::empty();
    assert(text::split_on(empty, '\n') == seq![empty]);
    assert(text::trimmed(empty) == empty);
    assert(seq![empty].map_values(cut) == seq![empty]);
    reveal_with_fuel(Seq::filter, 2);
    assert(seq![empty].drop_last() == Seq::<Seq<char>>::empty());
    assert(text::filled(seq![empty]) == Seq::<Seq<char>>::empty());
}

/// Listing the lines that were listed gives them again.
pub proof fn law_lines_round_trip(out: Seq<char>)
    ensures
        listed(text::joined(listed(out), seq!['\n'])) == listed(out),
{
    let cut = |l: Seq<char>| text::trimmed(l);
    let r = listed(out);
    law_lines_are_clean(out);
    if r.len() > 0 {
        text::lemma_split_on_joined(r, '\n');
        assert(r.map_values(cut) == r);
        text::lemma_filled_of_filled(r);
        lists::lemma_distinct_of_distinct(r);
    } else {
        lemma_listed_nothing();
        assert(r == Seq::<Seq<char>>::empty());
    }
}

} // verus!
