//! Detection, step by step: which command to run next, and the report once
//! everything is gathered.

use vstd::prelude::*;

use crate::lifecycle::Runtime;
use crate::storage::guest;
use crate::storage::guest::{CommandLine, GuestCommand};
use crate::storage::report;
use crate::storage::report::{Report, StorageReport};
use crate::storage::sql;
use crate::text;

verus! {

/// The library database inside a stock Plex container.
pub open spec fn stock_database() -> Seq<char> {
    "/var/lib/plexmediaserver/Library/Application Support/Plex Media Server/Plug-in Support/Databases/com.plexapp.plugins.library.db"@
}

/// The default path of the library database.
pub fn default_db() -> (r: String)
    ensures
        r@ == stock_database(),
        r@ == "/var/lib/plexmediaserver/Library/Application Support/Plex Media Server/Plug-in Support/Databases/com.plexapp.plugins.library.db"@,
{
    "/var/lib/plexmediaserver/Library/Application Support/Plex Media Server/Plug-in Support/Databases/com.plexapp.plugins.library.db".to_owned()
}

/// Which instance to check.
#[derive(Debug, Clone, PartialEq, Eq)]
pub struct PlexStorageCheckArgs {
    /// Where the instance runs.
    pub runtime: Runtime,
    /// LXC vmid or docker container name/id.
    pub target: String,
    /// Path of the library database inside the guest.
    pub db_path: String,
}

/// What a command gave back: its output, or how it failed.
pub type Reply = Result<Seq<char>, Seq<char>>;

/// The reply that a command's result stands for.
pub open spec fn reply_view(r: Result<String, String>) -> Reply {
    match r {
        Ok(out) => Ok(out@),
        Err(message) => Err(message@),
    }
}

/// Whose reply a check waits for, and what it has gathered before.
#[derive(Debug, Clone, PartialEq, Eq)]
pub enum CheckStage {
    /// The list of live mounts.
    Mounts,
    /// The library locations.
    Roots { mount_targets: Vec<String> },
    /// The item paths outside every location.
    Parts { mount_targets: Vec<String>, roots: Vec<String> },
    /// The subtitle URLs outside every location.
    Streams { mount_targets: Vec<String>, roots: Vec<String>, offending: Vec<String> },
}

/// What a [`CheckStage`] says.
#[verifier::ext_equal]
pub enum Stage {
    Mounts,
    Roots { mounts: Seq<Seq<char>> },
    Parts { mounts: Seq<Seq<char>>, roots: Seq<Seq<char>> },
    Streams { mounts: Seq<Seq<char>>, roots: Seq<Seq<char>>, offending: Seq<Seq<char>> },
}

impl View for CheckStage {
    type V = Stage;

    open spec fn view(&self) -> Stage {
        match self {
            CheckStage::Mounts => Stage::Mounts,
            CheckStage::Roots { mount_targets } => Stage::Roots {
                mounts: text::views(mount_targets@),
            },
            CheckStage::Parts { mount_targets, roots } => Stage::Parts {
                mounts: text::views(mount_targets@),
                roots: text::views(roots@),
            },
            CheckStage::Streams { mount_targets, roots, offending } => Stage::Streams {
                mounts: text::views(mount_targets@),
                roots: text::views(roots@),
                offending: text::views(offending@),
            },
        }
    }
}

/// A check under way.
#[derive(Debug, Clone, PartialEq, Eq)]
pub struct StorageCheck {
    pub args: PlexStorageCheckArgs,
    pub stage: CheckStage,
}

/// What a [`StorageCheck`] says.
#[verifier::ext_equal]
pub struct Check {
    pub runtime: Runtime,
    pub target: Seq<char>,
    pub db_path: Seq<char>,
    pub stage: Stage,
}

impl View for StorageCheck {
    type V = Check;

    open spec fn view(&self) -> Check {
        Check {
            runtime: self.args.runtime,
            target: self.args.target@,
            db_path: self.args.db_path@,
            stage: self.stage@,
        }
    }
}

/// What a check does next.
#[derive(Debug, Clone, PartialEq, Eq)]
pub enum CheckStep {
    /// Run the command and come back with its result.
    Run(StorageCheck, GuestCommand),
    /// The check is complete.
    Done(StorageReport),
    /// A command failed.
    Failed(String),
}

/// What a [`CheckStep`] says.
#[verifier::ext_equal]
pub enum Step {
    Run(Check, CommandLine),
    Done(Report),
    Failed(Seq<char>),
}

impl View for CheckStep {
    type V = Step;

    open spec fn view(&self) -> Step {
        match self {
            CheckStep::Run(check, command) => Step::Run(check@, command@),
            CheckStep::Done(report) => Step::Done(report@),
            CheckStep::Failed(message) => Step::Failed(message@),
        }
    }
}

impl Check {
    /// The same check at another stage.
    pub open spec fn at(self, stage: Stage) -> Check {
        Check { runtime: self.runtime, target: self.target, db_path: self.db_path, stage }
    }

    /// The command that runs a query on the library database.
    pub open spec fn query(self, statement: Seq<char>) -> CommandLine {
        guest::sql_command(self.runtime, self.target, self.db_path, statement)
    }

    /// What to do once the awaited reply is there. A failing mount listing
    /// counts as an empty one; any other failure ends the check. Rows are
    /// sampled only where there is a library location.
    pub open spec fn after(self, reply: Reply) -> Step {
        match self.stage {
            Stage::Mounts => {
                let mounts = match reply {
                    Ok(out) => guest::listed(out),
                    Err(message) => Seq::empty(),
                };
                Step::Run(self.at(Stage::Roots { mounts }), self.query(sql::roots_query()))
            },
            Stage::Roots { mounts } => match reply {
                Ok(out) => {
                    let roots = guest::listed(out);
                    if roots.len() == 0 {
                        Step::Done(report::classified(roots, mounts, Seq::empty()))
                    } else {
                        Step::Run(
                            self.at(Stage::Parts { mounts, roots }),
                            self.query(sql::parts_query(roots)),
                        )
                    }
                },
                Err(message) => Step::Failed(message),
            },
            Stage::Parts { mounts, roots } => match reply {
                Ok(out) => Step::Run(
                    self.at(Stage::Streams { mounts, roots, offending: guest::listed(out) }),
                    self.query(sql::streams_query(roots)),
                ),
                Err(message) => Step::Failed(message),
            },
            Stage::Streams { mounts, roots, offending } => match reply {
                Ok(out) => Step::Done(
                    report::classified(roots, mounts, offending + guest::listed(out)),
                ),
                Err(message) => Step::Failed(message),
            },
        }
    }
}

impl StorageCheck {
    /// Starts a check: the live mounts come first.
    pub fn begin(args: PlexStorageCheckArgs) -> (r: (StorageCheck, GuestCommand))
        ensures
            r.0.args == args,
            r.0.stage is Mounts,
            r.1@ == guest::mounts_command(args.runtime, args.target@),
    {
        let command = guest::list_mounts(args.runtime, args.target.as_str());
        (StorageCheck { args, stage: CheckStage::Mounts }, command)
    }

    /// Takes the result of the awaited command.
    pub fn next(self, reply: Result<String, String>) -> (r: CheckStep)
        ensures
            r@ == self@.after(reply_view(reply)),
            r matches CheckStep::Run(check, _) ==> check.args == self.args,
    {
        let StorageCheck { args, stage } = self;
        match stage {
            CheckStage::Mounts => {
                let out = match reply {
                    Ok(out) => out,
                    Err(_) => String::new(),
                };
                proof {
                    guest::lemma_listed_nothing();
                }
                let mount_targets = guest::lines(out.as_str());
                let statement = sql::select_roots();
                let command = guest::plex_sql(
                    args.runtime,
                    args.target.as_str(),
                    args.db_path.as_str(),
                    statement.as_str(),
                );
                CheckStep::Run(
                    StorageCheck { args, stage: CheckStage::Roots { mount_targets } },
                    command,
                )
            },
            CheckStage::Roots { mount_targets } => {
                let out = match reply {
                    Ok(out) => out,
                    Err(message) => {
                        return CheckStep::Failed(message);
                    },
                };
                let roots = guest::lines(out.as_str());
                if roots.len() == 0 {
                    let none: Vec<String> = Vec::new();
                    let done = report::classify(roots, mount_targets, none.as_slice());
                    assert(text::views(none@) == Seq::<Seq<char>>::empty());
                    return CheckStep::Done(done);
                }
                let statement = sql::select_parts(roots.as_slice());
                let command = guest::plex_sql(
                    args.runtime,
                    args.target.as_str(),
                    args.db_path.as_str(),
                    statement.as_str(),
                );
                CheckStep::Run(
                    StorageCheck { args, stage: CheckStage::Parts { mount_targets, roots } },
                    command,
                )
            },
            CheckStage::Parts { mount_targets, roots } => {
                let out = match reply {
                    Ok(out) => out,
                    Err(message) => {
                        return CheckStep::Failed(message);
                    },
                };
                let offending = guest::lines(out.as_str());
                let statement = sql::select_streams(roots.as_slice());
                let command = guest::plex_sql(
                    args.runtime,
                    args.target.as_str(),
                    args.db_path.as_str(),
                    statement.as_str(),
                );
                CheckStep::Run(
                    StorageCheck {
                        args,
                        stage: CheckStage::Streams { mount_targets, roots, offending },
                    },
                    command,
                )
            },
            CheckStage::Streams { mount_targets, roots, offending } => {
                let out = match reply {
                    Ok(out) => out,
                    Err(message) => {
                        return CheckStep::Failed(message);
                    },
                };
                let mut all = offending;
                let ghost parts = all@;
                let mut streams = guest::lines(out.as_str());
                let ghost urls = streams@;
                all.append(&mut streams);
                assert(text::views(all@) == text::views(parts) + text::views(urls));
                CheckStep::Done(report::classify(roots, mount_targets, all.as_slice()))
            },
        }
    }
}

/// Whether a command only reads: it lists mounts, or it runs one of the three
/// queries.
pub open spec fn only_reads(c: Check, command: CommandLine) -> bool {
    ||| command == guest::mounts_command(c.runtime, c.target)
    ||| command == c.query(sql::roots_query())
    ||| exists|roots: Seq<Seq<char>>| command == c.query(#[trigger] sql::parts_query(roots))
    ||| exists|roots: Seq<Seq<char>>| command == c.query(#[trigger] sql::streams_query(roots))
}

/// A check only reads, whatever the commands reply.
pub proof fn law_check_only_reads(c: Check, reply: Reply)
    ensures
        c.after(reply) matches Step::Run(next, command) ==> only_reads(c, command),
{
}

/// A check runs its queries on its own instance and database, whatever came
/// before: the locations after the mounts, then the item paths and the subtitle
/// URLs outside the locations that were listed; then it reports on all of them.
/// A mount listing that fails counts as empty; any other failure ends the check
/// with its message.
pub proof fn law_check_steps(
    runtime: Runtime,
    target: Seq<char>,
    db_path: Seq<char>,
    mounts: Seq<Seq<char>>,
    roots: Seq<Seq<char>>,
    offending: Seq<Seq<char>>,
    out: Seq<char>,
    message: Seq<char>,
)
    ensures
        ({
            let at = |stage: Stage| Check { runtime, target, db_path, stage };
            let sampling = |roots: Seq<Seq<char>>| Stage::Parts { mounts, roots };
            let found = guest::listed(out);
            &&& at(Stage::Mounts).after(Ok(out)) == Step::Run(
                at(Stage::Roots { mounts: found }),
                guest::sql_command(runtime, target, db_path, sql::roots_query()),
            )
            &&& at(Stage::Mounts).after(Err(message)) == Step::Run(
                at(Stage::Roots { mounts: Seq::empty() }),
                guest::sql_command(runtime, target, db_path, sql::roots_query()),
            )
            &&& found.len() == 0 ==> at(Stage::Roots { mounts }).after(Ok(out)) == Step::Done(
                report::classified(Seq::empty(), mounts, Seq::empty()),
            )
            &&& found.len() > 0 ==> at(Stage::Roots { mounts }).after(Ok(out)) == Step::Run(
                at(sampling(found)),
                guest::sql_command(runtime, target, db_path, sql::parts_query(found)),
            )
            &&& at(sampling(roots)).after(Ok(out)) == Step::Run(
                at(Stage::Streams { mounts, roots, offending: found }),
                guest::sql_command(runtime, target, db_path, sql::streams_query(roots)),
            )
            &&& at(Stage::Streams { mounts, roots, offending }).after(Ok(out)) == Step::Done(
                report::classified(roots, mounts, offending + found),
            )
            &&& at(Stage::Roots { mounts }).after(Err(message)) == Step::Failed(message)
            &&& at(sampling(roots)).after(Err(message)) == Step::Failed(message)
            &&& at(Stage::Streams { mounts, roots, offending }).after(Err(message))
                == Step::Failed(message)
        }),
{
    if guest::listed(out).len() == 0 {
        assert(guest::listed(out) == Seq::<Seq<char>>::empty());
    }
}

/// What a check, its stage, its next step and a reply show of themselves is what
/// they hold.
pub proof fn law_check_views(
    c: StorageCheck,
    command: GuestCommand,
    done: StorageReport,
    message: String,
    a: Vec<String>,
    b: Vec<String>,
    o: Vec<String>,
)
    ensures
        c@.runtime == c.args.runtime,
        c@.target == c.args.target@,
        c@.db_path == c.args.db_path@,
        c@.stage == c.stage@,
        CheckStage::Mounts@ == Stage::Mounts,
        (CheckStage::Roots { mount_targets: a })@ == (Stage::Roots { mounts: text::views(a@) }),
        (CheckStage::Parts { mount_targets: a, roots: b })@ == (Stage::Parts {
            mounts: text::views(a@),
            roots: text::views(b@),
        }),
        (CheckStage::Streams { mount_targets: a, roots: b, offending: o })@ == (Stage::Streams {
            mounts: text::views(a@),
            roots: text::views(b@),
            offending: text::views(o@),
        }),
        CheckStep::Run(c, command)@ == Step::Run(c@, command@),
        CheckStep::Done(done)@ == Step::Done(done@),
        CheckStep::Failed(message)@ == Step::Failed(message@),
        reply_view(Ok(message)) == Reply::Ok(message@),
        reply_view(Err(message)) == Reply::Err(message@),
{
}

/// A check that no query fails on ends, after at most four replies, in the
/// report on what they listed.
pub proof fn law_check_reports(
    c: Check,
    mounts: Reply,
    roots: Seq<char>,
    parts: Seq<char>,
    streams: Seq<char>,
)
    requires
        c.stage == Stage::Mounts,
    ensures
        ({
            let live = match mounts {
                Ok(out) => guest::listed(out),
                Err(message) => Seq::empty(),
            };
            let libraries = guest::listed(roots);
            &&& c.after(mounts) matches Step::Run(c1, q1)
            &&& q1 == c.query(sql::roots_query())
            &&& if libraries.len() == 0 {
                c1.after(Ok(roots)) == Step::Done(
                    report::classified(libraries, live, Seq::empty()),
                )
            } else {
                &&& c1.after(Ok(roots)) matches Step::Run(c2, q2)
                &&& q2 == c.query(sql::parts_query(libraries))
                &&& c2.after(Ok(parts)) matches Step::Run(c3, q3)
                &&& q3 == c.query(sql::streams_query(libraries))
                &&& c3.after(Ok(streams)) == Step::Done(
                    report::classified(
                        libraries,
                        live,
                        guest::listed(parts) + guest::listed(streams),
                    ),
                )
            }
        }),
{
}

} // verus!
