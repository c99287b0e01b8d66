//! Remediation, step by step: recompute the plan, and where it is to be
//! applied, stop the service, back the database up, rewrite, start again.

use vstd::prelude::*;

use crate::lifecycle::Runtime;
use crate::storage::check;
use crate::storage::check::{
    Check, CheckStage, CheckStep, PlexStorageCheckArgs, Reply, Stage, Step, StorageCheck,
};
use crate::storage::drift;
use crate::storage::drift::{DriftRewrite, Rewrite};
use crate::storage::guest;
use crate::storage::guest::{CommandLine, GuestCommand};
use crate::storage::report;
use crate::storage::sql;

verus! {

/// Which instance to repair, and whether to apply the plan.
#[derive(Debug, Clone, PartialEq, Eq)]
pub struct PlexStorageRepairArgs {
    /// Where the instance runs.
    pub runtime: Runtime,
    /// LXC vmid or docker container name/id.
    pub target: String,
    /// Path of the library database inside the guest.
    pub db_path: String,
    /// Apply the fixes. Without this only the plan is reported.
    pub apply: bool,
}

/// What a repair did, or would do.
#[derive(Debug, Clone, PartialEq, Eq)]
pub struct PlexStorageRepairOutput {
    /// True when the rewrites were applied; false for a dry run.
    pub applied: bool,
    /// The rewrites that were (or would be) applied.
    pub rewrites: Vec<DriftRewrite>,
    /// Backup of the database written before applying.
    pub backup: Option<String>,
}

/// What a [`PlexStorageRepairOutput`] says.
#[verifier::ext_equal]
pub struct Outcome {
    pub applied: bool,
    pub rewrites: Seq<Rewrite>,
    pub backup: Option<Seq<char>>,
}

impl View for PlexStorageRepairOutput {
    type V = Outcome;

    open spec fn view(&self) -> Outcome {
        Outcome {
            applied: self.applied,
            rewrites: drift::rewrite_views(self.rewrites@),
            backup: match self.backup {
                Some(b) => Some(b@),
                None => None,
            },
        }
    }
}

/// Why a repair ended early: what it was about to do, where that is said, and
/// how the command failed.
#[derive(Debug, Clone, PartialEq, Eq)]
pub struct RepairError {
    pub context: Option<String>,
    pub cause: String,
}

/// What a [`RepairError`] says.
#[verifier::ext_equal]
pub struct Failure {
    pub context: Option<Seq<char>>,
    pub cause: Seq<char>,
}

impl View for RepairError {
    type V = Failure;

    open spec fn view(&self) -> Failure {
        Failure {
            context: match self.context {
                Some(c) => Some(c@),
                None => None,
            },
            cause: self.cause@,
        }
    }
}

/// Whose reply a repair waits for.
enum RepairStage {
    Checking { stage: CheckStage },
    Stopping { rewrites: Vec<DriftRewrite> },
    BackingUp { rewrites: Vec<DriftRewrite>, backup: String },
    Applying { rewrites: Vec<DriftRewrite>, backup: String, at: usize },
    Starting { rewrites: Vec<DriftRewrite>, backup: String },
}

/// A repair under way.
pub struct StorageRepair {
    args: PlexStorageRepairArgs,
    stage: RepairStage,
}

/// The stages of a repair: the check that recomputes the plan, then one command
/// after the other.
#[verifier::ext_equal]
pub enum Phase {
    Checking { stage: Stage },
    Stopping { plan: Seq<Rewrite> },
    BackingUp { plan: Seq<Rewrite>, backup: Seq<char> },
    Applying { plan: Seq<Rewrite>, backup: Seq<char>, at: int },
    Starting { plan: Seq<Rewrite>, backup: Seq<char> },
}

/// What a [`StorageRepair`] says.
#[verifier::ext_equal]
pub struct Repair {
    pub runtime: Runtime,
    pub target: Seq<char>,
    pub db_path: Seq<char>,
    pub apply: bool,
    pub phase: Phase,
}

impl View for StorageRepair {
    type V = Repair;

    closed spec fn view(&self) -> Repair {
        Repair {
            runtime: self.args.runtime,
            target: self.args.target@,
            db_path: self.args.db_path@,
            apply: self.args.apply,
            phase: match self.stage {
                RepairStage::Checking { stage } => Phase::Checking { stage: stage@ },
                RepairStage::Stopping { rewrites } => Phase::Stopping {
                    plan: drift::rewrite_views(rewrites@),
                },
                RepairStage::BackingUp { rewrites, backup } => Phase::BackingUp {
                    plan: drift::rewrite_views(rewrites@),
                    backup: backup@,
                },
                RepairStage::Applying { rewrites, backup, at } => Phase::Applying {
                    plan: drift::rewrite_views(rewrites@),
                    backup: backup@,
                    at: at as int,
                },
                RepairStage::Starting { rewrites, backup } => Phase::Starting {
                    plan: drift::rewrite_views(rewrites@),
                    backup: backup@,
                },
            },
        }
    }
}

impl StorageRepair {
    /// Past the check, a repair was asked to apply a plan that is not empty.
    #[verifier::type_invariant]
    spec fn wf(self) -> bool {
        self@.wf()
    }
}

/// What a repair does next.
pub enum RepairStep {
    /// Run the command and come back with its result.
    Run(StorageRepair, GuestCommand),
    /// The repair, or the dry run, is complete.
    Done(PlexStorageRepairOutput),
    /// A command failed.
    Failed(RepairError),
}

/// What a [`RepairStep`] says.
#[verifier::ext_equal]
pub enum Act {
    Run(Repair, CommandLine),
    Done(Outcome),
    Failed(Failure),
}

impl View for RepairStep {
    type V = Act;

    open spec fn view(&self) -> Act {
        match self {
            RepairStep::Run(repair, command) => Act::Run(repair@, command@),
            RepairStep::Done(output) => Act::Done(output@),
            RepairStep::Failed(error) => Act::Failed(error@),
        }
    }
}

/// The name of the backup that is made of a database at the time `stamp`.
pub open spec fn backup_path(db: Seq<char>, stamp: Seq<char>) -> Seq<char> {
    db + ".orca-bak-"@ + stamp
}

/// Whether `backup` is the name of a backup of the database, made at any time.
pub open spec fn is_backup(db: Seq<char>, backup: Seq<char>) -> bool {
    exists|stamp: Seq<char>| backup == #[trigger] backup_path(db, stamp)
}

/// What is said of a rewrite that could not be applied.
pub open spec fn apply_context(r: Rewrite) -> Seq<char> {
    "apply rewrite "@ + r.from_root + " -> "@ + r.to_root
}

impl Repair {
    /// Past the check, a repair was asked to apply a plan that is not empty, and
    /// a backup is named after the database.
    pub open spec fn wf(self) -> bool {
        &&& !(self.phase is Checking) ==> self.apply
        &&& match self.phase {
            Phase::Checking { stage } => true,
            Phase::Stopping { plan } => plan.len() > 0,
            Phase::BackingUp { plan, backup } => plan.len() > 0 && is_backup(self.db_path, backup),
            Phase::Applying { plan, backup, at } => 0 <= at < plan.len() && is_backup(
                self.db_path,
                backup,
            ),
            Phase::Starting { plan, backup } => plan.len() > 0 && is_backup(self.db_path, backup),
        }
    }

    /// The same repair at another phase.
    pub open spec fn at(self, phase: Phase) -> Repair {
        Repair {
            runtime: self.runtime,
            target: self.target,
            db_path: self.db_path,
            apply: self.apply,
            phase,
        }
    }

    /// The check that a repair starts with, at the given stage.
    pub open spec fn check(self, stage: Stage) -> Check {
        Check { runtime: self.runtime, target: self.target, db_path: self.db_path, stage }
    }

    /// Run a rewrite of the plan next.
    pub open spec fn rewriting(self, plan: Seq<Rewrite>, backup: Seq<char>, at: int) -> Act {
        Act::Run(
            self.at(Phase::Applying { plan, backup, at }),
            guest::sql_command(
                self.runtime,
                self.target,
                self.db_path,
                sql::repair_text(plan[at]),
            ),
        )
    }

    /// What to do once the plan is known: report it, or stop the service.
    pub open spec fn with_plan(self, plan: Seq<Rewrite>) -> Act {
        if !self.apply || plan.len() == 0 {
            Act::Done(Outcome { applied: false, rewrites: plan, backup: None })
        } else {
            Act::Run(
                self.at(Phase::Stopping { plan }),
                guest::unit_command(self.runtime, self.target, "stop"@),
            )
        }
    }

    /// What to do once the awaited reply is there, at the time `stamp`.
    pub open spec fn after(self, reply: Reply, stamp: Seq<char>) -> Act {
        match self.phase {
            Phase::Checking { stage } => match self.check(stage).after(reply) {
                Step::Run(next, command) => Act::Run(
                    self.at(Phase::Checking { stage: next.stage }),
                    command,
                ),
                Step::Done(found) => self.with_plan(report::remedies(found.issues)),
                Step::Failed(message) => Act::Failed(Failure { context: None, cause: message }),
            },
            Phase::Stopping { plan } => match reply {
                Ok(out) => {
                    let backup = backup_path(self.db_path, stamp);
                    Act::Run(
                        self.at(Phase::BackingUp { plan, backup }),
                        guest::copy_command(self.runtime, self.target, self.db_path, backup),
                    )
                },
                Err(message) => Act::Failed(
                    Failure { context: Some("stop plexmediaserver"@), cause: message },
                ),
            },
            Phase::BackingUp { plan, backup } => match reply {
                Ok(out) => self.rewriting(plan, backup, 0),
                Err(message) => Act::Failed(
                    Failure { context: Some("back up library DB"@), cause: message },
                ),
            },
            Phase::Applying { plan, backup, at } => match reply {
                Ok(out) => if at + 1 < plan.len() {
                    self.rewriting(plan, backup, at + 1)
                } else {
                    Act::Run(
                        self.at(Phase::Starting { plan, backup }),
                        guest::unit_command(self.runtime, self.target, "start"@),
                    )
                },
                Err(message) => Act::Failed(
                    Failure { context: Some(apply_context(plan[at])), cause: message },
                ),
            },
            Phase::Starting { plan, backup } => match reply {
                Ok(out) => Act::Done(
                    Outcome { applied: true, rewrites: plan, backup: Some(backup) },
                ),
                Err(message) => Act::Failed(
                    Failure { context: Some("start plexmediaserver"@), cause: message },
                ),
            },
        }
    }
}

fn failed(context: &str, cause: String) -> (r: RepairStep)
    ensures
        r@ == Act::Failed(Failure { context: Some(context@), cause: cause@ }),
{
    RepairStep::Failed(RepairError { context: Some(context.to_owned()), cause })
}

fn rewrite_command(args: &PlexStorageRepairArgs, rw: &DriftRewrite) -> (r: GuestCommand)
    ensures
        r@ == guest::sql_command(
            args.runtime,
            args.target@,
            args.db_path@,
            sql::repair_text(rw@),
        ),
{
    let statements = sql::repair_sql(rw);
    guest::plex_sql(
        args.runtime,
        args.target.as_str(),
        args.db_path.as_str(),
        statements.as_str(),
    )
}

impl StorageRepair {
    /// Starts a repair: the check comes first.
    pub fn begin(args: PlexStorageRepairArgs) -> (r: (StorageRepair, GuestCommand))
        ensures
            r.0@ == (Repair {
                runtime: args.runtime,
                target: args.target@,
                db_path: args.db_path@,
                apply: args.apply,
                phase: Phase::Checking { stage: Stage::Mounts },
            }),
            r.0@.wf(),
            r.1@ == guest::mounts_command(args.runtime, args.target@),
    {
        let command = guest::list_mounts(args.runtime, args.target.as_str());
        (
            StorageRepair { args, stage: RepairStage::Checking { stage: CheckStage::Mounts } },
            command,
        )
    }

    /// Takes the result of the awaited command; `stamp` is the time at which it
    /// came back, as it is to appear in the name of a backup.
    pub fn next(self, reply: Result<String, String>, stamp: &str) -> (r: RepairStep)
        ensures
            r@ == self@.after(check::reply_view(reply), stamp@),
            self@.wf(),
            r matches RepairStep::Run(repair, _) ==> repair@.wf(),
    {
        proof {
            use_type_invariant(&self);
        }
        let StorageRepair { args, stage } = self;
        match stage {
            RepairStage::Checking { stage } => {
                let PlexStorageRepairArgs { runtime, target, db_path, apply } = args;
                let check = StorageCheck {
                    args: PlexStorageCheckArgs {
                        runtime,
                        target: target.clone(),
                        db_path: db_path.clone(),
                    },
                    stage,
                };
                let args = PlexStorageRepairArgs { runtime, target, db_path, apply };
                match check.next(reply) {
                    CheckStep::Run(next, command) => RepairStep::Run(
                        StorageRepair { args, stage: RepairStage::Checking { stage: next.stage } },
                        command,
                    ),
                    CheckStep::Done(found) => {
                        let rewrites = report::take_rewrites(found.issues);
                        if !args.apply || rewrites.len() == 0 {
                            return RepairStep::Done(
                                PlexStorageRepairOutput { applied: false, rewrites, backup: None },
                            );
                        }
                        let command = guest::control_unit(
                            args.runtime,
                            args.target.as_str(),
                            "stop",
                        );
                        RepairStep::Run(
                            StorageRepair { args, stage: RepairStage::Stopping { rewrites } },
                            command,
                        )
                    },
                    CheckStep::Failed(cause) => RepairStep::Failed(
                        RepairError { context: None, cause },
                    ),
                }
            },
            RepairStage::Stopping { rewrites } => match reply {
                Ok(_) => {
                    let mut backup = args.db_path.clone();
                    backup.append(".orca-bak-");
                    backup.append(stamp);
                    assert(backup@ == backup_path(args.db_path@, stamp@));
                    let command = guest::copy_database(
                        args.runtime,
                        args.target.as_str(),
                        args.db_path.as_str(),
                        backup.as_str(),
                    );
                    RepairStep::Run(
                        StorageRepair { args, stage: RepairStage::BackingUp { rewrites, backup } },
                        command,
                    )
                },
                Err(cause) => failed("stop plexmediaserver", cause),
            },
            RepairStage::BackingUp { rewrites, backup } => match reply {
                Ok(_) => {
                    let command = rewrite_command(&args, &rewrites[0]);
                    RepairStep::Run(
                        StorageRepair {
                            args,
                            stage: RepairStage::Applying { rewrites, backup, at: 0 },
                        },
                        command,
                    )
                },
                Err(cause) => failed("back up library DB", cause),
            },
            RepairStage::Applying { rewrites, backup, at } => match reply {
                Ok(_) => {
                    let n: usize = rewrites.len();
                    if at + 1 < n {
                        let command = rewrite_command(&args, &rewrites[at + 1]);
                        RepairStep::Run(
                            StorageRepair {
                                args,
                                stage: RepairStage::Applying { rewrites, backup, at: at + 1 },
                            },
                            command,
                        )
                    } else {
                        let command = guest::control_unit(
                            args.runtime,
                            args.target.as_str(),
                            "start",
                        );
                        RepairStep::Run(
                            StorageRepair {
                                args,
                                stage: RepairStage::Starting { rewrites, backup },
                            },
                            command,
                        )
                    }
                },
                Err(cause) => {
                    let mut context = "apply rewrite ".to_owned();
                    context.append(rewrites[at].from_root.as_str());
                    context.append(" -> ");
                    context.append(rewrites[at].to_root.as_str());
                    failed(context.as_str(), cause)
                },
            },
            RepairStage::Starting { rewrites, backup } => match reply {
                Ok(_) => RepairStep::Done(
                    PlexStorageRepairOutput { applied: true, rewrites, backup: Some(backup) },
                ),
                Err(cause) => failed("start plexmediaserver", cause),
            },
        }
    }
}

/// A dry run writes nothing: without `apply`, every command only reads, and the
/// repair never gets past the check.
pub proof fn law_dry_run_only_reads(r: Repair, reply: Reply, stamp: Seq<char>)
    requires
        !r.apply,
        r.phase is Checking,
    ensures
        match r.after(reply, stamp) {
            Act::Run(next, command) => {
                &&& check::only_reads(r.check(Stage::Mounts), command)
                &&& !next.apply
                &&& next.phase is Checking
            },
            Act::Done(outcome) => !outcome.applied && outcome.backup is None,
            Act::Failed(failure) => true,
        },
{
    match r.phase {
        Phase::Checking { stage } => {
            check::law_check_only_reads(r.check(stage), reply);
            if let Act::Run(next, command) = r.after(reply, stamp) {
                assert(check::only_reads(r.check(stage), command));
                assert forall|s: Seq<char>| #[trigger] r.check(stage).query(s) == r.check(
                    Stage::Mounts,
                ).query(s) by {}
                if command == r.check(stage).query(sql::roots_query()) {
                } else if exists|roots: Seq<Seq<char>>|
                    command == r.check(stage).query(#[trigger] sql::parts_query(roots)) {
                    let roots = choose|roots: Seq<Seq<char>>|
                        command == r.check(stage).query(#[trigger] sql::parts_query(roots));
                    assert(command == r.check(Stage::Mounts).query(sql::parts_query(roots)));
                } else if exists|roots: Seq<Seq<char>>|
                    command == r.check(stage).query(#[trigger] sql::streams_query(roots)) {
                    let roots = choose|roots: Seq<Seq<char>>|
                        command == r.check(stage).query(#[trigger] sql::streams_query(roots));
                    assert(command == r.check(Stage::Mounts).query(sql::streams_query(roots)));
                }
            }
        },
        _ => {},
    }
}

/// A command that fails ends the repair: no further command is run. Only the
/// listing of the mounts may fail. What was about to be done is said of every
/// command but the queries of the check.
pub proof fn law_failure_ends_repair(r: Repair, message: Seq<char>, stamp: Seq<char>)
    requires
        r.phase != (Phase::Checking { stage: Stage::Mounts }),
    ensures
        r.after(Err(message), stamp) matches Act::Failed(failure) && failure.cause == message && (
        failure.context is None <==> r.phase is Checking),
{
}

/// A repair keeps its instance and its database from step to step.
pub proof fn law_repair_keeps_target(r: Repair, reply: Reply, stamp: Seq<char>)
    requires
        r.wf(),
    ensures
        r.after(reply, stamp) matches Act::Run(next, command) ==> next.wf() && next == r.at(
            next.phase,
        ),
{
}

/// A repair reports that it applied its plan exactly where it was asked to and
/// there was something to rewrite, and exactly then it has made a backup, which
/// is named after the database.
pub proof fn law_applied_exactly_when_asked(r: Repair, reply: Reply, stamp: Seq<char>)
    requires
        r.wf(),
    ensures
        r.after(reply, stamp) matches Act::Done(outcome) ==> {
            &&& outcome.applied <==> r.apply && outcome.rewrites.len() > 0
            &&& outcome.applied <==> outcome.backup is Some
            &&& outcome.backup matches Some(backup) ==> is_backup(r.db_path, backup)
        },
{
}

/// What commands that succeeded gave back: for each, its output and the time at
/// which it ended.
pub type Outputs = Seq<(Seq<char>, Seq<char>)>;

/// The commands that a repair runs from here on where the awaited one and those
/// that follow succeed with these outputs, and what it has reported by then.
#[verifier::opaque]
pub open spec fn succeeding(r: Repair, outputs: Outputs) -> (Seq<CommandLine>, Option<Outcome>)
    decreases outputs.len(),
{
    if outputs.len() == 0 {
        (Seq::empty(), None)
    } else {
        match r.after(Ok(outputs[0].0), outputs[0].1) {
            Act::Run(next, command) => {
                let rest = succeeding(next, outputs.drop_first());
                (seq![command] + rest.0, rest.1)
            },
            Act::Done(outcome) => (Seq::empty(), Some(outcome)),
            Act::Failed(failure) => (Seq::empty(), None),
        }
    }
}

/// The commands that rewrite the database, one for each rewrite of the plan.
pub open spec fn rewrite_commands(r: Repair, plan: Seq<Rewrite>) -> Seq<CommandLine> {
    plan.map_values(
        |rw: Rewrite|
            guest::sql_command(r.runtime, r.target, r.db_path, sql::repair_text(rw)),
    )
}

proof fn lemma_one_more(r: Repair, next: Repair, command: CommandLine, outputs: Outputs)
    requires
        outputs.len() > 0,
        r.after(Ok(outputs[0].0), outputs[0].1) == Act::Run(next, command),
    ensures
        ({
            let rest = succeeding(next, outputs.drop_first());
            succeeding(r, outputs) == (seq![command] + rest.0, rest.1)
        }),
{
    reveal_with_fuel(succeeding, 1);
}

proof fn lemma_no_more(r: Repair, outcome: Outcome, outputs: Outputs)
    requires
        outputs.len() > 0,
        r.after(Ok(outputs[0].0), outputs[0].1) == Act::Done(outcome),
    ensures
        succeeding(r, outputs) == (Seq::<CommandLine>::empty(), Some(outcome)),
{
    reveal_with_fuel(succeeding, 1);
}

proof fn lemma_skip_one<A>(s: Seq<A>, i: int, last: A)
    requires
        0 <= i < s.len(),
    ensures
        seq![s[i]] + (s.skip(i + 1) + seq![last]) == s.skip(i) + seq![last],
{
}

proof fn lemma_next_rewrite(
    r: Repair,
    plan: Seq<Rewrite>,
    backup: Seq<char>,
    at: int,
    out: Seq<char>,
    stamp: Seq<char>,
)
    requires
        r.phase == (Phase::Applying { plan, backup, at }),
        0 <= at < plan.len(),
    ensures
        r.after(Ok(out), stamp) == if at + 1 < plan.len() {
            Act::Run(
                r.at(Phase::Applying { plan, backup, at: at + 1 }),
                rewrite_commands(r, plan)[at + 1],
            )
        } else {
            Act::Run(
                r.at(Phase::Starting { plan, backup }),
                guest::unit_command(r.runtime, r.target, "start"@),
            )
        },
{
}

#[verifier::rlimit(40)]
proof fn lemma_applying(
    r: Repair,
    plan: Seq<Rewrite>,
    backup: Seq<char>,
    at: int,
    outputs: Outputs,
)
    requires
        r.phase == (Phase::Applying { plan, backup, at }),
        0 <= at < plan.len(),
        outputs.len() >= plan.len() - at + 1,
    ensures
        succeeding(r, outputs) == (
            rewrite_commands(r, plan).skip(at + 1) + seq![
                guest::unit_command(r.runtime, r.target, "start"@),
            ],
            Some(Outcome { applied: true, rewrites: plan, backup: Some(backup) }),
        ),
    decreases plan.len() - at,
{
    let start = guest::unit_command(r.runtime, r.target, "start"@);
    let all = rewrite_commands(r, plan);
    let outcome = Outcome { applied: true, rewrites: plan, backup: Some(backup) };
    let rest = outputs.drop_first();
    lemma_next_rewrite(r, plan, backup, at, outputs[0].0, outputs[0].1);
    if at + 1 < plan.len() {
        let next = r.at(Phase::Applying { plan, backup, at: at + 1 });
        lemma_applying(next, plan, backup, at + 1, rest);
        lemma_one_more(r, next, all[at + 1], outputs);
        lemma_skip_one(all, at + 1, start);
    } else {
        let next = r.at(Phase::Starting { plan, backup });
        lemma_no_more(next, outcome, rest);
        lemma_one_more(r, next, start, outputs);
        assert(all.skip(at + 1) + seq![start] == seq![start] + Seq::<CommandLine>::empty());
    }
}

proof fn lemma_stopped(r: Repair, plan: Seq<Rewrite>, out: Seq<char>, stamp: Seq<char>)
    requires
        r.phase == (Phase::Stopping { plan }),
    ensures
        ({
            let backup = backup_path(r.db_path, stamp);
            r.after(Ok(out), stamp) == Act::Run(
                r.at(Phase::BackingUp { plan, backup }),
                guest::copy_command(r.runtime, r.target, r.db_path, backup),
            )
        }),
{
}

proof fn lemma_backed_up(
    r: Repair,
    plan: Seq<Rewrite>,
    backup: Seq<char>,
    out: Seq<char>,
    stamp: Seq<char>,
)
    requires
        r.phase == (Phase::BackingUp { plan, backup }),
        plan.len() > 0,
    ensures
        r.after(Ok(out), stamp) == Act::Run(
            r.at(Phase::Applying { plan, backup, at: 0 }),
            rewrite_commands(r, plan)[0],
        ),
{
}

/// Once the service is stopped, a repair on which nothing fails backs the
/// database up, applies every rewrite in the order of the plan, starts the
/// service, and only then reports that it was applied. What the commands print
/// makes no difference, and of their times only that of the stop, which names
/// the backup.
#[verifier::rlimit(40)]
pub proof fn law_repair_order(r: Repair, plan: Seq<Rewrite>, outputs: Outputs)
    requires
        r.phase == (Phase::Stopping { plan }),
        plan.len() > 0,
        outputs.len() >= plan.len() + 3,
    ensures
        ({
            let backup = backup_path(r.db_path, outputs[0].1);
            succeeding(r, outputs) == (
                seq![guest::copy_command(r.runtime, r.target, r.db_path, backup)]
                    + rewrite_commands(r, plan) + seq![
                    guest::unit_command(r.runtime, r.target, "start"@),
                ],
                Some(Outcome { applied: true, rewrites: plan, backup: Some(backup) }),
            )
        }),
{
    let backup = backup_path(r.db_path, outputs[0].1);
    let copy = guest::copy_command(r.runtime, r.target, r.db_path, backup);
    let start = guest::unit_command(r.runtime, r.target, "start"@);
    let all = rewrite_commands(r, plan);
    let saving = r.at(Phase::BackingUp { plan, backup });
    let first = r.at(Phase::Applying { plan, backup, at: 0 });
    let rest = outputs.drop_first();
    lemma_applying(first, plan, backup, 0, rest.drop_first());
    lemma_stopped(r, plan, outputs[0].0, outputs[0].1);
    lemma_backed_up(saving, plan, backup, rest[0].0, rest[0].1);
    lemma_one_more(saving, first, all[0], rest);
    lemma_one_more(r, saving, copy, outputs);
    lemma_skip_one(all, 0, start);
    assert(all.skip(0) == all);
    assert(seq![copy] + (all + seq![start]) == seq![copy] + all + seq![start]);
}

/// The plan that a repair applies or reports is the one for the offending paths
/// that its check sampled.
pub proof fn law_repair_uses_the_plan(
    r: Repair,
    mounts: Seq<Seq<char>>,
    roots: Seq<Seq<char>>,
    offending: Seq<Seq<char>>,
    out: Seq<char>,
    stamp: Seq<char>,
)
    requires
        r.phase == (Phase::Checking { stage: Stage::Streams { mounts, roots, offending } }),
    ensures
        r.after(Ok(out), stamp) == r.with_plan(
            drift::planned(offending + guest::listed(out), roots),
        ),
{
    report::law_report_carries_the_plan(roots, mounts, offending + guest::listed(out));
}

/// A repair with `apply` whose check calls for rewrites stops the service, and
/// where nothing fails it then backs the database up, applies the plan for the
/// sampled paths, starts the service, and reports the plan and the backup.
pub proof fn law_applied_repair(
    r: Repair,
    mounts: Seq<Seq<char>>,
    roots: Seq<Seq<char>>,
    offending: Seq<Seq<char>>,
    out: Seq<char>,
    stamp: Seq<char>,
    outputs: Outputs,
)
    requires
        r.apply,
        r.phase == (Phase::Checking { stage: Stage::Streams { mounts, roots, offending } }),
        drift::planned(offending + guest::listed(out), roots).len() > 0,
        outputs.len() >= drift::planned(offending + guest::listed(out), roots).len() + 3,
    ensures
        ({
            let plan = drift::planned(offending + guest::listed(out), roots);
            let backup = backup_path(r.db_path, outputs[0].1);
            &&& r.after(Ok(out), stamp) matches Act::Run(next, command)
            &&& command == guest::unit_command(r.runtime, r.target, "stop"@)
            &&& succeeding(next, outputs) == (
                seq![guest::copy_command(r.runtime, r.target, r.db_path, backup)]
                    + rewrite_commands(r, plan) + seq![
                    guest::unit_command(r.runtime, r.target, "start"@),
                ],
                Some(Outcome { applied: true, rewrites: plan, backup: Some(backup) }),
            )
        }),
{
    let plan = drift::planned(offending + guest::listed(out), roots);
    let next = r.at(Phase::Stopping { plan });
    law_repair_uses_the_plan(r, mounts, roots, offending, out, stamp);
    law_repair_order(next, plan, outputs);
    assert(rewrite_commands(next, plan) == rewrite_commands(r, plan));
}

/// A repair starts with the check: it runs the same commands, on its own
/// instance and database, and a query that fails ends it with that message and
/// nothing added.
pub proof fn law_repair_checks_first(r: Repair, stage: Stage, reply: Reply, stamp: Seq<char>)
    requires
        r.phase == (Phase::Checking { stage }),
    ensures
        ({
            let c = Check { runtime: r.runtime, target: r.target, db_path: r.db_path, stage };
            match c.after(reply) {
                Step::Run(next, command) => r.after(reply, stamp) == Act::Run(
                    Repair {
                        runtime: r.runtime,
                        target: r.target,
                        db_path: r.db_path,
                        apply: r.apply,
                        phase: Phase::Checking { stage: next.stage },
                    },
                    command,
                ),
                Step::Failed(message) => r.after(reply, stamp) == Act::Failed(
                    Failure { context: None, cause: message },
                ),
                Step::Done(found) => !(r.after(reply, stamp) is Failed),
            }
        }),
{
}

/// A dry run, and a repair with nothing to rewrite, end with the check: they
/// report the whole plan for the sampled paths, not applied and without a backup.
pub proof fn law_plan_is_reported(
    r: Repair,
    mounts: Seq<Seq<char>>,
    roots: Seq<Seq<char>>,
    offending: Seq<Seq<char>>,
    out: Seq<char>,
    stamp: Seq<char>,
)
    requires
        r.phase == (Phase::Checking { stage: Stage::Streams { mounts, roots, offending } }),
        !r.apply || drift::planned(offending + guest::listed(out), roots).len() == 0,
    ensures
        r.after(Ok(out), stamp) == Act::Done(
            Outcome {
                applied: false,
                rewrites: drift::planned(offending + guest::listed(out), roots),
                backup: None,
            },
        ),
{
    law_repair_uses_the_plan(r, mounts, roots, offending, out, stamp);
}

/// What is said of a command that fails while a plan is applied: which step it
/// was, and of a rewrite from where to where it went; and how it failed.
pub proof fn law_failures_are_told(
    r: Repair,
    plan: Seq<Rewrite>,
    backup: Seq<char>,
    at: int,
    message: Seq<char>,
    stamp: Seq<char>,
)
    ensures
        ({
            let told = |context: Seq<char>|
                Act::Failed(Failure { context: Some(context), cause: message });
            &&& r.phase == (Phase::Stopping { plan }) ==> r.after(Err(message), stamp) == told(
                "stop plexmediaserver"@,
            )
            &&& r.phase == (Phase::BackingUp { plan, backup }) ==> r.after(Err(message), stamp)
                == told("back up library DB"@)
            &&& r.phase == (Phase::Applying { plan, backup, at }) ==> r.after(Err(message), stamp)
                == told("apply rewrite "@ + plan[at].from_root + " -> "@ + plan[at].to_root)
            &&& r.phase == (Phase::Starting { plan, backup }) ==> r.after(Err(message), stamp)
                == told("start plexmediaserver"@)
        }),
{
}

/// A backup stands next to the database: its name is that of the database, a
/// mark, and the time, each as it is.
pub proof fn law_backup_stands_beside(db: Seq<char>, stamp: Seq<char>)
    ensures
        db.is_prefix_of(backup_path(db, stamp)),
        backup_path(db, stamp).skip(db.len() as int) == ".orca-bak-"@ + stamp,
{
    let b = backup_path(db, stamp);
    assert(b.subrange(0, db.len() as int) == db);
    assert(b.skip(db.len() as int) == ".orca-bak-"@ + stamp);
}

/// What an outcome, an error and a step show of themselves is what they hold.
pub proof fn law_repair_views(
    o: PlexStorageRepairOutput,
    e: RepairError,
    r: StorageRepair,
    command: GuestCommand,
)
    ensures
        o@.applied == o.applied,
        o@.rewrites == drift::rewrite_views(o.rewrites@),
        match o.backup {
            Some(b) => o@.backup == Some(b@),
            None => o@.backup is None,
        },
        match e.context {
            Some(c) => e@.context == Some(c@),
            None => e@.context is None,
        },
        e@.cause == e.cause@,
        RepairStep::Run(r, command)@ == Act::Run(r@, command@),
        RepairStep::Done(o)@ == Act::Done(o@),
        RepairStep::Failed(e)@ == Act::Failed(e@),
{
}

/// Where there is no library location, a repair has nothing to rewrite and ends
/// without having run anything but the check.
pub proof fn law_no_location_no_repair(
    r: Repair,
    mounts: Seq<Seq<char>>,
    out: Seq<char>,
    stamp: Seq<char>,
)
    requires
        r.phase == (Phase::Checking { stage: Stage::Roots { mounts } }),
        guest::listed(out).len() == 0,
    ensures
        r.after(Ok(out), stamp) == Act::Done(
            Outcome { applied: false, rewrites: Seq::empty(), backup: None },
        ),
{
    let none = Seq::<Seq<char>>::empty();
    assert(guest::listed(out) == none);
    report::law_report_carries_the_plan(none, mounts, none);
    reveal_with_fuel(Seq::filter_map, 1);
    assert(drift::moves(none, none) == Seq::<drift::Move>::empty());
    assert(drift::tally(drift::moves(none, none)) == Seq::<Rewrite>::empty());
}

} // verus!
