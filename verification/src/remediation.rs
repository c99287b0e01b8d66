//! The remediation ladder for one server: nudge, judge, and restart only on a
//! confirmed stale verdict.

use vstd::prelude::*;

use crate::account;
use crate::account::{PresenceStatus, ServerPresence};
use crate::lifecycle::{PlexRestartArgs, Runtime};
use crate::text;

verus! {

/// What the ladder decided to do for the target server, given its freshness
/// after the nudge.
#[derive(Debug, Clone, Copy, PartialEq, Eq, Structural)]
pub enum HealPlan {
    /// Target is `Fresh` after the nudge: nothing more to do.
    NudgeSufficient,
    /// Target is `Stale`: escalate to a restart.
    Restart,
    /// plex.tv gave no time: cannot judge, so do not blindly restart.
    CannotJudge,
    /// No owned server matched the requested target.
    TargetNotFound,
}

/// The plan for a server with this status, or for none.
pub open spec fn plan_for(status: Option<PresenceStatus>) -> HealPlan {
    match status {
        Some(PresenceStatus::Fresh) => HealPlan::NudgeSufficient,
        Some(PresenceStatus::Stale) => HealPlan::Restart,
        Some(PresenceStatus::Unknown) => HealPlan::CannotJudge,
        None => HealPlan::TargetNotFound,
    }
}

/// The stable name of a plan.
pub open spec fn plan_label(plan: HealPlan) -> Seq<char> {
    match plan {
        HealPlan::NudgeSufficient => "nudge_sufficient"@,
        HealPlan::Restart => "restart"@,
        HealPlan::CannotJudge => "cannot_judge"@,
        HealPlan::TargetNotFound => "target_not_found"@,
    }
}

impl HealPlan {
    /// The plan for a server with this status, or for none.
    pub fn from_status(status: Option<PresenceStatus>) -> (r: HealPlan)
        ensures
            r == plan_for(status),
    {
        match status {
            Some(PresenceStatus::Fresh) => HealPlan::NudgeSufficient,
            Some(PresenceStatus::Stale) => HealPlan::Restart,
            Some(PresenceStatus::Unknown) => HealPlan::CannotJudge,
            None => HealPlan::TargetNotFound,
        }
    }

    /// The stable name of the plan.
    pub fn label(self) -> (r: &'static str)
        ensures
            r@ == plan_label(self),
    {
        match self {
            HealPlan::NudgeSufficient => "nudge_sufficient",
            HealPlan::Restart => "restart",
            HealPlan::CannotJudge => "cannot_judge",
            HealPlan::TargetNotFound => "target_not_found",
        }
    }
}

/// Which server to heal, and where it runs.
#[derive(Debug, Clone, PartialEq, Eq)]
pub struct PlexHealArgs {
    /// Registered endpoint whose token is used as the plex.tv account token.
    pub endpoint: String,
    /// The owned server to heal, by client identifier or name.
    pub target: String,
    /// Staleness threshold in seconds.
    pub threshold_secs: Option<i64>,
    /// Where the target runs.
    pub runtime: Runtime,
    /// LXC vmid (LXC runtime only).
    pub vmid: Option<u32>,
    /// Docker container name (Docker runtime only).
    pub container: String,
}

/// The default name of a Docker container.
pub fn default_container() -> (r: String)
    ensures
        r@ == "plex"@,
{
    "plex".to_owned()
}

/// What the ladder found and what it did.
#[derive(Debug, Clone, PartialEq, Eq)]
pub struct PlexHealReport {
    /// The target identifier that was requested.
    pub target: String,
    /// The matched server's presence after the nudge, if found.
    pub matched: Option<ServerPresence>,
    /// What the ladder decided: the name of a plan.
    pub plan: String,
    /// True when a restart was executed and succeeded.
    pub restarted: bool,
    /// Effective staleness threshold applied.
    pub threshold_secs: i64,
}

/// What a [`PlexHealReport`] says.
#[verifier::ext_equal]
pub struct Healing {
    pub target: Seq<char>,
    pub matched: Option<ServerPresence>,
    pub plan: Seq<char>,
    pub restarted: bool,
    pub threshold_secs: i64,
}

impl View for PlexHealReport {
    type V = Healing;

    open spec fn view(&self) -> Healing {
        Healing {
            target: self.target@,
            matched: self.matched,
            plan: self.plan@,
            restarted: self.restarted,
            threshold_secs: self.threshold_secs,
        }
    }
}

/// Whether `target` is the server's client identifier or its name.
pub open spec fn answers_to(server: ServerPresence, target: Seq<char>) -> bool {
    ||| server.client_identifier matches Some(id) && id@ == target
    ||| server.name matches Some(name) && name@ == target
}

/// Whether `k` is the place of the first server that answers to `target`.
pub open spec fn first_match(servers: Seq<ServerPresence>, target: Seq<char>, k: int) -> bool {
    &&& 0 <= k < servers.len()
    &&& answers_to(servers[k], target)
    &&& forall|j: int| 0 <= j < k ==> !answers_to(#[trigger] servers[j], target)
}

/// The first server that answers to `target`.
pub open spec fn matching(servers: Seq<ServerPresence>, target: Seq<char>) -> Option<
    ServerPresence,
>
    decreases servers.len(),
{
    if servers.len() == 0 {
        None
    } else if answers_to(servers[0], target) {
        Some(servers[0])
    } else {
        matching(servers.drop_first(), target)
    }
}

/// `matching` gives the first server that answers, and none only where none
/// does.
pub proof fn law_matching(servers: Seq<ServerPresence>, target: Seq<char>)
    ensures
        match matching(servers, target) {
            Some(server) => exists|k: int|
                #[trigger] first_match(servers, target, k) && servers[k] == server,
            None => forall|j: int|
                0 <= j < servers.len() ==> !answers_to(#[trigger] servers[j], target),
        },
    decreases servers.len(),
{
    if servers.len() > 0 {
        let rest = servers.drop_first();
        law_matching(rest, target);
        if answers_to(servers[0], target) {
            assert(first_match(servers, target, 0));
        } else {
            match matching(rest, target) {
                Some(server) => {
                    let k = choose|k: int|
                        #[trigger] first_match(rest, target, k) && rest[k] == server;
                    assert forall|j: int| 0 <= j < k + 1 implies !answers_to(
                        #[trigger] servers[j],
                        target,
                    ) by {
                        if j > 0 {
                            assert(rest[j - 1] == servers[j]);
                        }
                    }
                    assert(first_match(servers, target, k + 1));
                },
                None => {
                    assert forall|j: int| 0 <= j < servers.len() implies !answers_to(
                        #[trigger] servers[j],
                        target,
                    ) by {
                        if j > 0 {
                            assert(rest[j - 1] == servers[j]);
                        }
                    }
                },
            }
        }
    }
}

fn is_text(s: &Option<String>, x: &str) -> (r: bool)
    ensures
        r == (s matches Some(t) && t@ == x@),
{
    match s {
        Some(t) => text::same_text(t.as_str(), x),
        None => false,
    }
}

fn match_position(servers: &[ServerPresence], target: &str) -> (r: Option<usize>)
    ensures
        match r {
            Some(k) => {
                &&& first_match(servers@, target@, k as int)
                &&& matching(servers@, target@) == Some(servers@[k as int])
            },
            None => matching(servers@, target@) is None,
        },
{
    let n: usize = servers.len();
    let mut k: usize = 0;
    assert(servers@.skip(0) == servers@);
    while k < n
        invariant
            k <= n == servers@.len(),
            forall|j: int| 0 <= j < k ==> !answers_to(#[trigger] servers@[j], target@),
            matching(servers@, target@) == matching(servers@.skip(k as int), target@),
        decreases n - k,
    {
        assert(servers@.skip(k as int).drop_first() == servers@.skip(k + 1));
        if is_text(&servers[k].client_identifier, target) || is_text(&servers[k].name, target) {
            return Some(k);
        }
        k += 1;
    }
    None
}

/// Finds the owned server that answers to `target`, by client identifier or
/// name; the first one where several do.
pub fn match_target<'a>(servers: &'a [ServerPresence], target: &str) -> (r: Option<
    &'a ServerPresence,
>)
    ensures
        match r {
            Some(server) => matching(servers@, target@) == Some(*server),
            None => matching(servers@, target@) is None,
        },
{
    match match_position(servers, target) {
        Some(k) => Some(&servers[k]),
        None => None,
    }
}

/// The plan for the server that answers to `target`, or for none.
pub open spec fn plan_among(servers: Seq<ServerPresence>, target: Seq<char>) -> HealPlan {
    plan_for(
        match matching(servers, target) {
            Some(server) => Some(server.status),
            None => None,
        },
    )
}

/// What a healing run reports that found these servers after its nudge, and
/// whose restart succeeded where it made one.
pub open spec fn healed(
    target: Seq<char>,
    servers: Seq<ServerPresence>,
    threshold_secs: i64,
) -> Healing {
    Healing {
        target,
        matched: matching(servers, target),
        plan: plan_label(plan_among(servers, target)),
        restarted: plan_among(servers, target) == HealPlan::Restart,
        threshold_secs,
    }
}

/// A healing run that waits for the servers of the account.
#[derive(Debug, Clone, PartialEq, Eq)]
pub struct HealLadder {
    pub args: PlexHealArgs,
    /// Effective staleness threshold.
    pub threshold_secs: i64,
}

/// A healing run that waits for the restart of its target.
#[derive(Debug, Clone, PartialEq, Eq)]
pub struct PendingRestart {
    target: String,
    matched: ServerPresence,
    threshold_secs: i64,
}

/// What a healing run does once the servers are known.
#[derive(Debug, Clone, PartialEq, Eq)]
pub enum HealStep {
    /// Restart the service; the run goes on if that succeeds.
    Restart(PendingRestart, PlexRestartArgs),
    /// Nothing is left to do.
    Done(PlexHealReport),
}

impl HealLadder {
    /// Starts a healing run.
    pub fn begin(args: PlexHealArgs) -> (r: HealLadder)
        ensures
            r.args == args,
            r.threshold_secs == match args.threshold_secs {
                Some(t) => t,
                None => account::DEFAULT_THRESHOLD_SECS,
            },
    {
        let threshold_secs: i64 = args.threshold_secs.unwrap_or(account::DEFAULT_THRESHOLD_SECS);
        HealLadder { args, threshold_secs }
    }

    /// Takes the account's servers. The query for them was the nudge; a restart
    /// is called for only where the target is still stale.
    pub fn after_probe(self, servers: Vec<ServerPresence>) -> (r: HealStep)
        ensures
            match r {
                HealStep::Restart(pending, restart) => {
                    &&& plan_among(servers@, self.args.target@) == HealPlan::Restart
                    &&& restart == (PlexRestartArgs {
                        runtime: self.args.runtime,
                        vmid: self.args.vmid,
                        container: self.args.container,
                    })
                    &&& pending.report() == healed(
                        self.args.target@,
                        servers@,
                        self.threshold_secs,
                    )
                },
                HealStep::Done(report) => {
                    &&& plan_among(servers@, self.args.target@) != HealPlan::Restart
                    &&& report@ == healed(self.args.target@, servers@, self.threshold_secs)
                },
            },
    {
        let HealLadder { args, threshold_secs } = self;
        let PlexHealArgs { endpoint: _, target, threshold_secs: _, runtime, vmid, container } = args;
        let mut servers = servers;
        let matched = match match_position(servers.as_slice(), target.as_str()) {
            Some(k) => Some(servers.remove(k)),
            None => None,
        };
        let status = match &matched {
            Some(server) => Some(server.status),
            None => None,
        };
        let plan = HealPlan::from_status(status);
        match matched {
            Some(server) => {
                if plan == HealPlan::Restart {
                    HealStep::Restart(
                        PendingRestart { target, matched: server, threshold_secs },
                        PlexRestartArgs { runtime, vmid, container },
                    )
                } else {
                    HealStep::Done(
                        PlexHealReport {
                            target,
                            matched: Some(server),
                            plan: plan.label().to_owned(),
                            restarted: false,
                            threshold_secs,
                        },
                    )
                }
            },
            None => HealStep::Done(
                PlexHealReport {
                    target,
                    matched: None,
                    plan: plan.label().to_owned(),
                    restarted: false,
                    threshold_secs,
                },
            ),
        }
    }
}

impl PendingRestart {
    /// What is to be reported once the restart has succeeded.
    pub closed spec fn report(&self) -> Healing {
        Healing {
            target: self.target@,
            matched: Some(self.matched),
            plan: plan_label(HealPlan::Restart),
            restarted: true,
            threshold_secs: self.threshold_secs,
        }
    }

    /// Takes the news that the restart succeeded.
    pub fn after_restart(self) -> (r: PlexHealReport)
        ensures
            r@ == self.report(),
    {
        PlexHealReport {
            target: self.target,
            matched: Some(self.matched),
            plan: HealPlan::Restart.label().to_owned(),
            restarted: true,
            threshold_secs: self.threshold_secs,
        }
    }
}

/// A healing run restarts exactly where the first server that answers to its
/// target is stale, and its report says so.
pub proof fn law_report_is_true_to_plan(
    target: Seq<char>,
    servers: Seq<ServerPresence>,
    threshold_secs: i64,
)
    ensures
        ({
            let report = healed(target, servers, threshold_secs);
            &&& report.restarted <==> (report.matched matches Some(server) && server.status
                == PresenceStatus::Stale)
            &&& report.restarted <==> report.plan == plan_label(HealPlan::Restart)
            &&& report.matched is None <==> forall|j: int|
                0 <= j < servers.len() ==> !answers_to(#[trigger] servers[j], target)
        }),
{
    law_matching(servers, target);
    law_plans_are_told_apart(
        match matching(servers, target) {
            Some(server) => Some(server.status),
            None => None,
        },
        Some(PresenceStatus::Stale),
    );
}

/// Where a server with the target as its identifier or its name follows others
/// that have neither, the run is about that server: it is the one reported,
/// whatever follows it, with the target and the threshold that were asked for,
/// and it is restarted exactly where it is stale.
pub proof fn law_target_is_healed(
    before: Seq<ServerPresence>,
    server: ServerPresence,
    after: Seq<ServerPresence>,
    target: Seq<char>,
    threshold_secs: i64,
)
    requires
        forall|j: int|
            0 <= j < before.len() ==> {
                &&& (#[trigger] before[j]).client_identifier matches Some(id) ==> id@ != target
                &&& before[j].name matches Some(name) ==> name@ != target
            },
        (server.client_identifier matches Some(id) && id@ == target) || (
        server.name matches Some(name) && name@ == target),
    ensures
        ({
            let report = healed(target, before.push(server) + after, threshold_secs);
            &&& report.target == target
            &&& report.threshold_secs == threshold_secs
            &&& report.matched == Some(server)
            &&& match server.status {
                PresenceStatus::Fresh => report.plan == "nudge_sufficient"@ && !report.restarted,
                PresenceStatus::Stale => report.plan == "restart"@ && report.restarted,
                PresenceStatus::Unknown => report.plan == "cannot_judge"@ && !report.restarted,
            }
        }),
    decreases before.len(),
{
    let all = before.push(server) + after;
    if before.len() > 0 {
        let rest = before.drop_first();
        assert forall|j: int| 0 <= j < rest.len() implies {
            &&& (#[trigger] rest[j]).client_identifier matches Some(id) ==> id@ != target
            &&& rest[j].name matches Some(name) ==> name@ != target
        } by {
            assert(rest[j] == before[j + 1]);
        }
        law_target_is_healed(rest, server, after, target, threshold_secs);
        assert(all[0] == before[0]);
        assert(all.drop_first() == rest.push(server) + after);
    } else {
        assert(all[0] == server);
    }
}

/// Where no server has the target as its identifier or its name, the run finds
/// none, says so, and restarts nothing.
pub proof fn law_target_is_missing(
    servers: Seq<ServerPresence>,
    target: Seq<char>,
    threshold_secs: i64,
)
    requires
        forall|j: int|
            0 <= j < servers.len() ==> {
                &&& (#[trigger] servers[j]).client_identifier matches Some(id) ==> id@ != target
                &&& servers[j].name matches Some(name) ==> name@ != target
            },
    ensures
        ({
            let report = healed(target, servers, threshold_secs);
            &&& report.target == target
            &&& report.threshold_secs == threshold_secs
            &&& report.matched is None
            &&& report.plan == "target_not_found"@
            &&& !report.restarted
        }),
{
    law_matching(servers, target);
    if let Some(server) = matching(servers, target) {
        let k = choose|k: int| #[trigger] first_match(servers, target, k) && servers[k] == server;
        assert(answers_to(servers[k], target));
    }
}

/// What a report shows of itself is what its fields hold.
pub proof fn law_heal_report_view(r: PlexHealReport)
    ensures
        r@.target == r.target@,
        r@.matched == r.matched,
        r@.plan == r.plan@,
        r@.restarted == r.restarted,
        r@.threshold_secs == r.threshold_secs,
{
}

/// A restart is planned exactly for a stale server: not for a fresh one, not
/// for one that cannot be judged, and not where no server was found.
pub proof fn law_restart_only_when_stale(status: Option<PresenceStatus>)
    ensures
        plan_for(status) == HealPlan::Restart <==> status == Some(PresenceStatus::Stale),
{
}

/// Each status has a plan of its own, and each plan a name of its own.
pub proof fn law_plans_are_told_apart(a: Option<PresenceStatus>, b: Option<PresenceStatus>)
    ensures
        plan_label(plan_for(a)) == plan_label(plan_for(b)) <==> a == b,
{
    reveal_strlit("nudge_sufficient");
    reveal_strlit("restart");
    reveal_strlit("cannot_judge");
    reveal_strlit("target_not_found");
    assert("nudge_sufficient"@.len() == 16);
    assert("restart"@.len() == 7);
    assert("cannot_judge"@.len() == 12);
    assert("target_not_found"@.len() == 16);
    assert("nudge_sufficient"@[0] != "target_not_found"@[0]);
}

} // verus!
