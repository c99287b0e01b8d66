use plex::account::{PresenceStatus, ServerPresence, DEFAULT_THRESHOLD_SECS};
use plex::lifecycle::{PlexRestartArgs, Runtime};
use plex::remediation::{
    default_container, match_target, HealLadder, HealPlan, HealStep, PlexHealArgs, PlexHealReport,
};

fn presence(id: &str, status: PresenceStatus) -> ServerPresence {
    ServerPresence {
        name: Some(id.to_string()),
        client_identifier: Some(format!("cid-{id}")),
        product: Some("Plex Media Server".to_string()),
        owned: true,
        presence: true,
        last_seen_at: Some(1),
        last_seen_age_secs: Some(0),
        status,
    }
}

#[test]
fn plan_maps_status_to_action() {
    assert_eq!(
        HealPlan::from_status(Some(PresenceStatus::Fresh)),
        HealPlan::NudgeSufficient
    );
    assert_eq!(
        HealPlan::from_status(Some(PresenceStatus::Stale)),
        HealPlan::Restart
    );
    assert_eq!(
        HealPlan::from_status(Some(PresenceStatus::Unknown)),
        HealPlan::CannotJudge
    );
    assert_eq!(HealPlan::from_status(None), HealPlan::TargetNotFound);
}

#[test]
fn match_target_by_name_or_client_identifier() {
    let servers = vec![
        presence("mimir", PresenceStatus::Stale),
        presence("njord", PresenceStatus::Fresh),
    ];
    assert!(match_target(&servers, "mimir").is_some());
    assert!(match_target(&servers, "cid-njord").is_some());
    assert!(match_target(&servers, "loki").is_none());
}

#[test]
fn stale_target_plans_restart() {
    let servers = vec![presence("mimir", PresenceStatus::Stale)];
    let m = match_target(&servers, "mimir");
    assert_eq!(
        HealPlan::from_status(m.map(|s| s.status)),
        HealPlan::Restart
    );
}

#[test]
fn the_first_match_counts() {
    let mut second = presence("njord", PresenceStatus::Stale);
    second.name = Some("mimir".to_string());
    let servers = vec![presence("mimir", PresenceStatus::Fresh), second.clone()];
    assert_eq!(match_target(&servers, "mimir"), Some(&servers[0]));
    assert_eq!(match_target(&servers, "cid-njord"), Some(&second));
    second.name = None;
    second.client_identifier = None;
    assert_eq!(match_target(&[second], ""), None);
}

#[test]
fn labels_are_stable() {
    assert_eq!(HealPlan::NudgeSufficient.label(), "nudge_sufficient");
    assert_eq!(HealPlan::Restart.label(), "restart");
    assert_eq!(HealPlan::CannotJudge.label(), "cannot_judge");
    assert_eq!(HealPlan::TargetNotFound.label(), "target_not_found");
}

fn args(threshold_secs: Option<i64>) -> PlexHealArgs {
    PlexHealArgs {
        endpoint: "media".to_string(),
        target: "mimir".to_string(),
        threshold_secs,
        runtime: Runtime::default(),
        vmid: Some(105),
        container: default_container(),
    }
}

fn settled(step: HealStep) -> PlexHealReport {
    match step {
        HealStep::Done(report) => report,
        HealStep::Restart(_, restart) => panic!("restarts: {restart:?}"),
    }
}

#[test]
fn a_stale_server_is_restarted() {
    let ladder = HealLadder::begin(args(None));
    assert_eq!(ladder.threshold_secs, DEFAULT_THRESHOLD_SECS);
    assert_eq!(ladder.threshold_secs, 600);
    let servers = vec![
        presence("njord", PresenceStatus::Fresh),
        presence("mimir", PresenceStatus::Stale),
    ];
    match ladder.after_probe(servers) {
        HealStep::Restart(pending, restart) => {
            assert_eq!(
                restart,
                PlexRestartArgs {
                    runtime: Runtime::Lxc,
                    vmid: Some(105),
                    container: "plex".to_string(),
                }
            );
            assert_eq!(
                pending.after_restart(),
                PlexHealReport {
                    target: "mimir".to_string(),
                    matched: Some(presence("mimir", PresenceStatus::Stale)),
                    plan: "restart".to_string(),
                    restarted: true,
                    threshold_secs: 600,
                }
            );
        }
        HealStep::Done(report) => panic!("no restart: {report:?}"),
    }
}

#[test]
fn nothing_else_is_restarted() {
    let run = |status| {
        settled(HealLadder::begin(args(Some(60))).after_probe(vec![presence("mimir", status)]))
    };
    let fresh = run(PresenceStatus::Fresh);
    assert_eq!(fresh.plan, "nudge_sufficient");
    assert!(!fresh.restarted);
    assert_eq!(fresh.threshold_secs, 60);
    assert_eq!(fresh.matched, Some(presence("mimir", PresenceStatus::Fresh)));
    let unknown = run(PresenceStatus::Unknown);
    assert_eq!(unknown.plan, "cannot_judge");
    assert!(!unknown.restarted);
    let missing = settled(
        HealLadder::begin(args(None)).after_probe(vec![presence("njord", PresenceStatus::Stale)]),
    );
    assert_eq!(missing.plan, "target_not_found");
    assert_eq!(missing.matched, None);
    assert_eq!(missing.target, "mimir");
    assert!(!missing.restarted);
}
