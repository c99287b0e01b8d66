use plex::account::client::{
    epoch_from_value, needs_rfc3339, JsonNumber, JsonValue, PlexTvClient, RawResource,
};
use plex::account::{ages_fit, probe, PresenceStatus, DEFAULT_THRESHOLD_SECS};
use serde_json::Value;

fn value(v: &Value) -> JsonValue {
    match v {
        Value::Number(n) => JsonValue::Number(JsonNumber {
            integer: n.as_i64(),
            truncated: n.as_f64().map(|f| f as i64),
        }),
        Value::String(s) => JsonValue::String(s.clone()),
        _ => JsonValue::Other,
    }
}

#[test]
fn epoch_accepts_int_string_and_iso() {
    assert_eq!(
        epoch_from_value(value(&Value::from(1_700_000_000)), None),
        Some(1_700_000_000)
    );
    assert_eq!(
        epoch_from_value(value(&Value::from("1700000000")), None),
        Some(1_700_000_000)
    );
    // 2023-11-14T22:13:20Z == 1_700_000_000
    assert_eq!(
        epoch_from_value(
            value(&Value::from("2023-11-14T22:13:20Z")),
            Some(1_700_000_000)
        ),
        Some(1_700_000_000)
    );
    assert_eq!(epoch_from_value(value(&Value::Null), None), None);
}

#[test]
fn epoch_cuts_floats_down_and_ignores_the_rest() {
    assert_eq!(epoch_from_value(value(&Value::from(1.9)), None), Some(1));
    assert_eq!(
        epoch_from_value(value(&Value::from(u64::MAX)), None),
        Some(i64::MAX)
    );
    assert_eq!(epoch_from_value(value(&Value::from(true)), Some(3)), None);
    assert_eq!(epoch_from_value(value(&Value::from("soon")), None), None);
    assert_eq!(
        epoch_from_value(value(&Value::from("-42")), Some(7)),
        Some(-42)
    );
}

#[test]
fn only_other_strings_are_read_as_times() {
    assert!(needs_rfc3339(&value(&Value::from("2023-11-14T22:13:20Z"))));
    assert!(!needs_rfc3339(&value(&Value::from("1700000000"))));
    assert!(!needs_rfc3339(&value(&Value::from(1))));
    assert!(!needs_rfc3339(&value(&Value::Null)));
}

#[test]
fn classifies_fresh_stale_unknown() {
    assert_eq!(
        PresenceStatus::for_age(Some(300), 600),
        PresenceStatus::Fresh
    );
    assert_eq!(
        PresenceStatus::for_age(Some(72_000), 600),
        PresenceStatus::Stale
    );
    assert_eq!(PresenceStatus::for_age(None, 600), PresenceStatus::Unknown);
    // Boundary: exactly at threshold is still Fresh.
    assert_eq!(
        PresenceStatus::for_age(Some(600), 600),
        PresenceStatus::Fresh
    );
}

#[test]
fn a_laxer_threshold_keeps_fresh_servers_fresh() {
    assert_eq!(PresenceStatus::for_age(Some(-5), 0), PresenceStatus::Fresh);
    assert_eq!(PresenceStatus::for_age(Some(601), 600), PresenceStatus::Stale);
    assert_eq!(PresenceStatus::for_age(Some(601), 900), PresenceStatus::Fresh);
}

fn row(name: &str, owned: bool, last_seen_at: Option<i64>) -> RawResource {
    RawResource {
        name: Some(name.to_string()),
        client_identifier: Some(format!("id-{name}")),
        product: Some("Plex Media Server".to_string()),
        owned,
        presence: !owned,
        last_seen_at,
    }
}

#[test]
fn probe_judges_owned_servers_in_order() {
    let now: i64 = 1_700_000_000;
    let raws = vec![
        row("mimir", true, Some(now - 72_000)),
        row("guest", false, Some(i64::MIN)),
        row("njord", true, Some(now - 600)),
        row("loki", true, None),
    ];
    assert!(ages_fit(&raws, now));
    let servers = probe(raws, now, DEFAULT_THRESHOLD_SECS);
    let names: Vec<_> = servers.iter().map(|s| s.name.clone().unwrap()).collect();
    assert_eq!(names, vec!["mimir", "njord", "loki"]);
    let ages: Vec<_> = servers.iter().map(|s| s.last_seen_age_secs).collect();
    assert_eq!(ages, vec![Some(72_000), Some(600), None]);
    let verdicts: Vec<_> = servers.iter().map(|s| s.status).collect();
    assert_eq!(
        verdicts,
        vec![
            PresenceStatus::Stale,
            PresenceStatus::Fresh,
            PresenceStatus::Unknown
        ]
    );
    assert_eq!(servers[0].client_identifier.as_deref(), Some("id-mimir"));
    assert_eq!(servers[0].product.as_deref(), Some("Plex Media Server"));
    assert_eq!(servers[0].last_seen_at, Some(now - 72_000));
    assert!(servers[0].owned);
    assert!(!servers[0].presence);
}

#[test]
fn ages_that_do_not_fit_are_noticed() {
    assert!(!ages_fit(&[row("mimir", true, Some(i64::MIN))], 1));
    assert!(ages_fit(&[row("mimir", true, Some(i64::MAX))], 1));
    assert!(ages_fit(&[], 1));
}

#[test]
fn the_request_is_authed() {
    let request = PlexTvClient::with_base("acct-tok".to_string(), "http://localhost:1//".to_string())
        .resources();
    assert_eq!(request.method, "GET");
    assert_eq!(
        request.url,
        "http://localhost:1/api/v2/resources?includeHttps=1"
    );
    let headers: Vec<(&str, &str)> = request
        .headers
        .iter()
        .map(|(k, v)| (k.as_str(), v.as_str()))
        .collect();
    assert_eq!(
        headers,
        vec![
            ("x-plex-token", "acct-tok"),
            ("x-plex-client-identifier", "orca-plex-plugin"),
            ("accept", "application/json"),
        ]
    );
    assert_eq!(
        PlexTvClient::new("t".to_string()).url("/x"),
        "https://plex.tv/x"
    );
}
