use plex::lifecycle::Runtime;
use plex::storage::guest::failure_message;
use plex::storage::{
    capture, classify, default_db, infer_rewrite, is_under, lines, not_under_clause, plan_rewrites,
    repair_sql, segments, sql_escape, CheckStep, DriftRewrite, GuestCommand, GuestOutput,
    PlexStorageCheckArgs, PlexStorageRepairArgs, PlexStorageRepairOutput, RepairError, RepairStep,
    Severity, StorageCheck, StorageRepair, StorageReport,
};

fn s(v: &[&str]) -> Vec<String> {
    v.iter().map(|x| (*x).to_string()).collect()
}

fn rewrite(from: &str, to: &str, occurrences: u64) -> DriftRewrite {
    DriftRewrite {
        from_root: from.to_string(),
        to_root: to.to_string(),
        occurrences,
    }
}

#[test]
fn is_under_is_segment_aligned() {
    assert!(is_under("/mnt/data/media/movies", "/mnt/data"));
    assert!(is_under("/mnt/data", "/mnt/data"));
    assert!(!is_under("/mnt/database/x", "/mnt/data"));
    assert!(!is_under("/data/movies", "/mnt/data"));
}

#[test]
fn infers_legacy_data_root() {
    let auth = s(&["/mnt/data/media/movies", "/mnt/data/media/tv"]);
    let got = infer_rewrite("/data/movies/Film/f.mkv", &auth);
    assert_eq!(got, Some(("/data".into(), "/mnt/data/media".into())));
}

#[test]
fn infers_from_subtitle_url_with_scheme() {
    let auth = s(&["/mnt/data/media/tv"]);
    let got = infer_rewrite("file:///data/tv/Show/S01/e.en.srt", &auth);
    assert_eq!(got, Some(("/data".into(), "/mnt/data/media".into())));
}

#[test]
fn infers_doubled_media_root() {
    let auth = s(&["/mnt/data/media/movies"]);
    let got = infer_rewrite("/mnt/media/media/movies/F/f.mkv", &auth);
    assert_eq!(
        got,
        Some(("/mnt/media/media".into(), "/mnt/data/media".into()))
    );
}

#[test]
fn no_rewrite_when_already_authoritative() {
    let auth = s(&["/mnt/data/media/movies"]);
    assert_eq!(infer_rewrite("/mnt/data/media/movies/F/f.mkv", &auth), None);
}

#[test]
fn no_rewrite_when_offending_starts_at_library_folder() {
    let auth = s(&["/mnt/data/media/movies"]);
    assert_eq!(infer_rewrite("/movies/Film/f.mkv", &auth), None);
}

#[test]
fn no_rewrite_when_no_library_folder_matches() {
    let auth = s(&["/mnt/data/media/movies", "/mnt/data/media/tv"]);
    assert_eq!(infer_rewrite("/somewhere/else/x.mkv", &auth), None);
}

#[test]
fn plan_dedupes_and_counts() {
    let auth = s(&["/mnt/data/media/movies", "/mnt/data/media/tv"]);
    let offending = s(&[
        "/data/movies/A/a.mkv",
        "/data/tv/B/b.mkv",
        "file:///data/tv/B/b.en.srt",
    ]);
    let plan = plan_rewrites(&offending, &auth);
    assert_eq!(plan.len(), 1, "all map to one /data -> /mnt/data/media");
    assert_eq!(plan[0].from_root, "/data");
    assert_eq!(plan[0].to_root, "/mnt/data/media");
    assert_eq!(plan[0].occurrences, 3);
}

#[test]
fn classify_flags_drift_and_missing_mount() {
    let roots = s(&["/mnt/data/media/movies"]);
    let mounts = s(&["/mnt/data"]);
    let offending = s(&["/data/movies/A/a.mkv"]);
    let report = classify(roots, mounts, &offending);
    assert!(!report.healthy);
    assert_eq!(report.issues.len(), 1);
    assert_eq!(report.issues[0].kind, "path_drift");
    assert_eq!(
        report.issues[0].rewrite.as_ref().unwrap().from_root,
        "/data"
    );
}

#[test]
fn classify_flags_missing_mount_when_root_unbacked() {
    let report = classify(s(&["/mnt/data/media/movies"]), s(&["/mnt/backups"]), &[]);
    assert!(!report.healthy);
    assert_eq!(report.issues.len(), 1);
    assert_eq!(report.issues[0].kind, "mount_missing");
}

#[test]
fn classify_healthy_when_aligned() {
    let report = classify(s(&["/mnt/data/media/movies"]), s(&["/mnt/data"]), &[]);
    assert!(report.healthy);
    assert!(report.issues.is_empty());
}

#[test]
fn repair_sql_anchors_and_covers_three_columns() {
    let rw = DriftRewrite {
        from_root: "/data".into(),
        to_root: "/mnt/data/media".into(),
        occurrences: 1,
    };
    let sql = repair_sql(&rw);
    assert!(
        sql.contains("UPDATE media_parts SET file=replace(file,'/data/','/mnt/data/media/')")
    );
    assert!(sql.contains("url=replace(url,'file:///data/','file:///mnt/data/media/')"));
    assert!(sql.contains("UPDATE section_locations"));
    assert!(sql.contains("WHERE file LIKE '/data/%'"));
}

#[test]
fn lines_trims_and_dedupes() {
    assert_eq!(lines("  /a \n\n/a\n/b\n"), s(&["/a", "/b"]));
}

#[test]
fn repair_sql_is_exact() {
    assert_eq!(
        repair_sql(&rewrite("/it's", "/mnt/x", 1)),
        "UPDATE media_parts SET file=replace(file,'/it''s/','/mnt/x/') WHERE file LIKE '/it''s/%';\n\
         UPDATE media_streams SET url=replace(url,'file:///it''s/','file:///mnt/x/') WHERE url LIKE 'file:///it''s/%';\n\
         UPDATE section_locations SET root_path=replace(root_path,'/it''s/','/mnt/x/') WHERE root_path LIKE '/it''s/%';"
    );
}

#[test]
fn segments_drop_the_scheme_and_empty_pieces() {
    assert_eq!(segments("file:///a//b/"), vec!["a", "b"]);
    assert_eq!(segments("file://file:///a"), vec!["a"]);
    assert_eq!(segments("/files://x"), vec!["files:", "x"]);
    assert_eq!(segments("file:/"), vec!["file:"]);
    assert!(segments("/").is_empty());
    assert!(segments("").is_empty());
    assert_eq!(segments("/caf\u{e9}/\u{65e5}\u{672c}"), vec!["caf\u{e9}", "\u{65e5}\u{672c}"]);
}

#[test]
fn everything_is_under_the_root_directory() {
    assert!(is_under("/mnt/data", "/"));
    assert!(!is_under("/", "/mnt"));
    assert!(is_under("file:///mnt/data/x", "/mnt/data/"));
}

#[test]
fn the_shallowest_split_wins() {
    let auth = s(&["/live/tv", "/other/movies"]);
    assert_eq!(
        infer_rewrite("/old/movies/tv/x.mkv", &auth),
        Some(("/old".into(), "/other".into()))
    );
    let tie = s(&["/one/tv", "/two/tv"]);
    assert_eq!(
        infer_rewrite("/old/tv/x.mkv", &tie),
        Some(("/old".into(), "/one".into()))
    );
}

#[test]
fn locations_without_a_parent_do_not_align() {
    assert_eq!(infer_rewrite("/data/movies/x", &s(&["/movies"])), None);
    assert_eq!(infer_rewrite("/data/movies/x", &s(&["/"])), None);
    assert_eq!(infer_rewrite("", &s(&["/mnt/movies"])), None);
}

#[test]
fn a_repeated_folder_name_calls_for_a_rewrite_all_the_same() {
    assert_eq!(
        infer_rewrite("/a/movies/b/movies/f.mkv", &s(&["/a/movies/b/movies"])),
        Some(("/a".into(), "/a/movies/b".into()))
    );
}

#[test]
fn plan_puts_longer_roots_first_and_keeps_ties_in_order() {
    let auth = s(&["/n/movies", "/m/tv"]);
    let offending = s(&[
        "/b/movies/1",
        "/a/tv/1",
        "/long/root/tv/1",
        "/a/movies/1",
        "/b/movies/2",
        "/nothing/here",
    ]);
    assert_eq!(
        plan_rewrites(&offending, &auth),
        vec![
            rewrite("/long/root", "/m", 1),
            rewrite("/a", "/m", 1),
            rewrite("/a", "/n", 1),
            rewrite("/b", "/n", 2),
        ]
    );
}

#[test]
fn plan_orders_by_bytes_not_by_characters() {
    let auth = s(&["/n/movies"]);
    let offending = s(&["/zz/movies/1", "/\u{e9}\u{e9}/movies/1"]);
    assert_eq!(
        plan_rewrites(&offending, &auth),
        vec![
            rewrite("/\u{e9}\u{e9}", "/n", 1),
            rewrite("/zz", "/n", 1),
        ]
    );
}

#[test]
fn classify_explains_each_issue() {
    let report = classify(
        s(&["/mnt/data/movies", "/srv/tv"]),
        s(&["/srv", "/home"]),
        &s(&["/old/tv/a", "/old/tv/b"]),
    );
    assert_eq!(report.library_roots, s(&["/mnt/data/movies", "/srv/tv"]));
    assert_eq!(report.mount_targets, s(&["/srv", "/home"]));
    assert_eq!(report.issues.len(), 2);
    assert_eq!(
        report.issues[0].detail,
        "library root '/mnt/data/movies' is not backed by any live mount (/srv, /home)"
    );
    assert_eq!(report.issues[0].severity, Severity::Critical);
    assert_eq!(report.issues[0].rewrite, None);
    assert_eq!(
        report.issues[1].detail,
        "stored paths under '/old' should be '/srv' (2+ sampled)"
    );
    assert_eq!(report.issues[1].rewrite, Some(rewrite("/old", "/srv", 2)));
}

#[test]
fn classify_says_when_no_mount_was_seen() {
    let report = classify(s(&["/m"]), Vec::new(), &[]);
    assert_eq!(
        report.issues[0].detail,
        "library root '/m' is not backed by any live mount (no mounts observed)"
    );
}

#[test]
fn counts_of_several_digits_are_written_out() {
    let auth = s(&["/n/movies"]);
    let offending: Vec<String> = (0..120).map(|i| format!("/old/movies/{i}")).collect();
    let report = classify(s(&["/n/movies"]), s(&["/"]), &offending);
    assert_eq!(plan_rewrites(&offending, &auth)[0].occurrences, 120);
    assert_eq!(
        report.issues[0].detail,
        "stored paths under '/old' should be '/n' (120+ sampled)"
    );
}

#[test]
fn escape_doubles_quotes() {
    assert_eq!(sql_escape("a'b''c"), "a''b''''c");
    assert_eq!(sql_escape("'"), "''");
    assert_eq!(sql_escape(""), "");
}

#[test]
fn not_under_clause_guards_every_root() {
    assert_eq!(
        not_under_clause("url", &s(&["/a", "/it's"]), "file://"),
        "url NOT LIKE 'file:///a/%' AND url NOT LIKE 'file:///it''s/%'"
    );
    assert_eq!(not_under_clause("file", &[], ""), "");
}

#[test]
fn lines_survive_being_listed_again() {
    let first = lines("\tb\r\na \n\u{a0}\nb\n c d \n");
    assert_eq!(first, s(&["b", "a", "c d"]));
    assert_eq!(lines(&first.join("\n")), first);
    assert!(lines("").is_empty());
    assert!(lines(" \n\t\n").is_empty());
}

#[test]
fn capture_keeps_output_or_reports_the_error() {
    let ok = GuestOutput {
        success: true,
        status: "exit status: 0".into(),
        stdout: "out\n".into(),
        stderr: "noise".into(),
    };
    assert_eq!(capture(ok), Ok("out\n".to_string()));
    let bad = GuestOutput {
        success: false,
        status: "exit status: 2".into(),
        stdout: "out\n".into(),
        stderr: "\n no such table \n".into(),
    };
    assert_eq!(
        capture(bad),
        Err("guest command failed (exit status: 2): no such table".to_string())
    );
    assert_eq!(
        failure_message("signal: 9 (SIGKILL)", " \n"),
        "guest command failed (signal: 9 (SIGKILL)): "
    );
}

#[test]
fn capture_decodes_and_replaces_what_is_not_utf8() {
    let output = |success: bool, stdout: &[u8], stderr: &[u8]| GuestOutput {
        success,
        status: "exit status: 1".into(),
        stdout: stdout.to_vec(),
        stderr: stderr.to_vec(),
    };
    assert_eq!(
        capture(output(true, "/média/ü\n".as_bytes(), b"")),
        Ok("/média/ü\n".to_string())
    );
    assert_eq!(capture(output(true, b"/a\xff/b", b"")), Ok("/a\u{fffd}/b".to_string()));
    assert_eq!(
        capture(output(false, b"", b" bad \xc3 ")),
        Err("guest command failed (exit status: 1): bad \u{fffd}".to_string())
    );
}

const DB: &str = "/db path/library.db";
const SQLITE: &str = "/usr/lib/plexmediaserver/Plex SQLite";

fn command(program: &str, args: &[&str]) -> GuestCommand {
    GuestCommand {
        program: program.to_string(),
        args: s(args),
    }
}

fn sql(statement: &str) -> GuestCommand {
    command("pct", &["exec", "105", "--", SQLITE, DB, statement])
}

fn check_args() -> PlexStorageCheckArgs {
    PlexStorageCheckArgs {
        runtime: Runtime::Lxc,
        target: "105".to_string(),
        db_path: DB.to_string(),
    }
}

fn run(step: CheckStep) -> (StorageCheck, GuestCommand) {
    match step {
        CheckStep::Run(check, command) => (check, command),
        other => panic!("no command left: {other:?}"),
    }
}

fn done(step: CheckStep) -> StorageReport {
    match step {
        CheckStep::Done(report) => report,
        other => panic!("not done: {other:?}"),
    }
}

#[test]
fn check_walks_through_its_commands() {
    let (check, first) = StorageCheck::begin(check_args());
    assert_eq!(
        first,
        command("pct", &["exec", "105", "--", "findmnt", "-rno", "TARGET"])
    );
    let (check, roots) = run(check.next(Ok("/mnt/data\n/proc\n".to_string())));
    assert_eq!(
        roots,
        sql("SELECT root_path FROM section_locations WHERE root_path LIKE '/%';")
    );
    let (check, parts) = run(check.next(Ok("/mnt/data/movies\n".to_string())));
    assert_eq!(
        parts,
        sql("SELECT DISTINCT file FROM media_parts WHERE file LIKE '/%' AND file NOT LIKE '/mnt/data/movies/%' LIMIT 100;")
    );
    let (check, streams) = run(check.next(Ok("/old/movies/a.mkv\n".to_string())));
    assert_eq!(
        streams,
        sql("SELECT DISTINCT url FROM media_streams WHERE url LIKE 'file:///%' AND url NOT LIKE 'file:///mnt/data/movies/%' LIMIT 100;")
    );
    let report = done(check.next(Ok("file:///old/movies/a.srt\n".to_string())));
    assert_eq!(report.library_roots, s(&["/mnt/data/movies"]));
    assert_eq!(report.mount_targets, s(&["/mnt/data", "/proc"]));
    assert_eq!(report.issues.len(), 1);
    assert_eq!(
        report.issues[0].rewrite,
        Some(rewrite("/old", "/mnt/data", 2))
    );
}

#[test]
fn check_goes_on_without_a_mount_listing() {
    let (check, _) = StorageCheck::begin(check_args());
    let (check, _) = run(check.next(Err("no findmnt".to_string())));
    let (check, _) = run(check.next(Ok("/a/b\n".to_string())));
    let (check, _) = run(check.next(Ok(String::new())));
    let report = done(check.next(Ok(String::new())));
    assert!(report.mount_targets.is_empty());
    assert_eq!(report.issues[0].kind, "mount_missing");
}

#[test]
fn check_without_locations_samples_nothing() {
    let (check, _) = StorageCheck::begin(check_args());
    let (check, _) = run(check.next(Ok("/\n".to_string())));
    let report = done(check.next(Ok("\n".to_string())));
    assert!(report.healthy);
    assert!(report.library_roots.is_empty());
}

#[test]
fn check_ends_on_a_failing_query() {
    let start = || {
        let (check, _) = StorageCheck::begin(check_args());
        run(check.next(Ok(String::new()))).0
    };
    assert_eq!(
        start().next(Err("locked".to_string())),
        CheckStep::Failed("locked".to_string())
    );
    let (parts, _) = run(start().next(Ok("/a/b".to_string())));
    assert_eq!(
        parts.clone().next(Err("parts".to_string())),
        CheckStep::Failed("parts".to_string())
    );
    let (streams, _) = run(parts.next(Ok(String::new())));
    assert_eq!(
        streams.next(Err("streams".to_string())),
        CheckStep::Failed("streams".to_string())
    );
}

#[test]
fn docker_guests_are_reached_through_docker() {
    let (_, first) = StorageCheck::begin(PlexStorageCheckArgs {
        runtime: Runtime::Docker,
        target: "plex".to_string(),
        db_path: default_db(),
    });
    assert_eq!(
        first,
        command("docker", &["exec", "plex", "findmnt", "-rno", "TARGET"])
    );
    assert_eq!(
        default_db(),
        "/var/lib/plexmediaserver/Library/Application Support/Plex Media Server/Plug-in Support/Databases/com.plexapp.plugins.library.db"
    );
}

fn repair_args(apply: bool) -> PlexStorageRepairArgs {
    PlexStorageRepairArgs {
        runtime: Runtime::Lxc,
        target: "105".to_string(),
        db_path: DB.to_string(),
        apply,
    }
}

fn proceed(step: RepairStep) -> (StorageRepair, GuestCommand) {
    match step {
        RepairStep::Run(repair, command) => (repair, command),
        RepairStep::Done(output) => panic!("already done: {output:?}"),
        RepairStep::Failed(error) => panic!("failed: {error:?}"),
    }
}

fn finished(step: RepairStep) -> PlexStorageRepairOutput {
    match step {
        RepairStep::Done(output) => output,
        RepairStep::Run(_, command) => panic!("still running: {command:?}"),
        RepairStep::Failed(error) => panic!("failed: {error:?}"),
    }
}

fn failure(step: RepairStep) -> RepairError {
    match step {
        RepairStep::Failed(error) => error,
        RepairStep::Run(_, command) => panic!("still running: {command:?}"),
        RepairStep::Done(output) => panic!("already done: {output:?}"),
    }
}

fn checked(apply: bool) -> RepairStep {
    let (repair, _) = StorageRepair::begin(repair_args(apply));
    let (repair, _) = proceed(repair.next(Ok("/\n".to_string()), "t0"));
    let (repair, _) = proceed(repair.next(Ok("/new/movies\n/new/tv\n".to_string()), "t0"));
    let (repair, _) = proceed(repair.next(Ok("/old/movies/a\n/older/tv/b\n".to_string()), "t0"));
    repair.next(Ok(String::new()), "t0")
}

fn the_plan() -> Vec<DriftRewrite> {
    vec![rewrite("/older", "/new", 1), rewrite("/old", "/new", 1)]
}

#[test]
fn a_dry_run_only_reports_the_plan() {
    assert_eq!(
        finished(checked(false)),
        PlexStorageRepairOutput {
            applied: false,
            rewrites: the_plan(),
            backup: None,
        }
    );
}

#[test]
fn an_empty_plan_is_not_applied() {
    let (repair, first) = StorageRepair::begin(repair_args(true));
    assert_eq!(
        first,
        command("pct", &["exec", "105", "--", "findmnt", "-rno", "TARGET"])
    );
    let (repair, _) = proceed(repair.next(Ok("/\n".to_string()), "t"));
    let output = finished(repair.next(Ok(String::new()), "t"));
    assert!(!output.applied);
    assert!(output.rewrites.is_empty());
    assert_eq!(output.backup, None);
}

#[test]
fn a_repair_stops_saves_rewrites_and_starts() {
    let (repair, stop) = proceed(checked(true));
    assert_eq!(
        stop,
        command("pct", &["exec", "105", "--", "systemctl", "stop", "plexmediaserver"])
    );
    let (repair, save) = proceed(repair.next(Ok(String::new()), "20260722-101500"));
    let backup = "/db path/library.db.orca-bak-20260722-101500";
    assert_eq!(
        save,
        command("pct", &["exec", "105", "--", "cp", "-a", DB, backup])
    );
    let (repair, first) = proceed(repair.next(Ok(String::new()), "later"));
    assert_eq!(first, sql(&repair_sql(&rewrite("/older", "/new", 1))));
    let (repair, second) = proceed(repair.next(Ok(String::new()), "later"));
    assert_eq!(second, sql(&repair_sql(&rewrite("/old", "/new", 1))));
    let (repair, start) = proceed(repair.next(Ok(String::new()), "later"));
    assert_eq!(
        start,
        command("pct", &["exec", "105", "--", "systemctl", "start", "plexmediaserver"])
    );
    assert_eq!(
        finished(repair.next(Ok(String::new()), "later")),
        PlexStorageRepairOutput {
            applied: true,
            rewrites: the_plan(),
            backup: Some(backup.to_string()),
        }
    );
}

#[test]
fn a_repair_says_which_step_failed() {
    let oops = || Err("oops".to_string());
    let fine = || Ok(String::new());
    let at = |n: usize| {
        let mut step = checked(true);
        for _ in 0..n {
            step = proceed(step).0.next(fine(), "t");
        }
        failure(proceed(step).0.next(oops(), "t"))
    };
    let context = |text: &str| RepairError {
        context: Some(text.to_string()),
        cause: "oops".to_string(),
    };
    assert_eq!(at(0), context("stop plexmediaserver"));
    assert_eq!(at(1), context("back up library DB"));
    assert_eq!(at(2), context("apply rewrite /older -> /new"));
    assert_eq!(at(3), context("apply rewrite /old -> /new"));
    assert_eq!(at(4), context("start plexmediaserver"));
}

#[test]
fn a_failing_check_ends_the_repair_as_it_is() {
    let (repair, _) = StorageRepair::begin(repair_args(true));
    let (repair, _) = proceed(repair.next(Err("no findmnt".to_string()), "t"));
    assert_eq!(
        failure(repair.next(Err("locked".to_string()), "t")),
        RepairError {
            context: None,
            cause: "locked".to_string(),
        }
    );
}

#[test]
fn a_plan_moves_sampled_paths_under_a_location() {
    let auth = s(&["/mnt/data/media/movies", "/mnt/data/media/tv"]);
    let offending = s(&["/data/movies/A/a.mkv", "/old/share/tv/B/b.mkv"]);
    let plan = plan_rewrites(&offending, &auth);
    for path in &offending {
        let mut moved = path.clone();
        for rw in &plan {
            if is_under(&moved, &rw.from_root) {
                moved = format!("{}{}", rw.to_root, &moved[rw.from_root.len()..]);
            }
        }
        assert!(auth.iter().any(|root| is_under(&moved, root)), "{moved}");
    }
}

#[test]
fn a_live_root_under_the_retired_one_matches_again() {
    let auth = s(&["/mnt/data/movies"]);
    let plan = plan_rewrites(&s(&["/mnt/movies/f"]), &auth);
    assert_eq!(plan, vec![rewrite("/mnt", "/mnt/data", 1)]);
    assert!(is_under(&plan[0].to_root, &plan[0].from_root));
    assert!("/mnt/data/".starts_with("/mnt/"));
    // The location itself lies under the retired root, so the plan moves it too.
    assert!(is_under(&auth[0], &plan[0].from_root));
}

#[test]
fn a_repair_does_not_mind_what_its_commands_print() {
    let (repair, _) = proceed(checked(true));
    let (repair, copy) = proceed(repair.next(Ok("stopped\n".to_string()), "20260102-030405"));
    let backup = format!("{DB}.orca-bak-20260102-030405");
    assert_eq!(copy.args.last(), Some(&backup));
    let (mut repair, _) = proceed(repair.next(Ok("copied".to_string()), "later"));
    for _ in 1..the_plan().len() {
        repair = proceed(repair.next(Ok("changed".to_string()), "later")).0;
    }
    let (repair, _) = proceed(repair.next(Ok("changed".to_string()), "later still"));
    let output = finished(repair.next(Ok("started".to_string()), "last"));
    assert!(output.applied);
    assert_eq!(output.rewrites, the_plan());
    assert_eq!(output.backup, Some(backup));
}
