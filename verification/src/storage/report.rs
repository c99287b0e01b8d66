//! The report on one instance: what is wrong and what would fix it.

use vstd::prelude::*;

use crate::storage::drift;
use crate::storage::drift::{DriftRewrite, Rewrite};
use crate::storage::paths;
use crate::storage::plan_laws;
use crate::text;

verus! {

/// Severity of a storage issue.
#[derive(Debug, Clone, Copy, PartialEq, Eq, Structural)]
pub enum Severity {
    /// Playback-breaking (drifted paths / missing media mount).
    Critical,
    /// Degraded but not blocking.
    Warning,
}

/// One detected storage problem plus the action that would fix it.
#[derive(Debug, Clone, PartialEq, Eq)]
pub struct StorageIssue {
    /// Stable machine kind: `path_drift` or `mount_missing`.
    pub kind: String,
    /// Severity for triage.
    pub severity: Severity,
    /// Human-readable explanation.
    pub detail: String,
    /// The prefix rewrite that resolves a `path_drift` issue.
    pub rewrite: Option<DriftRewrite>,
}

/// Full report for one instance.
#[derive(Debug, Clone, PartialEq, Eq)]
pub struct StorageReport {
    /// True when no issues were found.
    pub healthy: bool,
    /// Library locations as Plex records them.
    pub library_roots: Vec<String>,
    /// Live mount targets observed inside the container.
    pub mount_targets: Vec<String>,
    /// Everything wrong, each with its remediation.
    pub issues: Vec<StorageIssue>,
}

/// What a [`StorageIssue`] says.
#[verifier::ext_equal]
pub struct Issue {
    pub kind: Seq<char>,
    pub severity: Severity,
    pub detail: Seq<char>,
    pub rewrite: Option<Rewrite>,
}

impl View for StorageIssue {
    type V = Issue;

    open spec fn view(&self) -> Issue {
        Issue {
            kind: self.kind@,
            severity: self.severity,
            detail: self.detail@,
            rewrite: match self.rewrite {
                Some(r) => Some(r@),
                None => None,
            },
        }
    }
}

/// What a sequence of issues says.
pub open spec fn issue_views(s: Seq<StorageIssue>) -> Seq<Issue> {
    s.map_values(|i: StorageIssue| i@)
}

/// What a [`StorageReport`] says.
#[verifier::ext_equal]
pub struct Report {
    pub healthy: bool,
    pub library_roots: Seq<Seq<char>>,
    pub mount_targets: Seq<Seq<char>>,
    pub issues: Seq<Issue>,
}

impl View for StorageReport {
    type V = Report;

    open spec fn view(&self) -> Report {
        Report {
            healthy: self.healthy,
            library_roots: text::views(self.library_roots@),
            mount_targets: text::views(self.mount_targets@),
            issues: issue_views(self.issues@),
        }
    }
}

/// Whether a live mount holds the library location.
pub open spec fn backed(root: Seq<char>, mounts: Seq<Seq<char>>) -> bool {
    exists|i: int| 0 <= i < mounts.len() && #[trigger] paths::under(root, mounts[i])
}

/// How the observed mounts read in an explanation.
pub open spec fn mounts_text(mounts: Seq<Seq<char>>) -> Seq<char> {
    if mounts.len() == 0 {
        "no mounts observed"@
    } else {
        text::joined(mounts, ", "@)
    }
}

/// The issue for a library location that no live mount holds.
pub open spec fn mount_issue(root: Seq<char>, mounts: Seq<Seq<char>>) -> Issue {
    Issue {
        kind: "mount_missing"@,
        severity: Severity::Critical,
        detail: "library root '"@ + root + "' is not backed by any live mount ("@ + mounts_text(
            mounts,
        ) + ")"@,
        rewrite: None,
    }
}

/// The issue for paths stored under a retired root.
pub open spec fn drift_issue(r: Rewrite) -> Issue {
    Issue {
        kind: "path_drift"@,
        severity: Severity::Critical,
        detail: "stored paths under '"@ + r.from_root + "' should be '"@ + r.to_root + "' ("@
            + text::decimal(r.occurrences as nat) + "+ sampled)"@,
        rewrite: Some(r),
    }
}

/// One issue for each library location without a mount, in their order.
pub open spec fn mount_issues(roots: Seq<Seq<char>>, mounts: Seq<Seq<char>>) -> Seq<Issue> {
    roots.filter(|r: Seq<char>| !backed(r, mounts)).map_values(
        |r: Seq<char>| mount_issue(r, mounts),
    )
}

/// One issue for each rewrite of a plan, in its order.
pub open spec fn drift_issues(plan: Seq<Rewrite>) -> Seq<Issue> {
    plan.map_values(|r: Rewrite| drift_issue(r))
}

/// The report that the gathered facts call for: first the locations without a
/// mount, then the rewrites that the offending paths call for.
pub open spec fn classified(
    roots: Seq<Seq<char>>,
    mounts: Seq<Seq<char>>,
    offending: Seq<Seq<char>>,
) -> Report {
    let issues = mount_issues(roots, mounts) + drift_issues(drift::planned(offending, roots));
    Report {
        healthy: issues.len() == 0,
        library_roots: roots,
        mount_targets: mounts,
        issues,
    }
}

fn is_backed(root: &str, mounts: &Vec<String>) -> (r: bool)
    ensures
        r == backed(root@, text::views(mounts@)),
{
    let ghost ms = text::views(mounts@);
    let n: usize = mounts.len();
    let mut i: usize = 0;
    while i < n
        invariant
            i <= n == mounts@.len(),
            ms == text::views(mounts@),
            forall|j: int| 0 <= j < i ==> !#[trigger] paths::under(root@, ms[j]),
        decreases n - i,
    {
        assert(ms[i as int] == mounts@[i as int]@);
        if paths::is_under(root, mounts[i].as_str()) {
            assert(paths::under(root@, ms[i as int]));
            return true;
        }
        i += 1;
    }
    false
}

fn missing_mount(root: &str, mounts: &Vec<String>) -> (r: StorageIssue)
    ensures
        r@ == mount_issue(root@, text::views(mounts@)),
{
    let seen = if mounts.len() == 0 {
        "no mounts observed".to_owned()
    } else {
        text::join(mounts.as_slice(), ", ")
    };
    let mut detail = "library root '".to_owned();
    detail.append(root);
    detail.append("' is not backed by any live mount (");
    detail.append(seen.as_str());
    detail.append(")");
    StorageIssue {
        kind: "mount_missing".to_owned(),
        severity: Severity::Critical,
        detail,
        rewrite: None,
    }
}

fn drifted_paths(rw: DriftRewrite) -> (r: StorageIssue)
    ensures
        r@ == drift_issue(rw@),
{
    let count = text::decimal_text(rw.occurrences);
    let mut detail = "stored paths under '".to_owned();
    detail.append(rw.from_root.as_str());
    detail.append("' should be '");
    detail.append(rw.to_root.as_str());
    detail.append("' (");
    detail.append(count.as_str());
    detail.append("+ sampled)");
    StorageIssue {
        kind: "path_drift".to_owned(),
        severity: Severity::Critical,
        detail,
        rewrite: Some(rw),
    }
}

/// Builds the full report from gathered facts: the library locations, the live
/// mounts and a sample of the paths stored outside every location.
pub fn classify(
    library_roots: Vec<String>,
    mount_targets: Vec<String>,
    offending_sample: &[String],
) -> (r: StorageReport)
    ensures
        r@ == classified(
            text::views(library_roots@),
            text::views(mount_targets@),
            text::views(offending_sample@),
        ),
        r.library_roots == library_roots,
        r.mount_targets == mount_targets,
{
    let mut issues: Vec<StorageIssue> = Vec::new();
    let ghost roots = text::views(library_roots@);
    let ghost mounts = text::views(mount_targets@);
    let ghost unbacked = |x: Seq<char>| !backed(x, mounts);
    let n: usize = library_roots.len();
    let mut i: usize = 0;
    proof {
        reveal_with_fuel(Seq::filter, 1);
        assert(issue_views(issues@) == mount_issues(roots.take(0), mounts));
    }
    while i < n
        invariant
            i <= n == library_roots@.len(),
            roots == text::views(library_roots@),
            mounts == text::views(mount_targets@),
            unbacked == (|x: Seq<char>| !backed(x, mounts)),
            issue_views(issues@) == mount_issues(roots.take(i as int), mounts),
        decreases n - i,
    {
        let root = library_roots[i].as_str();
        let ghost held = issues@;
        proof {
            assert(roots.take(i + 1) == roots.take(i as int).push(root@));
            roots.take(i as int).lemma_filter_push(root@, unbacked);
        }
        if !is_backed(root, &mount_targets) {
            let issue = missing_mount(root, &mount_targets);
            issues.push(issue);
            proof {
                assert(issue_views(issues@) == issue_views(held).push(issue@));
                assert(mount_issues(roots.take(i + 1), mounts) == mount_issues(
                    roots.take(i as int),
                    mounts,
                ).push(mount_issue(root@, mounts)));
            }
        }
        i += 1;
    }
    assert(roots.take(n as int) == roots);
    let ghost missing = issue_views(issues@);
    let plan = drift::plan_rewrites(offending_sample, library_roots.as_slice());
    let ghost planned = drift::rewrite_views(plan@);
    let ghost all = plan@;
    assert(drift_issues(planned.take(0)) == Seq::<Issue>::empty());
    for rw in it: plan
        invariant
            it.seq() == all,
            planned == drift::rewrite_views(all),
            issue_views(issues@) == missing + drift_issues(planned.take(it.index() as int)),
    {
        let ghost held = issues@;
        let ghost k = it.index() as int;
        assert(rw == all[k]);
        let issue = drifted_paths(rw);
        issues.push(issue);
        proof {
            assert(issue_views(issues@) == issue_views(held).push(issue@));
            assert(planned.take(k + 1) == planned.take(k).push(planned[k]));
            assert(drift_issues(planned.take(k + 1)) == drift_issues(planned.take(k)).push(
                drift_issue(planned[k]),
            ));
        }
    }
    assert(planned.take(planned.len() as int) == planned);
    let healthy: bool = issues.len() == 0;
    StorageReport { healthy, library_roots, mount_targets, issues }
}

/// The rewrites that the issues carry, in their order.
pub open spec fn remedies(issues: Seq<Issue>) -> Seq<Rewrite> {
    issues.filter_map(|i: Issue| i.rewrite)
}

/// Takes the rewrites out of the issues of a report.
pub fn take_rewrites(issues: Vec<StorageIssue>) -> (r: Vec<DriftRewrite>)
    ensures
        drift::rewrite_views(r@) == remedies(issue_views(issues@)),
{
    let ghost all = issues@;
    let ghost told = issue_views(all);
    let ghost carried = |i: Issue| i.rewrite;
    let mut r: Vec<DriftRewrite> = Vec::new();
    assert(told.take(0) == Seq::<Issue>::empty());
    assert(drift::rewrite_views(r@) == remedies(told.take(0)));
    for issue in it: issues
        invariant
            it.seq() == all,
            told == issue_views(all),
            carried == (|i: Issue| i.rewrite),
            drift::rewrite_views(r@) == remedies(told.take(it.index() as int)),
    {
        let ghost held = r@;
        let ghost k = it.index() as int;
        proof {
            assert(issue == all[k]);
            assert(told[k] == issue@);
            told.lemma_filter_map_take_succ(carried, k);
        }
        if let Some(rw) = issue.rewrite {
            r.push(rw);
            assert(drift::rewrite_views(r@) == drift::rewrite_views(held).push(rw@));
        }
    }
    assert(told.take(told.len() as int) == told);
    r
}

/// An instance is healthy exactly where a live mount holds every library
/// location and no sampled path calls for a rewrite.
pub proof fn law_healthy(
    roots: Seq<Seq<char>>,
    mounts: Seq<Seq<char>>,
    offending: Seq<Seq<char>>,
)
    ensures
        classified(roots, mounts, offending).healthy <==> {
            &&& forall|i: int| 0 <= i < roots.len() ==> #[trigger] backed(roots[i], mounts)
            &&& forall|i: int|
                0 <= i < offending.len() ==> (#[trigger] drift::inferred(
                    offending[i],
                    roots,
                )) is None
        },
{
    let unbacked = |x: Seq<char>| !backed(x, mounts);
    let left = roots.filter(unbacked);
    let plan = drift::planned(offending, roots);
    let issues = classified(roots, mounts, offending).issues;
    assert(issues.len() == left.len() + plan.len());
    if issues.len() == 0 {
        assert forall|i: int| 0 <= i < roots.len() implies #[trigger] backed(roots[i], mounts) by {
            if !backed(roots[i], mounts) {
                assert(unbacked(roots[i]));
                roots.lemma_filter_contains(unbacked, i);
            }
        }
        assert forall|i: int| 0 <= i < offending.len() implies (#[trigger] drift::inferred(
            offending[i],
            roots,
        )) is None by {
            assert(offending.contains(offending[i]));
            plan_laws::law_plan_is_complete(offending, roots, offending[i]);
        }
    } else if left.len() > 0 {
        roots.lemma_filter_pred(unbacked, 0);
        assert(left.contains(left[0]));
        roots.lemma_filter_contains_rev(unbacked, left[0]);
        let i = choose|i: int| 0 <= i < roots.len() && roots[i] == left[0];
        assert(unbacked(roots[i]));
        assert(!backed(roots[i], mounts));
    } else {
        plan_laws::law_plan_is_sound(offending, roots, 0);
    }
}

/// The rewrites that a report's issues carry are the plan for the offending
/// paths.
pub proof fn law_report_carries_the_plan(
    roots: Seq<Seq<char>>,
    mounts: Seq<Seq<char>>,
    offending: Seq<Seq<char>>,
)
    ensures
        remedies(classified(roots, mounts, offending).issues) == drift::planned(offending, roots),
{
    let plan = drift::planned(offending, roots);
    let missing = mount_issues(roots, mounts);
    lemma_remedies_of_mount_issues(missing);
    lemma_remedies_of_drift_issues(missing, plan);
}

proof fn lemma_remedies_of_mount_issues(issues: Seq<Issue>)
    requires
        forall|i: int| 0 <= i < issues.len() ==> (#[trigger] issues[i]).rewrite is None,
    ensures
        remedies(issues) == Seq::<Rewrite>::empty(),
    decreases issues.len(),
{
    reveal_with_fuel(Seq::filter_map, 2);
    if issues.len() > 0 {
        let init = issues.drop_last();
        assert forall|i: int| 0 <= i < init.len() implies (#[trigger] init[i]).rewrite is None by {
            assert(init[i] == issues[i]);
        }
        lemma_remedies_of_mount_issues(init);
        assert(issues[issues.len() - 1].rewrite is None);
    }
}

proof fn lemma_remedies_of_drift_issues(missing: Seq<Issue>, plan: Seq<Rewrite>)
    requires
        remedies(missing) == Seq::<Rewrite>::empty(),
    ensures
        remedies(missing + drift_issues(plan)) == plan,
    decreases plan.len(),
{
    reveal_with_fuel(Seq::filter_map, 2);
    let all = missing + drift_issues(plan);
    if plan.len() == 0 {
        assert(all == missing);
    } else {
        let init = plan.drop_last();
        lemma_remedies_of_drift_issues(missing, init);
        assert(all.drop_last() == missing + drift_issues(init));
        assert(plan == init + seq![plan.last()]);
    }
}

/// Whether no live mount holds the library location.
pub open spec fn unmounted(root: Seq<char>, mounts: Seq<Seq<char>>) -> bool {
    forall|m: Seq<char>| #[trigger] mounts.contains(m) ==> !paths::under(root, m)
}

/// What a report consists of: one issue for each library location that no live
/// mount holds, all of them and in their order, and after these one for each
/// rewrite of the plan, in its order. It is healthy exactly where there is none,
/// and it repeats the locations and the mounts as they are.
pub proof fn law_report(
    roots: Seq<Seq<char>>,
    mounts: Seq<Seq<char>>,
    offending: Seq<Seq<char>>,
)
    ensures
        ({
            let r = classified(roots, mounts, offending);
            let missing = roots.filter(|x: Seq<char>| unmounted(x, mounts));
            let plan = drift::planned(offending, roots);
            &&& r.library_roots == roots
            &&& r.mount_targets == mounts
            &&& r.healthy <==> r.issues.len() == 0
            &&& r.issues.len() == missing.len() + plan.len()
            &&& forall|i: int|
                0 <= i < missing.len() ==> {
                    let issue = #[trigger] r.issues[i];
                    &&& issue.kind == "mount_missing"@
                    &&& issue.severity == Severity::Critical
                    &&& issue.rewrite is None
                    &&& mounts.len() > 0 ==> issue.detail == "library root '"@ + missing[i]
                        + "' is not backed by any live mount ("@ + text::joined(mounts, ", "@)
                        + ")"@
                    &&& mounts.len() == 0 ==> issue.detail == "library root '"@ + missing[i]
                        + "' is not backed by any live mount ("@ + "no mounts observed"@ + ")"@
                }
            &&& forall|i: int|
                missing.len() <= i < r.issues.len() ==> {
                    let issue = #[trigger] r.issues[i];
                    let rewrite = plan[i - missing.len()];
                    &&& issue.kind == "path_drift"@
                    &&& issue.severity == Severity::Critical
                    &&& issue.rewrite == Some(rewrite)
                    &&& issue.detail == "stored paths under '"@ + rewrite.from_root
                        + "' should be '"@ + rewrite.to_root + "' ("@ + text::decimal(
                        rewrite.occurrences as nat,
                    ) + "+ sampled)"@
                }
        }),
{
    let unbacked = |x: Seq<char>| !backed(x, mounts);
    let unheld = |x: Seq<char>| unmounted(x, mounts);
    assert forall|x: Seq<char>| #[trigger] unbacked(x) == unheld(x) by {
        if unmounted(x, mounts) && backed(x, mounts) {
            let i = choose|i: int| 0 <= i < mounts.len() && #[trigger] paths::under(x, mounts[i]);
            assert(mounts.contains(mounts[i]));
        }
        if !unmounted(x, mounts) {
            let m = choose|m: Seq<char>| #[trigger] mounts.contains(m) && paths::under(x, m);
            let i = choose|i: int| 0 <= i < mounts.len() && mounts[i] == m;
            assert(paths::under(x, mounts[i]));
        }
    }
    assert(unbacked =~= unheld);
}

/// Every location that no live mount holds is reported, and the missing mounts
/// that are reported are as many as there are such locations.
pub proof fn law_every_missing_mount_is_reported(
    roots: Seq<Seq<char>>,
    mounts: Seq<Seq<char>>,
    offending: Seq<Seq<char>>,
)
    ensures
        forall|j: int|
            0 <= j < roots.len() && unmounted(#[trigger] roots[j], mounts) ==> classified(
                roots,
                mounts,
                offending,
            ).issues.contains(mount_issue(roots[j], mounts)),
        classified(roots, mounts, offending).issues.filter(
            |i: Issue| i.kind == "mount_missing"@,
        ).len() == roots.filter(|x: Seq<char>| unmounted(x, mounts)).len(),
{
    let unheld = |x: Seq<char>| unmounted(x, mounts);
    let missing = roots.filter(unheld);
    let told = |i: Issue| i.kind == "mount_missing"@;
    let issues = classified(roots, mounts, offending).issues;
    let n = missing.len() as int;
    law_report(roots, mounts, offending);
    assert forall|j: int|
        0 <= j < roots.len() && unmounted(#[trigger] roots[j], mounts) implies issues.contains(
        mount_issue(roots[j], mounts),
    ) by {
        assert(unheld(roots[j]));
        roots.lemma_filter_contains(unheld, j);
        let k = choose|k: int| 0 <= k < missing.len() && missing[k] == roots[j];
        assert(issues[k].kind == "mount_missing"@);
        assert(issues[k] == mount_issue(missing[k], mounts));
    }
    reveal_strlit("mount_missing");
    reveal_strlit("path_drift");
    assert("mount_missing"@.len() == 13);
    assert("path_drift"@.len() == 10);
    let head = issues.take(n);
    let tail = issues.skip(n);
    assert(issues == head + tail);
    Seq::filter_distributes_over_add(head, tail, told);
    assert forall|i: int| 0 <= i < head.len() implies told(#[trigger] head[i]) by {
        assert(head[i] == issues[i]);
    }
    assert forall|i: int| 0 <= i < tail.len() implies !told(#[trigger] tail[i]) by {
        assert(tail[i] == issues[n + i]);
    }
    lemma_all_kept(head, told);
    lemma_none_kept(tail, told);
}

proof fn lemma_all_kept(s: Seq<Issue>, keep: spec_fn(Issue) -> bool)
    requires
        forall|i: int| 0 <= i < s.len() ==> keep(#[trigger] s[i]),
    ensures
        s.filter(keep) == s,
    decreases s.len(),
{
    reveal_with_fuel(Seq::filter, 2);
    if s.len() > 0 {
        let init = s.drop_last();
        assert forall|i: int| 0 <= i < init.len() implies keep(#[trigger] init[i]) by {
            assert(init[i] == s[i]);
        }
        lemma_all_kept(init, keep);
        assert(keep(s[s.len() - 1]));
        assert(s == init.push(s.last()));
    }
}

proof fn lemma_none_kept(s: Seq<Issue>, keep: spec_fn(Issue) -> bool)
    requires
        forall|i: int| 0 <= i < s.len() ==> !keep(#[trigger] s[i]),
    ensures
        s.filter(keep).len() == 0,
    decreases s.len(),
{
    reveal_with_fuel(Seq::filter, 2);
    if s.len() > 0 {
        let init = s.drop_last();
        assert forall|i: int| 0 <= i < init.len() implies !keep(#[trigger] init[i]) by {
            assert(init[i] == s[i]);
        }
        lemma_none_kept(init, keep);
        assert(!keep(s[s.len() - 1]));
    }
}

/// The rewrites of a list of issues are those that they carry, each of them and
/// in their order.
pub proof fn law_remedies(issues: Seq<Issue>, issue: Issue)
    ensures
        remedies(Seq::empty()) == Seq::<Rewrite>::empty(),
        match issue.rewrite {
            Some(r) => remedies(issues.push(issue)) == remedies(issues).push(r),
            None => remedies(issues.push(issue)) == remedies(issues),
        },
{
    let carried = |i: Issue| i.rewrite;
    let all = issues.push(issue);
    let n = issues.len() as int;
    all.lemma_filter_map_take_succ(carried, n);
    assert(all.take(n + 1) == all);
    assert(all.take(n) == issues);
    assert(carried(all[n]) == issue.rewrite);
    reveal_with_fuel(Seq::filter_map, 1);
}

/// What an issue and a report show of themselves is what their fields hold.
pub proof fn law_report_view(i: StorageIssue, r: StorageReport)
    ensures
        i@.kind == i.kind@,
        i@.severity == i.severity,
        i@.detail == i.detail@,
        match i.rewrite {
            Some(rw) => i@.rewrite == Some(rw@),
            None => i@.rewrite is None,
        },
        r@.healthy == r.healthy,
        r@.library_roots == text::views(r.library_roots@),
        r@.mount_targets == text::views(r.mount_targets@),
        r@.issues.len() == r.issues@.len(),
        forall|k: int| 0 <= k < r.issues@.len() ==> #[trigger] r@.issues[k] == r.issues@[k]@,
{
}

/// Every issue of a report is critical and of one of two kinds: a library
/// location that no mount holds, or a planned rewrite, which it then carries.
pub proof fn law_issue_kinds(
    roots: Seq<Seq<char>>,
    mounts: Seq<Seq<char>>,
    offending: Seq<Seq<char>>,
    i: int,
)
    requires
        0 <= i < classified(roots, mounts, offending).issues.len(),
    ensures
        ({
            let issue = classified(roots, mounts, offending).issues[i];
            &&& issue.severity == Severity::Critical
            &&& {
                ||| {
                    &&& issue.kind == "mount_missing"@
                    &&& issue.rewrite is None
                    &&& exists|j: int|
                        0 <= j < roots.len() && !#[trigger] backed(roots[j], mounts) && issue
                            == mount_issue(roots[j], mounts)
                }
                ||| {
                    &&& issue.kind == "path_drift"@
                    &&& issue.rewrite is Some
                    &&& drift::planned(offending, roots).contains(issue.rewrite->0)
                }
            }
        }),
{
    let unbacked = |x: Seq<char>| !backed(x, mounts);
    let left = roots.filter(unbacked);
    let plan = drift::planned(offending, roots);
    let issue = classified(roots, mounts, offending).issues[i];
    if i < left.len() {
        roots.lemma_filter_pred(unbacked, i);
        assert(left.contains(left[i]));
        roots.lemma_filter_contains_rev(unbacked, left[i]);
        let j = choose|j: int| 0 <= j < roots.len() && roots[j] == left[i];
        assert(unbacked(roots[j]));
        assert(!backed(roots[j], mounts));
    } else {
        assert(issue == drift_issue(plan[i - left.len()]));
    }
}

} // verus!
