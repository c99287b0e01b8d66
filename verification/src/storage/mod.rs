//! Storage drift: stored paths that point at a retired root.
//!
//! A library's own location is kept current when its mount moves, but the
//! paths of single items and the URLs of external subtitles can be left
//! pointing at the old root. [`drift`] finds the prefix rewrites that bring
//! them back, [`report`] turns the observed facts into a report, [`check`] and
//! [`repair`] say which command to run next.

pub mod check;
pub mod drift;
pub mod drift_laws;
pub mod guest;
pub mod guest_laws;
pub mod infer_laws;
pub mod paths;
pub mod plan_laws;
pub mod repair;
pub mod report;
pub mod sql;

pub use check::{default_db, CheckStep, PlexStorageCheckArgs, StorageCheck};
pub use drift::{infer_rewrite, plan_rewrites, DriftRewrite};
pub use guest::{capture, lines, GuestCommand, GuestOutput};
pub use paths::{is_under, segments};
pub use repair::{
    PlexStorageRepairArgs, PlexStorageRepairOutput, RepairError, RepairStep, StorageRepair,
};
pub use report::{classify, Severity, StorageIssue, StorageReport};
pub use sql::{not_under_clause, repair_sql, sql_escape};
