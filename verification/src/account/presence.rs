//! The verdict on one server's announce, and what is told of it.

use vstd::prelude::*;

verus! {

/// Health verdict for one server's plex.tv announce.
#[derive(Debug, Clone, Copy, PartialEq, Eq, Structural)]
pub enum PresenceStatus {
    /// Announce is within the freshness threshold: a player can see it.
    Fresh,
    /// Announce is older than the threshold: likely invisible to players.
    Stale,
    /// plex.tv reported no time: freshness cannot be judged.
    Unknown,
}

/// The verdict on an announce of this age.
pub open spec fn verdict(age_secs: Option<i64>, threshold_secs: i64) -> PresenceStatus {
    match age_secs {
        Some(age) => if age <= threshold_secs {
            PresenceStatus::Fresh
        } else {
            PresenceStatus::Stale
        },
        None => PresenceStatus::Unknown,
    }
}

impl PresenceStatus {
    /// Classifies an announce age in seconds against the staleness threshold.
    /// No age is `Unknown`; an age equal to the threshold is still `Fresh`.
    pub fn for_age(age_secs: Option<i64>, threshold_secs: i64) -> (r: PresenceStatus)
        ensures
            r == verdict(age_secs, threshold_secs),
    {
        match age_secs {
            Some(age) => if age <= threshold_secs {
                PresenceStatus::Fresh
            } else {
                PresenceStatus::Stale
            },
            None => PresenceStatus::Unknown,
        }
    }
}

/// An announce whose age is known is stale exactly where it is older than the
/// threshold and fresh exactly where it is not, whatever the threshold; only one
/// without an age is neither.
pub proof fn law_verdict(age: i64, threshold: i64)
    ensures
        age > threshold <==> verdict(Some(age), threshold) == PresenceStatus::Stale,
        age <= threshold <==> verdict(Some(age), threshold) == PresenceStatus::Fresh,
        verdict(None, threshold) == PresenceStatus::Unknown,
{
}

/// An announce never looks older for being younger, or for being held against a
/// laxer threshold.
pub proof fn law_freshness_is_monotone(age: i64, younger: i64, threshold: i64, laxer: i64)
    requires
        younger <= age,
        threshold <= laxer,
        verdict(Some(age), threshold) == PresenceStatus::Fresh,
    ensures
        verdict(Some(younger), laxer) == PresenceStatus::Fresh,
{
}

/// One owned server's presence as seen from plex.tv, with the derived verdict.
#[derive(Debug, Clone, PartialEq, Eq)]
pub struct ServerPresence {
    pub name: Option<String>,
    pub client_identifier: Option<String>,
    pub product: Option<String>,
    pub owned: bool,
    /// plex.tv's own `presence` flag for the resource.
    pub presence: bool,
    /// Announce time, epoch seconds.
    pub last_seen_at: Option<i64>,
    /// Age of the announce in seconds at probe time.
    pub last_seen_age_secs: Option<i64>,
    /// Verdict derived from the age and the threshold.
    pub status: PresenceStatus,
}

} // verus!
