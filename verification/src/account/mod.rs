//! The plex.tv account: can a player out on the internet still see a server?
//!
//! [`client`] holds the request and the rows that come back, [`presence`] the
//! verdict on one server. This module turns the rows into verdicts.

pub mod client;
pub mod presence;

pub use presence::{PresenceStatus, ServerPresence};

use vstd::prelude::*;

use client::RawResource;

verus! {

/// Default staleness threshold: presence older than this is `Stale`. Ten
/// minutes lie inside the normal plex.tv announce window.
pub const DEFAULT_THRESHOLD_SECS: i64 = 600;

/// The age of a row's announce at the time `now`.
pub open spec fn age_of(r: RawResource, now: i64) -> Option<int> {
    match r.last_seen_at {
        Some(seen) => Some(now - seen),
        None => None,
    }
}

/// Whether the age of a row's announce is a number of 64 bits.
pub open spec fn age_fits(r: RawResource, now: i64) -> bool {
    age_of(r, now) matches Some(age) ==> i64::MIN <= age <= i64::MAX
}

/// What is known of the server of one row at the time `now`.
pub open spec fn presence_of(r: RawResource, now: i64, threshold_secs: i64) -> ServerPresence {
    let age = match age_of(r, now) {
        Some(age) => Some(age as i64),
        None => None,
    };
    ServerPresence {
        name: r.name,
        client_identifier: r.client_identifier,
        product: r.product,
        owned: r.owned,
        presence: r.presence,
        last_seen_at: r.last_seen_at,
        last_seen_age_secs: age,
        status: presence::verdict(age, threshold_secs),
    }
}

/// The rows of the servers that the account owns.
pub open spec fn owned_rows(raws: Seq<RawResource>) -> Seq<RawResource> {
    raws.filter(|r: RawResource| r.owned)
}

/// The presence of every owned server, in the order of the rows.
pub open spec fn presences(
    raws: Seq<RawResource>,
    now: i64,
    threshold_secs: i64,
) -> Seq<ServerPresence> {
    owned_rows(raws).map_values(|r: RawResource| presence_of(r, now, threshold_secs))
}

/// Whether the age of every owned row's announce is a number of 64 bits, which
/// is what [`probe`] needs.
pub fn ages_fit(raws: &[RawResource], now: i64) -> (r: bool)
    ensures
        r == forall|i: int|
            0 <= i < raws@.len() && (#[trigger] raws@[i]).owned ==> age_fits(raws@[i], now),
{
    let n: usize = raws.len();
    let mut i: usize = 0;
    while i < n
        invariant
            i <= n == raws@.len(),
            forall|j: int| 0 <= j < i && (#[trigger] raws@[j]).owned ==> age_fits(raws@[j], now),
        decreases n - i,
    {
        if raws[i].owned {
            if let Some(seen) = raws[i].last_seen_at {
                if now.checked_sub(seen).is_none() {
                    assert(!age_fits(raws@[i as int], now));
                    return false;
                }
            }
        }
        i += 1;
    }
    true
}

/// Turns the rows of an account into the presence of every owned server, each
/// with a freshness verdict.
pub fn probe(raws: Vec<RawResource>, now: i64, threshold_secs: i64) -> (r: Vec<ServerPresence>)
    requires
        forall|i: int|
            0 <= i < raws@.len() && (#[trigger] raws@[i]).owned ==> age_fits(raws@[i], now),
    ensures
        r@ == presences(raws@, now, threshold_secs),
{
    let ghost all = raws@;
    let ghost owned = |r: RawResource| r.owned;
    let mut found: Vec<ServerPresence> = Vec::new();
    proof {
        reveal_with_fuel(Seq::filter, 1);
        assert(all.take(0) == Seq::<RawResource>::empty());
        assert(found@ == presences(all.take(0), now, threshold_secs));
    }
    for raw in it: raws
        invariant
            it.seq() == all,
            owned == (|r: RawResource| r.owned),
            forall|i: int|
                0 <= i < all.len() && (#[trigger] all[i]).owned ==> age_fits(all[i], now),
            found@ == presences(all.take(it.index() as int), now, threshold_secs),
    {
        let ghost k = it.index() as int;
        let ghost held = found@;
        proof {
            assert(raw == all[k]);
            assert(all.take(k + 1) == all.take(k).push(raw));
            all.take(k).lemma_filter_push(raw, owned);
        }
        if raw.owned {
            let age: Option<i64> = match raw.last_seen_at {
                Some(seen) => Some(now - seen),
                None => None,
            };
            let status = PresenceStatus::for_age(age, threshold_secs);
            let server = ServerPresence {
                name: raw.name,
                client_identifier: raw.client_identifier,
                product: raw.product,
                owned: raw.owned,
                presence: raw.presence,
                last_seen_at: raw.last_seen_at,
                last_seen_age_secs: age,
                status,
            };
            assert(server == presence_of(raw, now, threshold_secs));
            found.push(server);
            assert(presences(all.take(k + 1), now, threshold_secs) == held.push(server));
        }
    }
    assert(all.take(all.len() as int) == all);
    found
}

/// A row of a server that is not owned reports nothing. One of an owned server
/// reports it once, with what the row says of it, the time since it was last
/// seen as its age, and stale exactly where that time exceeds the threshold.
pub proof fn law_probe_of_one_row(r: RawResource, now: i64, threshold_secs: i64)
    requires
        r.last_seen_at matches Some(seen) ==> i64::MIN <= now - seen <= i64::MAX,
    ensures
        ({
            let found = presences(seq![r], now, threshold_secs);
            &&& !r.owned ==> found.len() == 0
            &&& r.owned ==> {
                &&& found.len() == 1
                &&& found[0].name == r.name
                &&& found[0].client_identifier == r.client_identifier
                &&& found[0].product == r.product
                &&& found[0].owned
                &&& found[0].presence == r.presence
                &&& found[0].last_seen_at == r.last_seen_at
                &&& match r.last_seen_at {
                    Some(seen) => {
                        &&& found[0].last_seen_age_secs matches Some(age) && age == now - seen
                        &&& found[0].status == PresenceStatus::Stale <==> now - seen
                            > threshold_secs
                        &&& found[0].status == PresenceStatus::Fresh <==> now - seen
                            <= threshold_secs
                    },
                    None => {
                        &&& found[0].last_seen_age_secs is None
                        &&& found[0].status == PresenceStatus::Unknown
                    },
                }
            }
        }),
{
    let owned = |r: RawResource| r.owned;
    reveal_with_fuel(Seq::filter, 2);
    assert(seq![r].drop_last() == Seq::<RawResource>::empty());
    assert(owned_rows(seq![r]) == if r.owned {
        seq![r]
    } else {
        Seq::empty()
    });
}

/// Each row is judged by itself: the rows of two lists, one behind the other,
/// report what the one and then the other reports.
pub proof fn law_probe_goes_row_by_row(
    a: Seq<RawResource>,
    b: Seq<RawResource>,
    now: i64,
    threshold_secs: i64,
)
    ensures
        presences(a + b, now, threshold_secs) == presences(a, now, threshold_secs) + presences(
            b,
            now,
            threshold_secs,
        ),
        presences(Seq::empty(), now, threshold_secs) == Seq::<ServerPresence>::empty(),
{
    Seq::filter_distributes_over_add(a, b, |r: RawResource| r.owned);
    reveal_with_fuel(Seq::filter, 1);
    assert(presences(a + b, now, threshold_secs) == presences(a, now, threshold_secs)
        + presences(b, now, threshold_secs));
}

/// Held against the default threshold, an announce is stale exactly where it is
/// older than ten minutes.
pub proof fn law_default_threshold(age: i64)
    ensures
        presence::verdict(Some(age), DEFAULT_THRESHOLD_SECS) == PresenceStatus::Stale <==> age
            > 10 * 60,
        presence::verdict(Some(age), DEFAULT_THRESHOLD_SECS) == PresenceStatus::Fresh <==> age
            <= 10 * 60,
{
}

/// The age of an announce fits exactly where the difference of the two times is
/// a number of 64 bits; a row without a time always fits.
pub proof fn law_age_fits(r: RawResource, now: i64)
    ensures
        age_fits(r, now) <==> match r.last_seen_at {
            Some(seen) => -0x8000_0000_0000_0000 <= now - seen <= 0x7fff_ffff_ffff_ffff,
            None => true,
        },
{
}

/// A probe reports owned servers only, and all of them.
pub proof fn law_probe_reports_owned(
    raws: Seq<RawResource>,
    now: i64,
    threshold_secs: i64,
)
    ensures
        forall|i: int|
            0 <= i < presences(raws, now, threshold_secs).len() ==> (#[trigger] presences(
                raws,
                now,
                threshold_secs,
            )[i]).owned,
        forall|i: int|
            0 <= i < raws.len() && (#[trigger] raws[i]).owned ==> presences(
                raws,
                now,
                threshold_secs,
            ).contains(presence_of(raws[i], now, threshold_secs)),
{
    let owned = |r: RawResource| r.owned;
    let rows = raws.filter(owned);
    let all = presences(raws, now, threshold_secs);
    assert forall|i: int| 0 <= i < all.len() implies (#[trigger] all[i]).owned by {
        raws.lemma_filter_pred(owned, i);
        assert(owned(rows[i]));
    }
    assert forall|i: int| 0 <= i < raws.len() && (#[trigger] raws[i]).owned implies all.contains(
        presence_of(raws[i], now, threshold_secs),
    ) by {
        assert(owned(raws[i]));
        raws.lemma_filter_contains(owned, i);
        let j = choose|j: int| 0 <= j < rows.len() && rows[j] == raws[i];
        assert(all[j] == presence_of(raws[i], now, threshold_secs));
    }
}

} // verus!
