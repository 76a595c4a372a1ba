//! The timestamp guard: rejects forged or replayed clocks before admission.
//!
//! A candidate `(sender, timestamp)` is held against the per-sender
//! watermarks. A timestamp at or below the sender's watermark is a replay or
//! a regression; one further than the drift limit ahead of everything this
//! node has observed is a forged future clock. Either is refused outright and
//! never buffered.

use vstd::prelude::*;
use crate::latest::{is_latest_max, lemma_latest_max_unique, LatestTimestamps};

verus! {

/// The drift limit the reference configuration runs with.
pub const DEFAULT_DRIFT_LIMIT: u64 = 100;

/// Why an admission attempt was refused.
#[derive(Clone, Copy, Debug, PartialEq, Eq, Structural)]
pub enum AdmitError {
    /// The sender already used this timestamp, or an even later one.
    TimestampReused,
    /// The timestamp is further than the drift limit ahead of everything
    /// this node has observed.
    FutureTimestamp,
    /// The candidate carried no clock stamp at all.
    MissingClock,
}

/// The sender has a watermark and the candidate does not move past it: a
/// replay or an out-of-order regression.
pub open spec fn replay_rejected(latest: Map<u32, u64>, sender: u32, timestamp: u64) -> bool {
    latest.contains_key(sender) && timestamp <= latest[sender]
}

/// The candidate claims a clock more than `drift_limit` ahead of the largest
/// watermark this node holds (zero when it holds none).
pub open spec fn drift_rejected(latest: Map<u32, u64>, timestamp: u64, drift_limit: u64) -> bool {
    exists|v: u64| #[trigger] is_latest_max(latest, v) && timestamp > v + drift_limit
}

/// The guard admits the candidate: neither rule rejects it.
pub open spec fn admissible(
    latest: Map<u32, u64>,
    sender: u32,
    timestamp: u64,
    drift_limit: u64,
) -> bool {
    &&& !replay_rejected(latest, sender, timestamp)
    &&& !drift_rejected(latest, timestamp, drift_limit)
}

/// Holds the candidate `(sender, timestamp)` against the watermarks: the
/// replay rule first, then the drift rule, exactly one error for each.
pub fn validate(
    latest: &LatestTimestamps,
    sender: u32,
    timestamp: u64,
    drift_limit: u64,
) -> (r: Result<(), AdmitError>)
    requires
        latest.wf(),
    ensures
        r is Ok <==> admissible(latest@, sender, timestamp, drift_limit),
        r == Err::<(), AdmitError>(AdmitError::TimestampReused) <==> replay_rejected(
            latest@,
            sender,
            timestamp,
        ),
        r == Err::<(), AdmitError>(AdmitError::FutureTimestamp) <==> (!replay_rejected(
            latest@,
            sender,
            timestamp,
        ) && drift_rejected(latest@, timestamp, drift_limit)),
{
    if let Some(last) = latest.get(sender) {
        if timestamp <= last {
            return Err(AdmitError::TimestampReused);
        }
    }
    let max_observed = latest.max_value();
    let fits = drift_limit <= u64::MAX - max_observed;
    let over = if fits {
        timestamp > max_observed + drift_limit
    } else {
        false
    };
    proof {
        if over {
            assert(is_latest_max(latest@, max_observed) && timestamp > max_observed + drift_limit);
        } else {
            assert forall|v: u64| #[trigger] is_latest_max(latest@, v)
                implies timestamp <= v + drift_limit by {
                lemma_latest_max_unique(latest@, v, max_observed);
            };
        }
    }
    if over {
        Err(AdmitError::FutureTimestamp)
    } else {
        Ok(())
    }
}

/// Monotonic per-sender timestamps: whenever two candidates from one sender
/// are admitted in turn, the second carries a strictly larger timestamp, so
/// the stream of timestamps a node accepts from any sender is strictly
/// increasing.
pub proof fn lemma_monotonic_per_sender(
    latest: Map<u32, u64>,
    sender: u32,
    t1: u64,
    t2: u64,
    drift_limit: u64,
)
    requires
        admissible(latest, sender, t1, drift_limit),
        admissible(latest.insert(sender, t1), sender, t2, drift_limit),
    ensures
        t2 > t1,
{
    assert(latest.insert(sender, t1).contains_key(sender));
}

/// Idempotent admission: once `(sender, timestamp)` stands at or below the
/// sender's watermark — as every admitted message does from the moment it is
/// admitted, through delivery, and forever after — the same pair can never
/// pass the guard again.
pub proof fn lemma_no_readmission(
    latest: Map<u32, u64>,
    sender: u32,
    timestamp: u64,
    drift_limit: u64,
)
    requires
        latest.contains_key(sender),
        timestamp <= latest[sender],
    ensures
        !admissible(latest, sender, timestamp, drift_limit),
        replay_rejected(latest, sender, timestamp),
{
}

} // verus!
