//! The delivery-safety rule: when may the buffer head be released?
//!
//! The head `(timestamp, sender)` is safe once every node id in the fixed
//! population either is the sender itself or has been observed sending
//! something timestamped strictly after `timestamp`. Every clock strictly
//! increases, so nothing still in flight can then order at or before the
//! head and slip in front of it.

use vstd::prelude::*;
use crate::latest::LatestTimestamps;

verus! {

/// What node id `p` must show for a head `(timestamp, sender)` to be safe:
/// either it is the sender itself, or it has been observed strictly past
/// `timestamp`.
pub open spec fn peer_clears(latest: Map<u32, u64>, sender: u32, timestamp: u64, p: u32) -> bool {
    p == sender || (latest.contains_key(p) && latest[p] > timestamp)
}

/// The head with clock `(timestamp, sender)` may be delivered. Node ids run
/// over `0 ..= n_peers`, this node's own id included.
pub open spec fn deliverable(
    latest: Map<u32, u64>,
    n_peers: u32,
    sender: u32,
    timestamp: u64,
) -> bool {
    forall|p: u32| p <= n_peers ==> #[trigger] peer_clears(latest, sender, timestamp, p)
}

/// Scans the whole id space and decides the rule. A node id with no
/// watermark yet, or one not past `timestamp`, blocks delivery.
pub fn check(latest: &LatestTimestamps, n_peers: u32, sender: u32, timestamp: u64) -> (b: bool)
    requires
        latest.wf(),
        n_peers < u32::MAX,
    ensures
        b == deliverable(latest@, n_peers, sender, timestamp),
{
    let mut p: u32 = 0;
    while p <= n_peers
        invariant
            p <= n_peers + 1,
            n_peers < u32::MAX,
            latest.wf(),
            forall|q: u32| q < p ==> #[trigger] peer_clears(latest@, sender, timestamp, q),
        decreases n_peers + 1 - p,
    {
        if p != sender {
            match latest.get(p) {
                Some(ts) => {
                    if ts <= timestamp {
                        proof {
                            assert(!peer_clears(latest@, sender, timestamp, p));
                        }
                        return false;
                    }
                    proof {
                        assert(peer_clears(latest@, sender, timestamp, p));
                    }
                },
                None => {
                    proof {
                        assert(!peer_clears(latest@, sender, timestamp, p));
                    }
                    return false;
                },
            }
        }
        proof {
            assert(peer_clears(latest@, sender, timestamp, p));
        }
        p += 1;
    }
    true
}

} // verus!
