//! The per-sender watermarks: for every sender, the highest timestamp this
//! node has admitted from it. A sender absent from the map has had nothing
//! admitted yet.
//!
//! Stored as a small association vector with unique keys; its mathematical
//! view is a `Map<u32, u64>`.

use vstd::prelude::*;

verus! {

/// `v` is the largest value in `m`, or zero when `m` is empty.
pub open spec fn is_latest_max(m: Map<u32, u64>, v: u64) -> bool {
    &&& forall|k: u32| #[trigger] m.contains_key(k) ==> m[k] <= v
    &&& (v == 0 || exists|k: u32| #[trigger] m.contains_key(k) && m[k] == v)
}

/// Only one value fits `is_latest_max` for a given map.
pub proof fn lemma_latest_max_unique(m: Map<u32, u64>, v1: u64, v2: u64)
    requires
        is_latest_max(m, v1),
        is_latest_max(m, v2),
    ensures
        v1 == v2,
{
    if v1 != 0 {
        let k1 = choose|k: u32| #[trigger] m.contains_key(k) && m[k] == v1;
        assert(m[k1] <= v2);
    }
    if v2 != 0 {
        let k2 = choose|k: u32| #[trigger] m.contains_key(k) && m[k] == v2;
        assert(m[k2] <= v1);
    }
}

spec fn keys_unique(s: Seq<(u32, u64)>) -> bool {
    forall|i: int, j: int| 0 <= i < j < s.len() ==> (#[trigger] s[i]).0 != (#[trigger] s[j]).0
}

spec fn map_of(s: Seq<(u32, u64)>) -> Map<u32, u64>
    decreases s.len(),
{
    if s.len() == 0 {
        Map::empty()
    } else {
        map_of(s.drop_last()).insert(s.last().0, s.last().1)
    }
}

proof fn lemma_map_of_contains(s: Seq<(u32, u64)>)
    ensures
        forall|k: u32| #[trigger] map_of(s).contains_key(k)
            <==> exists|i: int| 0 <= i < s.len() && (#[trigger] s[i]).0 == k,
    decreases s.len(),
{
    if s.len() > 0 {
        lemma_map_of_contains(s.drop_last());
        assert forall|k: u32| #[trigger] map_of(s).contains_key(k)
            implies exists|i: int| 0 <= i < s.len() && (#[trigger] s[i]).0 == k by {
            if k == s.last().0 {
                assert(s[s.len() - 1].0 == k);
            } else {
                assert(map_of(s.drop_last()).contains_key(k));
                let i = choose|i: int|
                    0 <= i < s.drop_last().len() && (#[trigger] s.drop_last()[i]).0 == k;
                assert(s.drop_last()[i] == s[i]);
                assert(s[i].0 == k);
            }
        };
        assert forall|k: u32| (exists|i: int| 0 <= i < s.len() && (#[trigger] s[i]).0 == k)
            implies #[trigger] map_of(s).contains_key(k) by {
            let i = choose|i: int| 0 <= i < s.len() && (#[trigger] s[i]).0 == k;
            if i < s.len() - 1 {
                assert(s.drop_last()[i].0 == k);
                assert(map_of(s.drop_last()).contains_key(k));
            } else {
                assert(s.last().0 == k);
            }
        };
    }
}

proof fn lemma_map_of_index(s: Seq<(u32, u64)>, i: int)
    requires
        keys_unique(s),
        0 <= i < s.len(),
    ensures
        map_of(s).contains_key(s[i].0),
        map_of(s)[s[i].0] == s[i].1,
    decreases s.len(),
{
    if i < s.len() - 1 {
        assert(keys_unique(s.drop_last()));
        lemma_map_of_index(s.drop_last(), i);
        assert(s[i].0 != s.last().0);
    }
}

proof fn lemma_map_of_push(s: Seq<(u32, u64)>, e: (u32, u64))
    ensures
        map_of(s.push(e)) == map_of(s).insert(e.0, e.1),
{
    assert(s.push(e).drop_last() =~= s);
    assert(s.push(e).last() == e);
}

proof fn lemma_map_of_remove(s: Seq<(u32, u64)>, i: int)
    requires
        keys_unique(s),
        0 <= i < s.len(),
    ensures
        map_of(s.remove(i)) == map_of(s).remove(s[i].0),
    decreases s.len(),
{
    lemma_map_of_contains(s.drop_last());
    if i == s.len() - 1 {
        assert(s.remove(i) =~= s.drop_last());
        assert(!map_of(s.drop_last()).contains_key(s[i].0));
        assert(map_of(s.drop_last()).insert(s[i].0, s[i].1).remove(s[i].0) =~= map_of(
            s.drop_last(),
        ));
    } else {
        assert(keys_unique(s.drop_last()));
        lemma_map_of_remove(s.drop_last(), i);
        assert(s.remove(i).drop_last() =~= s.drop_last().remove(i));
        assert(s.remove(i).last() == s.last());
        assert(s.drop_last()[i] == s[i]);
        assert(s[i].0 != s.last().0);
        assert(map_of(s.drop_last()).remove(s[i].0).insert(s.last().0, s.last().1) =~= map_of(
            s.drop_last(),
        ).insert(s.last().0, s.last().1).remove(s[i].0));
    }
}

/// Sender-id to highest admitted timestamp, keys unique.
pub struct LatestTimestamps {
    entries: Vec<(u32, u64)>,
}

impl View for LatestTimestamps {
    type V = Map<u32, u64>;

    closed spec fn view(&self) -> Map<u32, u64> {
        map_of(self.entries@)
    }
}

impl LatestTimestamps {
    /// The association vector never records a sender twice.
    pub closed spec fn wf(self) -> bool {
        keys_unique(self.entries@)
    }

    /// An empty record: no sender has been observed yet.
    pub fn new() -> (l: LatestTimestamps)
        ensures
            l.wf(),
            l@ == Map::<u32, u64>::empty(),
    {
        LatestTimestamps { entries: Vec::new() }
    }

    /// The watermark recorded for `sender`, if any.
    pub fn get(&self, sender: u32) -> (r: Option<u64>)
        requires
            self.wf(),
        ensures
            match r {
                Some(v) => self@.contains_key(sender) && self@[sender] == v,
                None => !self@.contains_key(sender),
            },
    {
        let n = self.entries.len();
        let mut i: usize = 0;
        while i < n
            invariant
                i <= n,
                n == self.entries.len(),
                self.wf(),
                forall|j: int| 0 <= j < i ==> (#[trigger] self.entries@[j]).0 != sender,
            decreases n - i,
        {
            let (k, v) = self.entries[i];
            if k == sender {
                proof {
                    lemma_map_of_index(self.entries@, i as int);
                }
                return Some(v);
            }
            i += 1;
        }
        proof {
            lemma_map_of_contains(self.entries@);
        }
        None
    }

    /// Records `timestamp` as the watermark for `sender`, replacing any
    /// earlier entry.
    pub fn set(&mut self, sender: u32, timestamp: u64)
        requires
            old(self).wf(),
        ensures
            final(self).wf(),
            final(self)@ == old(self)@.insert(sender, timestamp),
    {
        let n = self.entries.len();
        let mut i: usize = 0;
        while i < n
            invariant
                i <= n,
                n == self.entries.len(),
                self.wf(),
                self.entries@ == old(self).entries@,
                forall|j: int| 0 <= j < i ==> (#[trigger] self.entries@[j]).0 != sender,
            decreases n - i,
        {
            let ghost s0 = self.entries@;
            let (k, _) = self.entries[i];
            if k == sender {
                proof {
                    assert(s0[i as int].0 == sender);
                    lemma_map_of_remove(s0, i as int);
                }
                self.entries.remove(i);
                let ghost s1 = self.entries@;
                proof {
                    assert forall|a: int, b: int| 0 <= a < b < s1.len() implies (#[trigger] s1[a]).0
                        != (#[trigger] s1[b]).0 by {
                        assert(s1[a] == if a < i { s0[a] } else { s0[a + 1] });
                        assert(s1[b] == if b < i { s0[b] } else { s0[b + 1] });
                    };
                    assert forall|a: int| 0 <= a < s1.len() implies (#[trigger] s1[a]).0 != sender
                        by {
                        assert(s1[a] == if a < i { s0[a] } else { s0[a + 1] });
                    };
                }
                self.entries.push((sender, timestamp));
                proof {
                    lemma_map_of_push(s1, (sender, timestamp));
                    assert(s1 == s0.remove(i as int));
                    assert(map_of(s1) == map_of(s0).remove(sender));
                    assert(self@ == map_of(s0).remove(sender).insert(sender, timestamp));
                    assert(map_of(s0).remove(sender).insert(sender, timestamp) =~= map_of(
                        s0,
                    ).insert(sender, timestamp));
                    assert(old(self)@ == map_of(s0));
                    assert(self@ == old(self)@.insert(sender, timestamp));
                    let s2 = self.entries@;
                    assert forall|a: int, b: int| 0 <= a < b < s2.len() implies (#[trigger] s2[a]).0
                        != (#[trigger] s2[b]).0 by {
                        if b < s2.len() - 1 {
                            assert(s2[a] == s1[a] && s2[b] == s1[b]);
                        } else {
                            assert(s2[b].0 == sender);
                            assert(s2[a] == s1[a]);
                        }
                    };
                }
                return ;
            }
            i += 1;
        }
        let ghost s0 = self.entries@;
        proof {
            lemma_map_of_contains(s0);
        }
        self.entries.push((sender, timestamp));
        proof {
            lemma_map_of_push(s0, (sender, timestamp));
            let s2 = self.entries@;
            assert forall|a: int, b: int| 0 <= a < b < s2.len() implies (#[trigger] s2[a]).0
                != (#[trigger] s2[b]).0 by {
                if b == s2.len() - 1 {
                    assert(s2[a] == s0[a]);
                    assert(s2[b].0 == sender);
                } else {
                    assert(s2[a] == s0[a] && s2[b] == s0[b]);
                }
            };
        }
    }

    /// The largest watermark recorded so far, zero when none is.
    pub fn max_value(&self) -> (v: u64)
        requires
            self.wf(),
        ensures
            is_latest_max(self@, v),
    {
        let mut v: u64 = 0;
        let n = self.entries.len();
        let mut i: usize = 0;
        while i < n
            invariant
                i <= n,
                n == self.entries.len(),
                self.wf(),
                forall|j: int| 0 <= j < i ==> (#[trigger] self.entries@[j]).1 <= v,
                v == 0 || exists|j: int| 0 <= j < i && (#[trigger] self.entries@[j]).1 == v,
            decreases n - i,
        {
            let (_, val) = self.entries[i];
            if val > v {
                v = val;
            }
            i += 1;
        }
        proof {
            lemma_map_of_contains(self.entries@);
            assert forall|k: u32| #[trigger] self@.contains_key(k) implies self@[k] <= v by {
                let idx = choose|idx: int|
                    0 <= idx < self.entries@.len() && (#[trigger] self.entries@[idx]).0 == k;
                lemma_map_of_index(self.entries@, idx);
            };
            if v != 0 {
                let j = choose|j: int|
                    0 <= j < self.entries@.len() && (#[trigger] self.entries@[j]).1 == v;
                lemma_map_of_index(self.entries@, j);
                assert(self@.contains_key(self.entries@[j].0) && self@[self.entries@[j].0] == v);
            }
        }
        v
    }
}

} // verus!
