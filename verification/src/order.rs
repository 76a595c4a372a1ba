//! Messages and the total order the whole network agrees to deliver in.
//!
//! The ordering key of a message is the pair `(timestamp, sender)`, compared
//! lexicographically. Two distinct admitted messages never share a key (the
//! guard makes every sender's stream strictly increasing), so this order is
//! total over everything a node ever buffers.

use vstd::prelude::*;
use vstd::seq_lib::group_to_multiset_ensures;

verus! {

/// A scalar logical clock stamp: who sent, and at what logical time.
pub struct LClock {
    pub sender: u32,
    pub timestamp: u64,
}

/// A broadcast message, immutable once created.
pub struct Message {
    pub sender: u32,
    pub timestamp: u64,
    pub content: String,
}

impl Clone for Message {
    fn clone(&self) -> (m: Message)
        ensures
            m == *self,
    {
        Message { sender: self.sender, timestamp: self.timestamp, content: self.content.clone() }
    }
}

/// A candidate handed to the admission entry point; the clock stamp may be
/// missing on malformed input.
pub struct Candidate {
    pub clock: Option<LClock>,
    pub content: String,
}

/// Strict `(timestamp, sender)` order: `a` is delivered before `b`.
pub open spec fn key_lt(a: Message, b: Message) -> bool {
    a.timestamp < b.timestamp || (a.timestamp == b.timestamp && a.sender < b.sender)
}

/// `a` does not come after `b`: equal keys or `key_lt`.
pub open spec fn key_le(a: Message, b: Message) -> bool {
    !key_lt(b, a)
}

/// Decides the delivery order between two messages.
pub fn comes_before(a: &Message, b: &Message) -> (r: bool)
    ensures
        r == key_lt(*a, *b),
{
    if a.timestamp < b.timestamp {
        true
    } else {
        a.timestamp == b.timestamp && a.sender < b.sender
    }
}

/// Sorted by `(timestamp, sender)`, ties allowed.
pub open spec fn sorted(s: Seq<Message>) -> bool {
    forall|i: int, j: int| 0 <= i < j < s.len() ==> key_le(#[trigger] s[i], #[trigger] s[j])
}

/// Sorted with every key distinct: the order of admitted messages.
pub open spec fn strictly_sorted(s: Seq<Message>) -> bool {
    forall|i: int, j: int| 0 <= i < j < s.len() ==> key_lt(#[trigger] s[i], #[trigger] s[j])
}

/// Total order agreement: two nodes that have admitted the same set of
/// messages hold them in identical order. Each node's buffer is strictly
/// sorted by `(timestamp, sender)`, and a strictly sorted arrangement of a
/// given collection of messages is unique, so the delivered sequences agree.
pub proof fn lemma_total_order_agreement(a: Seq<Message>, b: Seq<Message>)
    requires
        strictly_sorted(a),
        strictly_sorted(b),
        a.to_multiset() == b.to_multiset(),
    ensures
        a == b,
    decreases a.len(),
{
    broadcast use group_to_multiset_ensures;

    vstd::seq_lib::to_multiset_len(a);
    vstd::seq_lib::to_multiset_len(b);
    assert(a.len() == b.len());
    if a.len() == 0 {
        assert(a =~= b);
    } else {
        assert(a.contains(a[0]));
        assert(a.to_multiset().count(a[0]) > 0);
        assert(b.to_multiset().count(a[0]) > 0);
        assert(b.contains(a[0]));
        let j = choose|j: int| 0 <= j < b.len() && b[j] == a[0];
        assert(b.contains(b[0]));
        assert(b.to_multiset().count(b[0]) > 0);
        assert(a.to_multiset().count(b[0]) > 0);
        assert(a.contains(b[0]));
        let k = choose|k: int| 0 <= k < a.len() && a[k] == b[0];
        // Keys of a[0] and b[0] bound each other through the sortedness of
        // the opposite sequence, so the heads must be equal.
        if j > 0 {
            assert(key_lt(b[0], b[j]));
            assert(key_lt(a[0], a[k]) || a[0] == b[0]);
            assert(false);
        }
        assert(a[0] == b[0]);
        let a1 = a.drop_first();
        let b1 = b.drop_first();
        assert(a.remove(0) =~= a1);
        assert(b.remove(0) =~= b1);
        assert(a1.to_multiset() == a.to_multiset().remove(a[0]));
        assert(b1.to_multiset() == b.to_multiset().remove(b[0]));
        assert(strictly_sorted(a1)) by {
            assert(forall|i: int, j: int|
                0 <= i < j < a1.len() ==> key_lt(#[trigger] a1[i], #[trigger] a1[j]));
        }
        lemma_total_order_agreement(a1, b1);
        assert(a =~= seq![a[0]] + a1);
        assert(b =~= seq![b[0]] + b1);
    }
}

} // verus!
