//! The holding area for admitted, not-yet-delivered messages, kept sorted by
//! `(timestamp, sender)` at all times. Validation never happens here: a
//! message reaches the buffer only after it has passed the guard.

use vstd::prelude::*;
use vstd::multiset::Multiset;
use vstd::seq_lib::lemma_multiset_commutative;
use crate::order::{comes_before, key_le, key_lt, sorted, Message};

verus! {

/// `s1` is `s0` with `msg` filed in order: everything before the seam admits
/// `msg` after it, everything from the seam on comes strictly after `msg`.
pub open spec fn placed(s0: Seq<Message>, s1: Seq<Message>, msg: Message) -> bool {
    exists|i: int|
        {
            &&& 0 <= i <= s0.len()
            &&& s1 == s0.insert(i, msg)
            &&& (forall|j: int| 0 <= j < i ==> key_le(#[trigger] s0[j], msg))
            &&& (forall|j: int| i <= j < s0.len() ==> key_lt(msg, #[trigger] s0[j]))
        }
}

/// Admitted messages in delivery order.
pub struct DeliveryBuffer {
    items: Vec<Message>,
}

impl View for DeliveryBuffer {
    type V = Seq<Message>;

    closed spec fn view(&self) -> Seq<Message> {
        self.items@
    }
}

impl DeliveryBuffer {
    /// An empty buffer.
    pub fn new() -> (b: DeliveryBuffer)
        ensures
            b@ == Seq::<Message>::empty(),
    {
        DeliveryBuffer { items: Vec::new() }
    }

    /// How many messages are waiting.
    pub fn len(&self) -> (n: usize)
        ensures
            n == self@.len(),
    {
        self.items.len()
    }

    /// The head: the lowest-ordered waiting message, if any.
    pub fn peek_head(&self) -> (r: Option<&Message>)
        ensures
            match r {
                Some(m) => self@.len() > 0 && *m == self@[0],
                None => self@.len() == 0,
            },
    {
        if self.items.len() > 0 {
            Some(&self.items[0])
        } else {
            None
        }
    }

    /// Removes and returns the head. The caller must have checked that the
    /// buffer is not empty.
    pub fn pop_head(&mut self) -> (m: Message)
        requires
            old(self)@.len() > 0,
        ensures
            m == old(self)@[0],
            final(self)@ == old(self)@.drop_first(),
    {
        let m = self.items.remove(0);
        proof {
            assert(self.items@ =~= old(self)@.drop_first());
        }
        m
    }

    /// Files `msg` at its place in the `(timestamp, sender)` order. Among
    /// equal keys the newcomer goes last, which is where a stable re-sort of
    /// an appended element would leave it.
    pub fn insert(&mut self, msg: Message)
        requires
            sorted(old(self)@),
        ensures
            sorted(final(self)@),
            final(self)@.len() == old(self)@.len() + 1,
            final(self)@.to_multiset() == old(self)@.to_multiset().insert(msg),
            placed(old(self)@, final(self)@, msg),
    {
        let ghost s0 = self.items@;
        let n = self.items.len();
        let mut i: usize = 0;
        while i < n && !comes_before(&msg, &self.items[i])
            invariant
                i <= n,
                n == self.items.len(),
                self.items@ == old(self)@,
                sorted(self.items@),
                forall|j: int| 0 <= j < i ==> key_le(#[trigger] self.items@[j], msg),
            decreases n - i,
        {
            i += 1;
        }
        proof {
            assert forall|j: int| i <= j < self.items@.len() implies key_lt(
                msg,
                #[trigger] self.items@[j],
            ) by {
                assert(key_lt(msg, self.items@[i as int]));
                assert(key_le(self.items@[i as int], self.items@[j]));
            };
        }
        self.items.insert(i, msg);
        proof {
            let s1 = self.items@;
            assert(s1 == s0.insert(i as int, msg));
            assert forall|a: int, b: int| 0 <= a < b < s1.len() implies key_le(
                #[trigger] s1[a],
                #[trigger] s1[b],
            ) by {
                assert(s1[a] == if a < i { s0[a] } else if a == i { msg } else { s0[a - 1] });
                assert(s1[b] == if b < i { s0[b] } else if b == i { msg } else { s0[b - 1] });
            };
            let left = s0.subrange(0, i as int);
            let right = s0.subrange(i as int, s0.len() as int);
            assert(s0 =~= left + right);
            assert(s1 =~= left + (seq![msg] + right));
            lemma_multiset_commutative(left, right);
            lemma_multiset_commutative(left, seq![msg] + right);
            lemma_multiset_commutative(seq![msg], right);
            assert(seq![msg].to_multiset() =~= Multiset::<Message>::empty().insert(msg)) by {
                broadcast use vstd::seq_lib::group_to_multiset_ensures;
                broadcast use vstd::multiset::group_multiset_axioms;

                assert(Seq::<Message>::empty().push(msg) =~= seq![msg]);
                assert forall|x: Message|
                    seq![msg].to_multiset().count(x) == Multiset::<Message>::empty().insert(
                        msg,
                    ).count(x) by {
                    assert(seq![msg].to_multiset() =~= Seq::<Message>::empty().to_multiset().insert(
                        msg,
                    ));
                    assert(!Seq::<Message>::empty().contains(x));
                    assert(Seq::<Message>::empty().to_multiset().count(x) == 0);
                };
            };
            assert(s1.to_multiset() =~= s0.to_multiset().insert(msg)) by {
                broadcast use vstd::multiset::group_multiset_axioms;
            };
        }
    }
}

} // verus!
