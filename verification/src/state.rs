//! The node-wide state record and the paths through it: the admission path
//! every message takes, the local generator step, and the delivery loop's
//! decisions. All ordering logic lives here and in the modules this one
//! draws on; the surrounding process only moves bytes and schedules tasks.

use vstd::prelude::*;
use rand::Rng;
use crate::buffer::{placed, DeliveryBuffer};
use crate::clock::{advanced, ClockState};
use crate::guard::{admissible, drift_rejected, lemma_no_readmission, replay_rejected, validate, AdmitError};
use crate::latest::LatestTimestamps;
use crate::order::{key_le, key_lt, lemma_total_order_agreement, sorted, strictly_sorted, Candidate, Message};
use crate::safety::{check, deliverable};

verus! {

/// Relies on rand::rng and rand::Rng::random_range over `0..bound`: a
/// uniformly drawn index below the bound. Nothing more is promised of the
/// draw; callers must hold for every index below the bound.
#[verifier::external_body]
fn random_index(bound: usize) -> (r: usize)
    requires
        bound > 0,
    ensures
        r < bound,
{
    rand::rng().random_range(0..bound)
}

/// Everything one node owns: its id, the fixed population, the drift limit,
/// the word pool, and the three pieces of ordering state.
pub struct State {
    /// This node's own id.
    pub index: u32,
    /// Node ids run over `0 ..= n_peers`: the whole fixed population, this
    /// node included.
    pub n_peers: u32,
    /// How far past the largest watermark a claimed timestamp may run.
    pub drift_limit: u64,
    /// The pool locally generated message bodies are drawn from.
    pub words: Vec<String>,
    /// This node's logical clock.
    pub clock: ClockState,
    /// Highest admitted timestamp per sender.
    pub latest: LatestTimestamps,
    /// Admitted, not yet delivered messages, in delivery order.
    pub buffer: DeliveryBuffer,
}

impl State {
    /// The record's invariant: the watermarks are well formed and never run
    /// ahead of the clock, and the buffer is strictly ordered with every
    /// entry covered by its sender's watermark.
    pub open spec fn wf(self) -> bool {
        &&& self.n_peers < u32::MAX
        &&& self.latest.wf()
        &&& strictly_sorted(self.buffer@)
        &&& forall|k: u32| #[trigger]
            self.latest@.contains_key(k) ==> self.latest@[k] <= self.clock.value
        &&& forall|i: int|
            0 <= i < self.buffer@.len() ==> self.latest@.contains_key(
                (#[trigger] self.buffer@[i]).sender,
            ) && self.buffer@[i].timestamp <= self.latest@[self.buffer@[i].sender]
    }

    /// A fresh node: clock at zero, no watermarks, nothing buffered.
    pub fn new(index: u32, n_peers: u32, drift_limit: u64, words: Vec<String>) -> (s: State)
        requires
            n_peers < u32::MAX,
        ensures
            s.wf(),
            s.index == index,
            s.n_peers == n_peers,
            s.drift_limit == drift_limit,
            s.words@ == words@,
            s.clock.value == 0,
            s.latest@ == Map::<u32, u64>::empty(),
            s.buffer@ == Seq::<Message>::empty(),
    {
        State {
            index,
            n_peers,
            drift_limit,
            words,
            clock: ClockState::new(),
            latest: LatestTimestamps::new(),
            buffer: DeliveryBuffer::new(),
        }
    }

    /// The admission path for a stamped candidate: the guard's two checks,
    /// then — only on success — the clock advance, the watermark write and
    /// the ordered insertion, as one all-or-nothing step.
    pub fn accept(&mut self, sender: u32, timestamp: u64, content: String) -> (r: Result<
        (),
        AdmitError,
    >)
        requires
            old(self).wf(),
            old(self).clock.value < u64::MAX,
            timestamp < u64::MAX,
        ensures
            final(self).wf(),
            r is Ok <==> admissible(old(self).latest@, sender, timestamp, old(self).drift_limit),
            r == Err::<(), AdmitError>(AdmitError::TimestampReused) <==> replay_rejected(
                old(self).latest@,
                sender,
                timestamp,
            ),
            r == Err::<(), AdmitError>(AdmitError::FutureTimestamp) <==> (!replay_rejected(
                old(self).latest@,
                sender,
                timestamp,
            ) && drift_rejected(old(self).latest@, timestamp, old(self).drift_limit)),
            r is Err ==> *final(self) == *old(self),
            r is Ok ==> final(self).latest@ == old(self).latest@.insert(sender, timestamp),
            r is Ok ==> final(self).clock.value == advanced(old(self).clock.value, timestamp),
            r is Ok ==> final(self).buffer@.to_multiset() == old(
                self,
            ).buffer@.to_multiset().insert((Message { sender, timestamp, content })),
            r is Ok ==> final(self).buffer@.len() == old(self).buffer@.len() + 1,
            final(self).index == old(self).index,
            final(self).n_peers == old(self).n_peers,
            final(self).drift_limit == old(self).drift_limit,
            final(self).words@ == old(self).words@,
    {
        match validate(&self.latest, sender, timestamp, self.drift_limit) {
            Err(e) => Err(e),
            Ok(()) => {
                self.clock.advance_on_event(timestamp);
                self.latest.set(sender, timestamp);
                let msg = Message { sender, timestamp, content };
                proof {
                    assert(sorted(self.buffer@));
                }
                let ghost s0 = self.buffer@;
                self.buffer.insert(msg);
                proof {
                    self.lemma_wf_after_accept(*old(self), s0, msg);
                }
                Ok(())
            },
        }
    }

    /// Re-establishes the invariant after an admission's insertion. `pre` is
    /// the state before the step, `s0` the buffer just before the insertion
    /// (equal to `pre`'s), and `msg` carries a timestamp above its sender's
    /// old watermark.
    proof fn lemma_wf_after_accept(self, pre: State, s0: Seq<Message>, msg: Message)
        requires
            pre.wf(),
            s0 == pre.buffer@,
            !replay_rejected(pre.latest@, msg.sender, msg.timestamp),
            self.n_peers == pre.n_peers,
            self.latest.wf(),
            self.latest@ == pre.latest@.insert(msg.sender, msg.timestamp),
            self.clock.value >= pre.clock.value,
            msg.timestamp <= self.clock.value,
            placed(s0, self.buffer@, msg),
        ensures
            self.wf(),
    {
        let s1 = self.buffer@;
        let i = choose|i: int|
            {
                &&& 0 <= i <= s0.len()
                &&& s1 == s0.insert(i, msg)
                &&& (forall|j: int| 0 <= j < i ==> key_le(#[trigger] s0[j], msg))
                &&& (forall|j: int| i <= j < s0.len() ==> key_lt(msg, #[trigger] s0[j]))
            };
        assert forall|a: int|
            0 <= a < s0.len() && (#[trigger] s0[a]).sender == msg.sender implies s0[a].timestamp
            < msg.timestamp by {
            assert(pre.latest@.contains_key(s0[a].sender));
        };
        assert forall|a: int, b: int| 0 <= a < b < s1.len() implies key_lt(
            #[trigger] s1[a],
            #[trigger] s1[b],
        ) by {
            assert(s1[a] == if a < i {
                s0[a]
            } else if a == i {
                msg
            } else {
                s0[a - 1]
            });
            assert(s1[b] == if b < i {
                s0[b]
            } else if b == i {
                msg
            } else {
                s0[b - 1]
            });
        };
        assert forall|k: u32| #[trigger]
            self.latest@.contains_key(k) implies self.latest@[k] <= self.clock.value by {
            if k != msg.sender {
                assert(pre.latest@.contains_key(k));
            }
        };
        assert forall|a: int| 0 <= a < s1.len() implies self.latest@.contains_key(
            (#[trigger] s1[a]).sender,
        ) && s1[a].timestamp <= self.latest@[s1[a].sender] by {
            assert(s1[a] == if a < i {
                s0[a]
            } else if a == i {
                msg
            } else {
                s0[a - 1]
            });
            if a != i {
                let e = s1[a];
                let orig = if a < i {
                    a
                } else {
                    a - 1
                };
                assert(e == s0[orig]);
                assert(pre.latest@.contains_key(e.sender) && e.timestamp <= pre.latest@[e.sender]);
            }
        };
    }

    /// The admission entry point as the transport hands candidates over: a
    /// candidate without a clock stamp is refused at the boundary, one with
    /// a stamp goes through the full admission path.
    pub fn accept_candidate(&mut self, candidate: Candidate) -> (r: Result<(), AdmitError>)
        requires
            old(self).wf(),
            old(self).clock.value < u64::MAX,
            candidate.clock matches Some(c) ==> c.timestamp < u64::MAX,
        ensures
            final(self).wf(),
            r == Err::<(), AdmitError>(AdmitError::MissingClock) <==> candidate.clock is None,
            r is Err ==> *final(self) == *old(self),
            candidate.clock matches Some(c) ==> (r is Ok <==> admissible(
                old(self).latest@,
                c.sender,
                c.timestamp,
                old(self).drift_limit,
            )),
            candidate.clock matches Some(c) ==> (r == Err::<(), AdmitError>(
                AdmitError::TimestampReused,
            ) <==> replay_rejected(old(self).latest@, c.sender, c.timestamp)),
            candidate.clock matches Some(c) ==> (r == Err::<(), AdmitError>(
                AdmitError::FutureTimestamp,
            ) <==> (!replay_rejected(old(self).latest@, c.sender, c.timestamp) && drift_rejected(
                old(self).latest@,
                c.timestamp,
                old(self).drift_limit,
            ))),
            candidate.clock matches Some(c) ==> (r is Ok ==> final(self).latest@ == old(
                self,
            ).latest@.insert(c.sender, c.timestamp)),
            candidate.clock matches Some(c) ==> (r is Ok ==> final(self).clock.value == advanced(
                old(self).clock.value,
                c.timestamp,
            )),
            candidate.clock matches Some(c) ==> (r is Ok ==> final(self).buffer@.to_multiset()
                == old(self).buffer@.to_multiset().insert(
                (Message { sender: c.sender, timestamp: c.timestamp, content: candidate.content }),
            )),
            final(self).index == old(self).index,
            final(self).n_peers == old(self).n_peers,
            final(self).drift_limit == old(self).drift_limit,
            final(self).words@ == old(self).words@,
    {
        let Candidate { clock, content } = candidate;
        match clock {
            None => Err(AdmitError::MissingClock),
            Some(c) => self.accept(c.sender, c.timestamp, content),
        }
    }

    /// The generator step: draws a word, stamps it with the next clock
    /// value, and admits it through the same bookkeeping as a received
    /// message — its own clock is trusted, so the guard is not consulted.
    /// Returns the message for the caller to fan out to the peers.
    pub fn generate(&mut self) -> (msg: Message)
        requires
            old(self).wf(),
            old(self).clock.value < u64::MAX,
            old(self).words@.len() > 0,
        ensures
            final(self).wf(),
            msg.sender == old(self).index,
            msg.timestamp == old(self).clock.value + 1,
            exists|i: int| 0 <= i < old(self).words@.len() && msg.content == #[trigger] old(
                self,
            ).words@[i],
            final(self).clock.value == old(self).clock.value + 1,
            final(self).latest@ == old(self).latest@.insert(
                old(self).index,
                (old(self).clock.value + 1) as u64,
            ),
            final(self).buffer@.to_multiset() == old(self).buffer@.to_multiset().insert(msg),
            final(self).buffer@.len() == old(self).buffer@.len() + 1,
            final(self).index == old(self).index,
            final(self).n_peers == old(self).n_peers,
            final(self).drift_limit == old(self).drift_limit,
            final(self).words@ == old(self).words@,
    {
        let w = random_index(self.words.len());
        let content = self.words[w].clone();
        let cur = self.clock.value;
        let t = self.clock.advance_on_event(cur);
        let msg = Message { sender: self.index, timestamp: t, content };
        self.latest.set(self.index, t);
        proof {
            assert forall|a: int| 0 <= a < old(self).buffer@.len() implies key_lt(
                #[trigger] old(self).buffer@[a],
                msg,
            ) by {
                assert(old(self).latest@.contains_key(old(self).buffer@[a].sender));
            };
            assert(sorted(self.buffer@));
            assert(!replay_rejected(old(self).latest@, msg.sender, msg.timestamp));
        }
        let ghost s0 = self.buffer@;
        let out = msg.clone();
        self.buffer.insert(msg);
        proof {
            self.lemma_wf_after_accept(*old(self), s0, out);
        }
        out
    }

    /// Whether the current buffer head is safe to deliver.
    pub fn head_deliverable(&self) -> (b: bool)
        requires
            self.wf(),
        ensures
            b == (self.buffer@.len() > 0 && deliverable(
                self.latest@,
                self.n_peers,
                self.buffer@[0].sender,
                self.buffer@[0].timestamp,
            )),
    {
        match self.buffer.peek_head() {
            None => false,
            Some(head) => check(&self.latest, self.n_peers, head.sender, head.timestamp),
        }
    }

    /// Pops the head if — and only if — it is safe to deliver right now.
    /// The delivered message leaves the buffer for good: it is not among
    /// what remains, and the buffer shrinks by exactly one.
    pub fn pop_deliverable(&mut self) -> (r: Option<Message>)
        requires
            old(self).wf(),
        ensures
            final(self).wf(),
            r is None ==> *final(self) == *old(self),
            r is None ==> !(old(self).buffer@.len() > 0 && deliverable(
                old(self).latest@,
                old(self).n_peers,
                old(self).buffer@[0].sender,
                old(self).buffer@[0].timestamp,
            )),
            r matches Some(m) ==> old(self).buffer@.len() > 0 && m == old(self).buffer@[0],
            r matches Some(m) ==> deliverable(
                old(self).latest@,
                old(self).n_peers,
                m.sender,
                m.timestamp,
            ),
            r is Some ==> final(self).buffer@ == old(self).buffer@.drop_first(),
            r matches Some(m) ==> !final(self).buffer@.contains(m),
            final(self).latest@ == old(self).latest@,
            final(self).clock == old(self).clock,
            final(self).index == old(self).index,
            final(self).n_peers == old(self).n_peers,
            final(self).drift_limit == old(self).drift_limit,
            final(self).words@ == old(self).words@,
    {
        if self.head_deliverable() {
            let ghost s0 = self.buffer@;
            let m = self.buffer.pop_head();
            proof {
                assert(self.buffer@ =~= s0.drop_first());
                assert forall|a: int| 0 <= a < self.buffer@.len() implies #[trigger] self.buffer@[a]
                    != m by {
                    assert(self.buffer@[a] == s0[a + 1]);
                    assert(key_lt(s0[0], s0[a + 1]));
                };
                assert forall|a: int| 0 <= a < self.buffer@.len() implies self.latest@.contains_key(
                    (#[trigger] self.buffer@[a]).sender,
                ) && self.buffer@[a].timestamp <= self.latest@[self.buffer@[a].sender] by {
                    assert(self.buffer@[a] == s0[a + 1]);
                    assert(old(self).latest@.contains_key(s0[a + 1].sender) && s0[a + 1].timestamp
                        <= old(self).latest@[s0[a + 1].sender]);
                };
            }
            Some(m)
        } else {
            None
        }
    }

    /// The delivery loop's inner step: releases every consecutively safe
    /// head, in order, and stops at the first head that must still wait.
    /// What comes out is exactly the released prefix of the buffer.
    pub fn drain_deliverable(&mut self) -> (out: Vec<Message>)
        requires
            old(self).wf(),
        ensures
            final(self).wf(),
            out@ + final(self).buffer@ == old(self).buffer@,
            forall|j: int|
                0 <= j < out@.len() ==> deliverable(
                    old(self).latest@,
                    old(self).n_peers,
                    (#[trigger] out@[j]).sender,
                    out@[j].timestamp,
                ),
            final(self).buffer@.len() > 0 ==> !deliverable(
                old(self).latest@,
                old(self).n_peers,
                final(self).buffer@[0].sender,
                final(self).buffer@[0].timestamp,
            ),
            final(self).latest@ == old(self).latest@,
            final(self).clock == old(self).clock,
            final(self).index == old(self).index,
            final(self).n_peers == old(self).n_peers,
            final(self).drift_limit == old(self).drift_limit,
            final(self).words@ == old(self).words@,
    {
        let mut out: Vec<Message> = Vec::new();
        let mut more = true;
        while more
            invariant
                self.wf(),
                out@ + self.buffer@ == old(self).buffer@,
                forall|j: int|
                    0 <= j < out@.len() ==> deliverable(
                        old(self).latest@,
                        old(self).n_peers,
                        (#[trigger] out@[j]).sender,
                        out@[j].timestamp,
                    ),
                !more ==> !(self.buffer@.len() > 0 && deliverable(
                    old(self).latest@,
                    old(self).n_peers,
                    self.buffer@[0].sender,
                    self.buffer@[0].timestamp,
                )),
                self.latest@ == old(self).latest@,
                self.clock == old(self).clock,
                self.index == old(self).index,
                self.n_peers == old(self).n_peers,
                self.drift_limit == old(self).drift_limit,
                self.words@ == old(self).words@,
            decreases self.buffer@.len() + (if more {
                1int
            } else {
                0int
            }),
        {
            match self.pop_deliverable() {
                Some(m) => {
                    let ghost b0 = self.buffer@;
                    out.push(m);
                    proof {
                        assert(out@ + b0 =~= old(self).buffer@);
                    }
                },
                None => {
                    more = false;
                },
            }
        }
        out
    }
}

/// Total order agreement at the node level: two well-formed nodes that
/// have admitted the same collection of messages hold their buffers in the
/// identical sequence — so, releasing prefixes of that sequence, they
/// deliver in the same order on every node.
pub proof fn lemma_nodes_agree(a: State, b: State)
    requires
        a.wf(),
        b.wf(),
        a.buffer@.to_multiset() == b.buffer@.to_multiset(),
    ensures
        a.buffer@ == b.buffer@,
{
    lemma_total_order_agreement(a.buffer@, b.buffer@);
}

/// Idempotent delivery: any message a well-formed node holds — or ever
/// held — in its buffer sits at or below its sender's watermark, and the
/// watermarks only ever rise, so the guard can never admit the same
/// `(sender, timestamp)` again. Together with `pop_deliverable`'s contract
/// (the buffer shrinks by one and the head leaves it for good), a message
/// is delivered at most once.
pub proof fn lemma_no_second_admission(s: State, i: int)
    requires
        s.wf(),
        0 <= i < s.buffer@.len(),
    ensures
        replay_rejected(s.latest@, s.buffer@[i].sender, s.buffer@[i].timestamp),
        !admissible(s.latest@, s.buffer@[i].sender, s.buffer@[i].timestamp, s.drift_limit),
{
    lemma_no_readmission(s.latest@, s.buffer@[i].sender, s.buffer@[i].timestamp, s.drift_limit);
}

} // verus!
