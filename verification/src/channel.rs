//! The drop-on-full queue discipline. Every queue in the pipeline is
//! bounded and best-effort: a full queue discards the newest message and
//! the producer proceeds unimpeded — staleness is traded for real-time
//! safety in the capture path. This module carries that discipline as a
//! verified model; the live pipeline publishes through trusted wrappers
//! over an outside channel with the same behaviour.
use vstd::prelude::*;

verus! {

/// A bounded queue that drops the newest message when full.
pub struct BestEffortQueue<T> {
    /// Queued messages, oldest first.
    pub items: Vec<T>,
    /// Capacity the queue was made with.
    pub cap: usize,
}

/// Queue contents and drop count after offering `msgs` in order to a
/// queue holding `q` with capacity `cap`, never blocking.
pub open spec fn offer_all<T>(q: Seq<T>, cap: int, msgs: Seq<T>) -> (Seq<T>, int)
    decreases msgs.len(),
{
    if msgs.len() == 0 {
        (q, 0int)
    } else {
        let prior = offer_all(q, cap, msgs.drop_last());
        if prior.0.len() < cap {
            (prior.0.push(msgs.last()), prior.1)
        } else {
            (prior.0, prior.1 + 1)
        }
    }
}

/// Law: offering `K` messages to a queue of capacity `C` holding `L`
/// leaves exactly `min(C, L + K)` queued — never more than the capacity —
/// and drops exactly the remaining `L + K − min(C, L + K)`; with `L = 0`
/// and `K > C` that is `C` queued and `K − C` dropped.
pub proof fn lemma_offer_saturation<T>(q: Seq<T>, cap: int, msgs: Seq<T>)
    requires
        q.len() <= cap,
    ensures
        offer_all(q, cap, msgs).0.len() == if q.len() + msgs.len() <= cap {
            q.len() + msgs.len() as int
        } else {
            cap
        },
        offer_all(q, cap, msgs).1 == q.len() + msgs.len() - offer_all(q, cap, msgs).0.len(),
    decreases msgs.len(),
{
    if msgs.len() > 0 {
        lemma_offer_saturation(q, cap, msgs.drop_last());
    }
}

impl<T> BestEffortQueue<T> {
    /// The queue never holds more than its capacity.
    pub open spec fn wf(self) -> bool {
        &&& self.cap >= 1
        &&& self.items@.len() <= self.cap
    }

    /// An empty queue of the given capacity.
    pub fn new(cap: usize) -> (r: BestEffortQueue<T>)
        requires
            cap >= 1,
        ensures
            r.wf(),
            r.cap == cap,
            r.items@.len() == 0,
    {
        BestEffortQueue { items: Vec::new(), cap }
    }

    /// Number of queued messages.
    pub fn len(&self) -> (r: usize)
        ensures
            r == self.items@.len(),
    {
        self.items.len()
    }

    /// Best-effort publish: appends the message if there is room, else
    /// drops it and reports so. Never blocks — it is one comparison and
    /// at most one append.
    pub fn try_send(&mut self, v: T) -> (accepted: bool)
        requires
            old(self).wf(),
        ensures
            final(self).wf(),
            final(self).cap == old(self).cap,
            accepted == (old(self).items@.len() < old(self).cap),
            accepted ==> final(self).items@ == old(self).items@.push(v),
            !accepted ==> final(self).items@ == old(self).items@,
    {
        if self.items.len() < self.cap {
            self.items.push(v);
            true
        } else {
            false
        }
    }

    /// Non-blocking poll: takes the oldest message, if any.
    pub fn try_recv(&mut self) -> (r: Option<T>)
        requires
            old(self).wf(),
        ensures
            final(self).wf(),
            final(self).cap == old(self).cap,
            old(self).items@.len() == 0 ==> r is None && final(self).items@ == old(self).items@,
            old(self).items@.len() > 0 ==> r == Some(old(self).items@[0]) && final(self).items@
                == old(self).items@.subrange(1, old(self).items@.len() as int),
    {
        if self.items.len() == 0 {
            None
        } else {
            let v = self.items.remove(0);
            proof {
                assert(self.items@ =~= old(self).items@.subrange(
                    1,
                    old(self).items@.len() as int,
                ));
            }
            Some(v)
        }
    }
}

} // verus!
