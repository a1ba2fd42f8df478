//! A bounded, ordered, lossless queue: the model of an inter-stage channel.
//!
//! The pipe is the sole backpressure mechanism between stages: a send into a
//! full pipe is refused and hands the message back untouched — the producer
//! suspends and retries, nothing is dropped — and receives hand messages out
//! in send order. The ghost send/take histories make the lossless claim a
//! stated invariant rather than folklore.

use vstd::prelude::*;

verus! {

/// A bounded FIFO queue of capacity `cap`.
pub struct Pipe<T> {
    pub items: Vec<T>,
    pub cap: usize,
    /// Every message ever accepted, in order.
    pub sent: Ghost<Seq<T>>,
    /// Every message ever handed out, in order.
    pub taken: Ghost<Seq<T>>,
}

impl<T> Pipe<T> {
    /// What the pipe currently holds, oldest first.
    pub open spec fn queued(self) -> Seq<T> {
        self.items@
    }

    /// Pipe invariant: the queue never outgrows its capacity, and the
    /// accepted history is exactly the handed-out history followed by what
    /// is still queued — no message is lost or duplicated inside the pipe.
    pub open spec fn wf(self) -> bool {
        &&& self.items@.len() <= self.cap
        &&& self.sent@ == self.taken@ + self.items@
    }

    /// Whether a send would be refused right now.
    pub open spec fn is_full(self) -> bool {
        self.items@.len() >= self.cap
    }

    /// An empty pipe of the given capacity.
    pub fn new(cap: usize) -> (p: Pipe<T>)
        ensures
            p.wf(),
            p.cap == cap,
            p.queued().len() == 0,
            p.sent@.len() == 0,
            p.taken@.len() == 0,
    {
        let p = Pipe {
            items: Vec::new(),
            cap,
            sent: Ghost(Seq::empty()),
            taken: Ghost(Seq::empty()),
        };
        proof {
            assert(p.sent@ =~= p.taken@ + p.items@);
        }
        p
    }

    /// Number of queued messages.
    pub fn len(&self) -> (n: usize)
        ensures
            n == self.queued().len(),
    {
        self.items.len()
    }

    /// Attempts to enqueue one message.
    ///
    /// A full pipe refuses and hands the message back with nothing changed:
    /// the caller suspends and retries — backpressure, not loss.
    pub fn try_send(&mut self, t: T) -> (r: Result<(), T>)
        requires
            old(self).wf(),
        ensures
            final(self).wf(),
            final(self).cap == old(self).cap,
            match r {
                Ok(()) => !old(self).is_full() && final(self).queued() == old(
                    self,
                ).queued().push(t) && final(self).sent@ == old(self).sent@.push(t)
                    && final(self).taken@ == old(self).taken@,
                Err(t2) => old(self).is_full() && t2 == t && *final(self) == *old(self),
            },
    {
        if self.items.len() >= self.cap {
            Err(t)
        } else {
            let ghost sent0 = self.sent@;
            self.items.push(t);
            proof {
                self.sent@ = sent0.push(t);
                assert(self.sent@ =~= self.taken@ + self.items@);
            }
            Ok(())
        }
    }

    /// Dequeues the oldest message, if any; order is send order.
    pub fn recv(&mut self) -> (r: Option<T>)
        requires
            old(self).wf(),
        ensures
            final(self).wf(),
            final(self).cap == old(self).cap,
            final(self).sent@ == old(self).sent@,
            match r {
                Some(_) => old(self).queued().len() > 0 && final(self).queued() == old(
                    self,
                ).queued().skip(1) && final(self).taken@ == old(self).taken@.push(
                    old(self).queued()[0],
                ),
                None => old(self).queued().len() == 0 && *final(self) == *old(self),
            },
            r matches Some(x) ==> x == old(self).queued()[0],
    {
        if self.items.len() == 0 {
            None
        } else {
            let ghost taken0 = self.taken@;
            let ghost items0 = self.items@;
            let x = self.items.remove(0);
            proof {
                self.taken@ = taken0.push(items0[0]);
                assert(self.items@ =~= items0.skip(1));
                assert(self.sent@ =~= self.taken@ + self.items@);
            }
            Some(x)
        }
    }
}

/// Law: no loss under backpressure. However fast producers push, every
/// message ever accepted by a pipe is accounted for at all times: it has
/// either been handed out downstream or still sits in the queue, in order —
/// and a refused send leaves the message with the producer. None vanish.
pub proof fn lemma_pipe_loses_nothing<T>(p: Pipe<T>)
    requires
        p.wf(),
    ensures
        p.sent@ =~= p.taken@ + p.queued(),
        p.sent@.len() == p.taken@.len() + p.queued().len(),
{
}

} // verus!
