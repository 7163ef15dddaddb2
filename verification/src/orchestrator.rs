use vstd::prelude::*;
use crate::retention::{displaced, offer_post, sorted_desc, RetentionSet};
use crate::run::Run;

verus! {

/// The attempt loop as a state machine: a configured number of attempts
/// ticks down to zero, and each tick may offer one scored run to the
/// retention set. The caller performs the outside work of an attempt —
/// fresh seed, worker process, artifact read — and hands in its outcome;
/// the machine decides what survives and which artifact must go.
pub struct Orchestrator {
    remaining: usize,
    set: RetentionSet,
}

impl Orchestrator {
    /// Attempts still to perform.
    pub closed spec fn remaining(&self) -> nat {
        self.remaining as nat
    }

    /// The runs the retention set holds, best first.
    pub closed spec fn held(&self) -> Seq<Run> {
        self.set@
    }

    /// The retention set's fixed capacity.
    pub closed spec fn cap(&self) -> nat {
        self.set.cap()
    }

    pub closed spec fn inv(&self) -> bool {
        self.set.wf()
    }

    pub fn new(attempts: usize, capacity: usize) -> (o: Orchestrator)
        ensures
            o.inv(),
            o.remaining() == attempts,
            o.cap() == capacity,
            o.held() == Seq::<Run>::empty(),
    {
        Orchestrator { remaining: attempts, set: RetentionSet::new(capacity) }
    }

    /// All configured attempts are exhausted.
    pub fn is_done(&self) -> (b: bool)
        ensures
            b <==> self.remaining() == 0,
    {
        self.remaining == 0
    }

    /// Record one attempt. A failed attempt — the worker could not run,
    /// or its artifact yielded no score — leaves the set untouched, and
    /// the attempt is spent either way. A scored run is offered to the
    /// set; the returned run is the one whose artifact file the caller
    /// must now delete, if any.
    pub fn record_attempt(&mut self, outcome: Option<Run>) -> (displaced_run: Option<Run>)
        requires
            old(self).inv(),
            old(self).remaining() > 0,
        ensures
            final(self).inv(),
            final(self).cap() == old(self).cap(),
            final(self).remaining() == old(self).remaining() - 1,
            match outcome {
                None => final(self).held() == old(self).held() && displaced_run.is_none(),
                Some(run) => offer_post(old(self).held(), old(self).cap(), run, final(self).held())
                    && displaced_run == displaced(old(self).held(), old(self).cap(), run),
            },
    {
        self.remaining = self.remaining - 1;
        match outcome {
            None => None,
            Some(run) => self.set.offer(run),
        }
    }

    /// After the last attempt: consume the machine and hand out the
    /// surviving runs, best first. Ownership of their artifacts passes to
    /// the caller.
    pub fn finish(self) -> (out: Vec<Run>)
        requires
            self.inv(),
            self.remaining() == 0,
        ensures
            out@ == self.held(),
            sorted_desc(out@),
            forall|k: int| 0 <= k < out@.len() ==> out@[0].score >= #[trigger] out@[k].score,
    {
        self.set.drain_sorted_descending()
    }
}

} // verus!
