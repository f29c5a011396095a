//! Elapsed-duration timers. Time is carried as whole milliseconds; the tick
//! advances a timer by the wall-clock delta and clamps at the duration.

use vstd::prelude::*;

verus! {

/// A one-shot timer: `elapsed` grows with each tick and stops at `duration`.
#[derive(Clone, Copy, PartialEq, Eq, Structural, Debug)]
pub struct Timer {
    elapsed_ms: u64,
    duration_ms: u64,
}

impl Timer {
    #[verifier::type_invariant]
    pub closed spec fn inv(self) -> bool {
        self.elapsed_ms <= self.duration_ms
    }

    pub closed spec fn spec_elapsed(self) -> u64 {
        self.elapsed_ms
    }

    pub closed spec fn spec_duration(self) -> u64 {
        self.duration_ms
    }

    /// A timer is finished once its whole duration has elapsed.
    pub open spec fn spec_finished(self) -> bool {
        self.spec_elapsed() >= self.spec_duration()
    }

    /// More than half of the duration has elapsed.
    pub open spec fn spec_past_midpoint(self) -> bool {
        2 * self.spec_elapsed() >= self.spec_duration()
    }

    pub fn new(duration_ms: u64) -> (r: Timer)
        ensures
            r.spec_elapsed() == 0,
            r.spec_duration() == duration_ms,
    {
        Timer { elapsed_ms: 0, duration_ms }
    }

    /// Advance by a wall-clock delta; the elapsed time clamps at the duration.
    pub fn tick(&mut self, delta_ms: u64)
        ensures
            final(self).spec_duration() == old(self).spec_duration(),
            final(self).spec_elapsed() == if old(self).spec_elapsed() + delta_ms <= old(
                self,
            ).spec_duration() {
                old(self).spec_elapsed() + delta_ms
            } else {
                old(self).spec_duration() as int
            },
    {
        proof {
            use_type_invariant(&*self);
        }
        let advanced = self.elapsed_ms.saturating_add(delta_ms);
        self.elapsed_ms = if advanced <= self.duration_ms {
            advanced
        } else {
            self.duration_ms
        };
    }

    pub fn finished(&self) -> (r: bool)
        ensures
            r == self.spec_finished(),
    {
        self.elapsed_ms >= self.duration_ms
    }

    /// Whether at least half of the duration has elapsed.
    pub fn past_midpoint(&self) -> (r: bool)
        ensures
            r == self.spec_past_midpoint(),
    {
        proof {
            use_type_invariant(&*self);
        }
        self.duration_ms - self.elapsed_ms <= self.elapsed_ms
    }

    pub fn remaining_ms(&self) -> (r: u64)
        ensures
            r == self.spec_duration() - self.spec_elapsed(),
    {
        proof {
            use_type_invariant(&*self);
        }
        self.duration_ms - self.elapsed_ms
    }

    pub fn reset(&mut self)
        ensures
            final(self).spec_elapsed() == 0,
            final(self).spec_duration() == old(self).spec_duration(),
    {
        self.elapsed_ms = 0;
    }

    /// How much of the duration has elapsed, in thousandths; 1000 once
    /// finished (a zero-duration timer counts as finished).
    pub fn fraction_permille(&self) -> (r: u64)
        ensures
            self.spec_duration() == 0 ==> r == 1000,
            self.spec_duration() > 0 ==> r == self.spec_elapsed() * 1000 / (
            self.spec_duration() as int),
            r <= 1000,
    {
        proof {
            use_type_invariant(&*self);
        }
        if self.duration_ms == 0 {
            return 1000;
        }
        let f = (self.elapsed_ms as u128 * 1000u128 / (self.duration_ms as u128)) as u64;
        proof {
            let e = self.elapsed_ms as int;
            let d = self.duration_ms as int;
            vstd::arithmetic::div_mod::lemma_div_is_ordered(e * 1000, d * 1000, d);
            assert(d * 1000 / d == 1000) by {
                vstd::arithmetic::div_mod::lemma_fundamental_div_mod_converse(d * 1000, d, 1000, 0);
            }
            assert(e * 1000 / d <= 1000);
        }
        f
    }
}

} // verus!
