//! Per-actor combat state: health, status flags and the mutually exclusive
//! action state.

use vstd::prelude::*;
use crate::timer::Timer;

verus! {

/// Hit points, clamped at zero; `max` is the pool the actor started with.
#[derive(Clone, Copy, PartialEq, Eq, Structural, Debug)]
pub struct Health {
    value: u64,
    max: u64,
}

impl Health {
    #[verifier::type_invariant]
    pub closed spec fn inv(self) -> bool {
        self.value <= self.max
    }

    pub closed spec fn spec_value(self) -> u64 {
        self.value
    }

    pub closed spec fn spec_max(self) -> u64 {
        self.max
    }

    pub fn new(value: u64) -> (r: Health)
        ensures
            r.spec_value() == value,
            r.spec_max() == value,
    {
        Health { value, max: value }
    }

    pub fn get(&self) -> (r: u64)
        ensures
            r == self.spec_value(),
    {
        self.value
    }

    pub fn max(&self) -> (r: u64)
        ensures
            r == self.spec_max(),
    {
        self.max
    }

    /// Subtract `amount` with a floor at zero and return the remaining value.
    /// Health never goes below zero.
    pub fn damage(&mut self, amount: u64) -> (remaining: u64)
        ensures
            final(self).spec_max() == old(self).spec_max(),
            final(self).spec_value() == if old(self).spec_value() >= amount {
                old(self).spec_value() - amount
            } else {
                0int
            },
            remaining == final(self).spec_value(),
    {
        proof {
            use_type_invariant(&*self);
        }
        self.value = self.value.saturating_sub(amount);
        self.value
    }
}

impl Default for Health {
    /// The stock pool of an unconfigured actor.
    fn default() -> (r: Health)
        ensures
            r.spec_value() == 30,
            r.spec_max() == 30,
    {
        Health { value: 30, max: 30 }
    }
}

/// The mutually exclusive behavioural mode of an actor, recomputed every tick.
#[derive(Clone, Copy, PartialEq, Eq, Structural, Debug)]
pub enum ActionState {
    Idle,
    Moving,
    Attacking,
    Stunned,
}

impl Default for ActionState {
    fn default() -> (r: ActionState)
        ensures
            r is Idle,
    {
        ActionState::Idle
    }
}

/// Status conditions, each an independent flag.
#[derive(Clone, Copy, PartialEq, Eq, Structural, Debug)]
pub struct Status {
    pub stunned: bool,
    pub rooted: bool,
}

impl Status {
    pub fn empty() -> (r: Status)
        ensures
            !r.stunned,
            !r.rooted,
    {
        Status { stunned: false, rooted: false }
    }
}

/// A stun in progress: the actor is stunned until the timer finishes.
#[derive(Clone, Copy, PartialEq, Eq, Structural, Debug)]
pub struct Stunned {
    pub timer: Timer,
}

impl Stunned {
    pub fn new(duration_ms: u64) -> (r: Stunned)
        ensures
            r.timer.spec_elapsed() == 0,
            r.timer.spec_duration() == duration_ms,
    {
        Stunned { timer: Timer::new(duration_ms) }
    }
}

/// Advance an actor's stun by the tick's delta and recompute its status
/// flags: the stunned flag holds exactly while a stun is still running; a
/// finished stun is dropped.
pub fn sync_status_flags(stunned: Option<Stunned>, delta_ms: u64) -> (r: (
    Status,
    Option<Stunned>,
))
    ensures
        match stunned {
            None => !r.0.stunned && r.1 is None,
            Some(s) => {
                let ticked = s.timer.spec_elapsed() + delta_ms >= s.timer.spec_duration();
                &&& r.0.stunned == !ticked
                &&& (ticked ==> r.1 is None)
                &&& (!ticked ==> (r.1 matches Some(s2) && s2.timer.spec_duration()
                    == s.timer.spec_duration() && s2.timer.spec_elapsed() == s.timer.spec_elapsed()
                    + delta_ms))
            },
        },
        !r.0.rooted,
{
    match stunned {
        None => (Status::empty(), None),
        Some(s) => {
            let mut timer = s.timer;
            timer.tick(delta_ms);
            if timer.finished() {
                (Status::empty(), None)
            } else {
                (Status { stunned: true, rooted: false }, Some(Stunned { timer }))
            }
        },
    }
}

/// Project status flags onto the action state: a stunned actor is `Stunned`;
/// when the stun clears, a previously stunned actor returns to `Idle`; any
/// other state is left alone.
pub fn status_flags_to_action_state(flags: Status, current: ActionState) -> (r: ActionState)
    ensures
        flags.stunned ==> r is Stunned,
        !flags.stunned && current is Stunned ==> r is Idle,
        !flags.stunned && !(current is Stunned) ==> r == current,
{
    if flags.stunned {
        ActionState::Stunned
    } else if current == ActionState::Stunned {
        ActionState::Idle
    } else {
        current
    }
}

} // verus!
