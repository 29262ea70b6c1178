//! Lamport timestamps: a logical counter paired with the actor that minted it.

use crate::counter::stopped;
use std::cmp::Ordering;
use vstd::prelude::*;
use vstd::std_specs::cmp::PartialOrdSpecImpl;

verus! {

/// A Lamport timestamp. Timestamps are ordered by counter first and by actor second, so
/// two actors that reach the same counter are still ordered, always the same way.
#[derive(Clone, Copy, Debug, PartialEq, Eq, Structural, Ord, Hash)]
pub struct Clock {
    pub counter: u64,
    pub actor: u64,
}

impl Clock {
    /// The strict order on timestamps.
    pub open spec fn before(self, other: Clock) -> bool {
        self.counter < other.counter || (self.counter == other.counter && self.actor
            < other.actor)
    }

    /// The timestamp `n` ticks later on the same actor. The counter stops at `u64::MAX`.
    pub open spec fn ticked(self, n: nat) -> Clock {
        Clock { counter: stopped(self.counter + n), actor: self.actor }
    }

    /// This clock after it has seen `other`: the larger counter, the same actor.
    pub open spec fn merged(self, other: Clock) -> Clock {
        Clock {
            counter: if self.counter < other.counter {
                other.counter
            } else {
                self.counter
            },
            actor: self.actor,
        }
    }
}

impl PartialOrd for Clock {
    /// Compares two timestamps: by counter, and by actor where the counters agree.
    fn partial_cmp(&self, other: &Clock) -> (order: Option<Ordering>) {
        if self.counter < other.counter {
            Some(Ordering::Less)
        } else if self.counter > other.counter {
            Some(Ordering::Greater)
        } else if self.actor < other.actor {
            Some(Ordering::Less)
        } else if self.actor > other.actor {
            Some(Ordering::Greater)
        } else {
            Some(Ordering::Equal)
        }
    }
}

impl PartialOrdSpecImpl for Clock {
    open spec fn obeys_partial_cmp_spec() -> bool {
        true
    }

    open spec fn partial_cmp_spec(&self, other: &Clock) -> Option<Ordering> {
        if self.before(*other) {
            Some(Ordering::Less)
        } else if other.before(*self) {
            Some(Ordering::Greater)
        } else {
            Some(Ordering::Equal)
        }
    }
}

/// The order on timestamps is a strict total order: no timestamp is before itself, the
/// order is transitive, and of two different timestamps one is before the other.
pub proof fn lemma_clock_order_is_total(a: Clock, b: Clock, c: Clock)
    ensures
        !a.before(a),
        a.before(b) && b.before(c) ==> a.before(c),
        a.before(b) ==> !b.before(a),
        a != b ==> a.before(b) || b.before(a),
{
}

} // verus!
