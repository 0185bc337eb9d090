//! The order of timed coordinates: by their timestep alone.

use crate::inputs::TimedCoordinate;
use std::cmp::Ordering;
use vstd::prelude::*;
use vstd::std_specs::cmp::PartialOrdSpecImpl;

verus! {

impl PartialOrd for TimedCoordinate {
    fn partial_cmp(&self, other: &Self) -> (r: Option<Ordering>) {
        if self.t < other.t {
            Some(Ordering::Less)
        } else if self.t > other.t {
            Some(Ordering::Greater)
        } else {
            Some(Ordering::Equal)
        }
    }
}

impl PartialOrdSpecImpl for TimedCoordinate {
    open spec fn obeys_partial_cmp_spec() -> bool {
        true
    }

    open spec fn partial_cmp_spec(&self, other: &Self) -> Option<Ordering> {
        if self.t < other.t {
            Some(Ordering::Less)
        } else if self.t > other.t {
            Some(Ordering::Greater)
        } else {
            Some(Ordering::Equal)
        }
    }
}

} // verus!
