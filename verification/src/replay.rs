//! Replay planning; only its identifying text exists so far.

use vstd::prelude::*;

verus! {

/// The identifying text of the replay planner.
pub fn placeholder() -> (r: &'static str)
    ensures
        r@ == "trace-replay-planner (S0 placeholder)"@,
{
    "trace-replay-planner (S0 placeholder)"
}

} // verus!
