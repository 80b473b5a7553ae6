//! What it means to be asked to stop.

use vstd::prelude::*;

verus! {

/// Whoever asks `stop` is told to stop.
pub open spec fn always<F: Fn() -> bool>(stop: F) -> bool {
    forall|b: bool| #[trigger] stop.ensures((), b) ==> b
}

} // verus!
