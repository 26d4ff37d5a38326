//! The decisions of the loops that read or write a whole buffer over a
//! stream, one call at a time.
use vstd::prelude::*;

verus! {

/// What one read or write call on a stream did.
#[derive(Clone, Copy, Debug, PartialEq, Eq, Structural)]
pub enum IoOutcome {
    /// It moved this many bytes.
    Moved(usize),
    /// It was interrupted before moving anything.
    Interrupted,
    /// It failed.
    Failed,
}

/// After `total` of `size` bytes have moved, the call's outcome decides the
/// new total, or that the transfer stops: a call that moves nothing or fails
/// ends it, an interrupted call is retried.
pub fn transfer_step(total: usize, size: usize, outcome: IoOutcome) -> (next: Option<usize>)
    requires
        total <= size,
        outcome matches IoOutcome::Moved(n) ==> total + n <= size,
    ensures
        next == (match outcome {
            IoOutcome::Moved(n) => if n == 0 {
                None
            } else {
                Some((total + n) as usize)
            },
            IoOutcome::Interrupted => Some(total),
            IoOutcome::Failed => None,
        }),
{
    match outcome {
        IoOutcome::Moved(0) => None,
        IoOutcome::Moved(n) => Some(total + n),
        IoOutcome::Interrupted => Some(total),
        IoOutcome::Failed => None,
    }
}

} // verus!
