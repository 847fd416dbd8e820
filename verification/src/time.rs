//! Moments on the monotonic clock, in milliseconds since an arbitrary start.
use vstd::prelude::*;

verus! {

/// The latest moment to which every delay of this library can be added: a
/// minute before the end of the clock's range.
pub const LATEST: u64 = 18446744073709491615;

} // verus!
