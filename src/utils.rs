use vstd::prelude::*;

verus! {

/// Identifies one instrument's book.
#[derive(Debug, Clone, Copy, PartialEq, Eq, Structural)]
pub struct BookId(pub u16);

/// The number of level slots a new pool reserves; a hint, not a bound.
pub const MAX_LEVELS: usize = 1024;

} // verus!
