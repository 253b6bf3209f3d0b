//! The recursion-depth bound shared by every parser.

use vstd::prelude::*;

use crate::error::Error;

verus! {

/// The maximum structural nesting depth any parser descends before returning
/// [`Error::MaxDepthExceeded`].
pub const MAX_PARSE_DEPTH: usize = 128;

/// A nesting counter: `enter` on the way into a frame, `leave` on the way
/// out of a frame that `enter` admitted.
#[derive(Debug, Clone, Copy, PartialEq, Eq, Structural)]
pub struct DepthCounter {
    /// The number of frames currently open (or attempted, after a refusal).
    pub depth: usize,
}

impl DepthCounter {
    /// A counter with no frame open.
    pub fn new() -> (r: DepthCounter)
        ensures
            r.depth == 0,
    {
        DepthCounter { depth: 0 }
    }

    /// A counter that already holds `depth` frames.
    pub fn at(depth: usize) -> (r: DepthCounter)
        ensures
            r.depth == depth,
    {
        DepthCounter { depth }
    }

    /// The current depth.
    pub fn get(&self) -> (r: usize)
        ensures
            r == self.depth,
    {
        self.depth
    }

    /// Increments the depth (saturating), then fails when the new depth
    /// exceeds [`MAX_PARSE_DEPTH`]. A refused frame stays counted.
    pub fn enter(&mut self) -> (r: Result<(), Error>)
        ensures
            final(self).depth == (if old(self).depth == usize::MAX {
                usize::MAX as int
            } else {
                old(self).depth + 1
            }),
            r is Ok <==> final(self).depth <= MAX_PARSE_DEPTH,
            r matches Err(e) ==> e is MaxDepthExceeded,
    {
        let entered = self.depth.saturating_add(1);
        self.depth = entered;
        if entered > MAX_PARSE_DEPTH {
            return Err(Error::MaxDepthExceeded);
        }
        Ok(())
    }

    /// Closes one frame (saturating at zero).
    pub fn leave(&mut self)
        ensures
            final(self).depth == (if old(self).depth == 0 {
                0
            } else {
                old(self).depth - 1
            }),
    {
        self.depth = self.depth.saturating_sub(1);
    }
}

/// Entering then leaving restores the counter, whenever the entry was
/// admitted.
pub proof fn enter_leave_restores(before: usize, entered: usize, after: usize)
    requires
        entered == (if before == usize::MAX { usize::MAX as int } else { before + 1 }),
        entered <= MAX_PARSE_DEPTH,
        after == (if entered == 0 { 0 } else { entered - 1 }),
    ensures
        after == before,
{
}

} // verus!
