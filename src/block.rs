//! A block of the board and the state that it carries.
use vstd::prelude::*;

verus! {

/// Milliseconds that a falling block waits, once it has started to fall or
/// has just stepped down, before it tries its next step.
pub const SETTLE_THRESHOLD_MS: u64 = 300;

/// Height of one row on screen, in the host's units.
pub const ROW_HEIGHT: i32 = 32;

/// What is attached to a block.
#[derive(Clone, Copy, Debug, PartialEq, Eq, Structural)]
pub enum BlockState {
    /// Resting, subject to nothing.
    Normal,
    /// Logically deleted; destroyed by the next reap.
    Removed,
    /// Subject to gravity; `settle_timer` counts the milliseconds since the
    /// block started to fall or last stepped down.
    Falling { settle_timer: u64 },
}

/// A unit block at column `x` and row `y` (row 0 is the bottom row).
#[derive(Clone, Copy, Debug, PartialEq, Eq, Structural)]
pub struct Block {
    /// Handle that identifies the block for the host.
    pub id: u64,
    pub x: i32,
    pub y: i32,
    pub state: BlockState,
}

impl Block {
    pub open spec fn is_removed(self) -> bool {
        self.state is Removed
    }

    pub open spec fn is_falling(self) -> bool {
        self.state is Falling
    }

    pub open spec fn at(self, x: int, y: int) -> bool {
        self.x == x && self.y == y
    }

    /// The block with its state replaced.
    pub open spec fn with_state(self, state: BlockState) -> Block {
        Block { state, ..self }
    }

    pub fn is_removed_exec(&self) -> (r: bool)
        ensures
            r == self.is_removed(),
    {
        match self.state {
            BlockState::Removed => true,
            _ => false,
        }
    }
}

} // verus!
