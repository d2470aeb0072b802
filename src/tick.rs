//! One whole tick: removal, propagation, resolution, reaping, in that order.
use vstd::prelude::*;
use crate::block::Block;
use crate::board::Board;
use crate::lifecycle::{kept, reaped_ids};
use crate::propagation::propagated_all;
use crate::resolution::{BlockMove, resolution_moves, resolved_all};
use crate::trigger::{first_eligible, triggered};

verus! {

/// What a tick hands back to the host.
pub struct TickReport {
    /// Handle of the block that the removal signal marked, if any.
    pub removed: Option<u64>,
    /// The blocks that stepped down.
    pub moves: Vec<BlockMove>,
    /// Handles of the blocks destroyed at the end of the tick.
    pub reaped: Vec<u64>,
}

/// The board after the removal signal, if there was one.
pub open spec fn signalled(s: Seq<Block>, remove: bool) -> Seq<Block> {
    if remove { triggered(s) } else { s }
}

/// The board just before reaping.
pub open spec fn before_reap(s: Seq<Block>, remove: bool, elapsed: u64) -> Seq<Block> {
    resolved_all(propagated_all(signalled(s, remove)), elapsed)
}

/// The board after a whole tick.
pub open spec fn ticked(s: Seq<Block>, remove: bool, elapsed: u64) -> Seq<Block> {
    kept(before_reap(s, remove, elapsed))
}

impl Board {
    /// Runs one tick of `elapsed_ms` milliseconds: handles the removal
    /// signal if `remove_requested`, marks the blocks above removed ones as
    /// falling, moves the falling blocks, and destroys the removed ones.
    pub fn tick(&mut self, remove_requested: bool, elapsed_ms: u64) -> (r: TickReport)
        requires
            old(self).inv(),
        ensures
            final(self).inv(),
            final(self)@ == ticked(old(self)@, remove_requested, elapsed_ms),
            r.removed is Some <==> signalled(old(self)@, remove_requested) != old(self)@,
            r.removed matches Some(id) ==> exists|i: int|
                first_eligible(old(self)@, i) && #[trigger] old(self)@[i].id == id,
            r.moves@ == resolution_moves(
                propagated_all(signalled(old(self)@, remove_requested)),
                elapsed_ms,
                old(self)@.len() as int,
            ),
            r.reaped@ == reaped_ids(before_reap(old(self)@, remove_requested, elapsed_ms)),
    {
        let removed = if remove_requested {
            self.on_remove_signal()
        } else {
            None
        };
        proof {
            if removed is Some {
                let i = choose|i: int| first_eligible(old(self)@, i);
                assert(self@[i] != old(self)@[i]);
            }
        }
        self.tick_propagation();
        let moves = self.tick_resolution(elapsed_ms);
        let reaped = self.reap();
        TickReport { removed, moves, reaped }
    }
}

} // verus!
