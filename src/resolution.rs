//! Gravity: falling blocks step down one row at a time.
//!
//! Every falling block is judged against the board as it stood when the tick
//! began, so the outcome does not depend on the order in which the blocks are
//! stored. A block that steps down starts its settle timer again from zero; a
//! block that is blocked keeps its timer and tries again on the next tick.
use vstd::prelude::*;
use crate::block::{Block, BlockState, ROW_HEIGHT, SETTLE_THRESHOLD_MS};
use crate::board::{Board, board_ok, occupied};

verus! {

/// A block that stepped down, reported so that the host can move its picture.
#[derive(Clone, Copy, Debug, PartialEq, Eq, Structural)]
pub struct BlockMove {
    /// The block's handle.
    pub id: u64,
    /// Its new column.
    pub x: i32,
    /// Its new row.
    pub y: i32,
    /// How far its picture moves up, in the host's units (negative: down).
    pub dy: i32,
}

/// `a + b`, held at `u64::MAX`.
pub open spec fn sat_add(a: u64, b: u64) -> u64 {
    if a + b > u64::MAX { u64::MAX } else { (a + b) as u64 }
}

/// What one resolution tick of `elapsed` milliseconds makes of block `i`.
pub open spec fn resolved(s: Seq<Block>, i: int, elapsed: u64) -> Block {
    let b = s[i];
    match b.state {
        BlockState::Falling { settle_timer } => {
            if settle_timer <= SETTLE_THRESHOLD_MS {
                b.with_state(BlockState::Falling { settle_timer: sat_add(settle_timer, elapsed) })
            } else if b.y == 0 {
                b.with_state(BlockState::Normal)
            } else if occupied(s, b.x as int, b.y - 1) {
                b
            } else {
                Block { y: (b.y - 1) as i32, state: BlockState::Falling { settle_timer: 0 }, ..b }
            }
        },
        _ => b,
    }
}

/// The board after one resolution tick of `elapsed` milliseconds.
pub open spec fn resolved_all(s: Seq<Block>, elapsed: u64) -> Seq<Block> {
    Seq::new(s.len(), |i: int| resolved(s, i, elapsed))
}

/// The report for a block that has just stepped down.
pub open spec fn move_of(b: Block) -> BlockMove {
    BlockMove { id: b.id, x: b.x, y: b.y, dy: -ROW_HEIGHT as i32 }
}

/// The moves of a resolution tick among the first `n` blocks, in storage order.
pub open spec fn resolution_moves(s: Seq<Block>, elapsed: u64, n: int) -> Seq<BlockMove>
    decreases n,
{
    if n <= 0 {
        Seq::empty()
    } else {
        let before = resolution_moves(s, elapsed, n - 1);
        let b = resolved(s, n - 1, elapsed);
        if b.y != s[n - 1].y {
            before.push(move_of(b))
        } else {
            before
        }
    }
}

impl Board {
    /// What one resolution tick makes of block `i`.
    fn resolve_block(&self, i: usize, elapsed_ms: u64) -> (r: Block)
        requires
            i < self@.len(),
            self.inv(),
        ensures
            r == resolved(self@, i as int, elapsed_ms),
    {
        let b = self.blocks[i];
        match b.state {
            BlockState::Falling { settle_timer } => {
                if settle_timer <= SETTLE_THRESHOLD_MS {
                    Block { state: BlockState::Falling { settle_timer: settle_timer.saturating_add(elapsed_ms) }, ..b }
                } else if b.y == 0 {
                    Block { state: BlockState::Normal, ..b }
                } else if self.is_occupied(b.x, b.y - 1) {
                    b
                } else {
                    Block { y: b.y - 1, state: BlockState::Falling { settle_timer: 0 }, ..b }
                }
            },
            _ => b,
        }
    }

    /// Advances every falling block by `elapsed_ms` milliseconds. A falling
    /// block whose settle timer is at most the threshold adds the time to it.
    /// One whose timer is past the threshold takes one step: on the bottom
    /// row it stops falling; on a block it stays where it is; otherwise it
    /// moves down one row and its timer starts again. Returns the moves.
    pub fn tick_resolution(&mut self, elapsed_ms: u64) -> (moves: Vec<BlockMove>)
        requires
            old(self).inv(),
        ensures
            final(self).inv(),
            final(self)@ == resolved_all(old(self)@, elapsed_ms),
            moves@ == resolution_moves(old(self)@, elapsed_ms, old(self)@.len() as int),
    {
        let n = self.blocks.len();
        let mut next: Vec<Block> = Vec::new();
        let mut moves: Vec<BlockMove> = Vec::new();
        let mut i: usize = 0;
        while i < n
            invariant
                n == self@.len(),
                self.inv(),
                0 <= i <= n,
                next@.len() == i,
                forall|k: int| 0 <= k < i ==> next@[k] == resolved(self@, k, elapsed_ms),
                moves@ == resolution_moves(self@, elapsed_ms, i as int),
            decreases n - i,
        {
            let b = self.blocks[i];
            let nb = self.resolve_block(i, elapsed_ms);
            if nb.y != b.y {
                moves.push(BlockMove { id: nb.id, x: nb.x, y: nb.y, dy: -ROW_HEIGHT });
            }
            next.push(nb);
            i = i + 1;
        }
        proof {
            assert(next@ =~= resolved_all(self@, elapsed_ms));
            lemma_resolution_keeps_board_ok(self@, elapsed_ms);
        }
        self.blocks = next;
        moves
    }
}

/// A resolution tick keeps a board well formed.
pub proof fn lemma_resolution_keeps_board_ok(s: Seq<Block>, elapsed: u64)
    requires
        board_ok(s),
    ensures
        board_ok(resolved_all(s, elapsed)),
{
    let t = resolved_all(s, elapsed);
    assert forall|i: int, j: int|
        0 <= i < t.len() && 0 <= j < t.len() && i != j && !t[i].is_removed() && !t[j].is_removed()
            implies !(#[trigger] t[i]).at(t[j].x as int, (#[trigger] t[j]).y as int) by {
        if t[i].y != s[i].y && t[j].y == s[j].y {
            assert(!s[j].is_removed());
        } else if t[j].y != s[j].y && t[i].y == s[i].y {
            assert(!s[i].is_removed());
        } else {
            assert(!s[i].at(s[j].x as int, s[j].y as int));
        }
    }
    assert forall|i: int, j: int| 0 <= i < j < t.len() implies (#[trigger] t[i]).id < (#[trigger] t[j]).id by {
        assert(s[i].id < s[j].id);
    }
    assert forall|i: int| 0 <= i < t.len() implies 0 <= (#[trigger] t[i]).x && 0 <= t[i].y by {
        assert(0 <= s[i].x && 0 <= s[i].y);
    }
}

} // verus!
