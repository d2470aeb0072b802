//! Fall propagation: every block above a removed block in its column starts
//! to fall.
use vstd::prelude::*;
use crate::block::{Block, BlockState};
use crate::board::{Board, board_ok};

verus! {

/// The cell of a block, as (column, row).
pub open spec fn cell_of(b: Block) -> (i32, i32) {
    (b.x, b.y)
}

/// Cell `c` lies in the column of `b`, strictly below it.
pub open spec fn lies_below(c: (i32, i32), b: Block) -> bool {
    c.0 == b.x && c.1 < b.y
}

/// Some removed block lies in the column of `b`, strictly below it.
pub open spec fn above_removed(s: Seq<Block>, b: Block) -> bool {
    exists|j: int| 0 <= j < s.len() && s[j].is_removed() && lies_below(#[trigger] cell_of(s[j]), b)
}

/// What a propagation pass makes of block `i`: a normal block above a
/// removed one starts to fall with its timer at zero; every other block,
/// a falling one included, is left as it is.
pub open spec fn propagated(s: Seq<Block>, i: int) -> Block {
    let b = s[i];
    if b.state is Normal && above_removed(s, b) {
        b.with_state(BlockState::Falling { settle_timer: 0 })
    } else {
        b
    }
}

/// The board after a propagation pass.
pub open spec fn propagated_all(s: Seq<Block>) -> Seq<Block> {
    Seq::new(s.len(), |i: int| propagated(s, i))
}

/// The cells of the removed blocks, in storage order.
pub open spec fn removed_cells_of(s: Seq<Block>) -> Seq<(i32, i32)>
    decreases s.len(),
{
    if s.len() == 0 {
        Seq::empty()
    } else {
        let before = removed_cells_of(s.drop_last());
        if s.last().is_removed() {
            before.push(cell_of(s.last()))
        } else {
            before
        }
    }
}

/// Some cell of `cells` lies in the column of `b`, strictly below it.
pub open spec fn any_below(cells: Seq<(i32, i32)>, b: Block) -> bool {
    exists|q: int| 0 <= q < cells.len() && lies_below(#[trigger] cells[q], b)
}

/// Looking through the removed cells finds what looking through the removed
/// blocks finds.
pub proof fn lemma_removed_cells_below(s: Seq<Block>, b: Block)
    ensures
        any_below(removed_cells_of(s), b) == above_removed(s, b),
    decreases s.len(),
{
    if s.len() > 0 {
        let d = s.drop_last();
        let last = s.len() - 1;
        lemma_removed_cells_below(d, b);
        let cd = removed_cells_of(d);
        let cs = removed_cells_of(s);
        if any_below(cs, b) {
            let q = choose|q: int| 0 <= q < cs.len() && lies_below(#[trigger] cs[q], b);
            if q < cd.len() {
                assert(cs[q] == cd[q]);
                assert(any_below(cd, b));
                let j = choose|j: int| 0 <= j < d.len() && d[j].is_removed() && lies_below(#[trigger] cell_of(d[j]), b);
                assert(s[j] == d[j]);
            } else {
                assert(lies_below(cell_of(s[last]), b));
            }
        }
        if above_removed(s, b) {
            let j = choose|j: int| 0 <= j < s.len() && s[j].is_removed() && lies_below(#[trigger] cell_of(s[j]), b);
            if j < last {
                assert(d[j] == s[j]);
                assert(above_removed(d, b));
                let q = choose|q: int| 0 <= q < cd.len() && lies_below(#[trigger] cd[q], b);
                assert(cs[q] == cd[q]);
            } else {
                assert(cs[cs.len() - 1] == cell_of(s[last]));
            }
        }
    }
}

impl Board {
    /// The cells of the removed blocks, in storage order.
    pub fn removed_cells(&self) -> (r: Vec<(i32, i32)>)
        ensures
            r@ == removed_cells_of(self@),
    {
        let mut r: Vec<(i32, i32)> = Vec::new();
        let mut i: usize = 0;
        while i < self.blocks.len()
            invariant
                0 <= i <= self@.len(),
                r@ == removed_cells_of(self@.take(i as int)),
            decreases self@.len() - i,
        {
            let b = self.blocks[i];
            assert(self@.take(i + 1).drop_last() =~= self@.take(i as int));
            if b.is_removed_exec() {
                r.push((b.x, b.y));
            }
            i = i + 1;
        }
        assert(self@.take(i as int) =~= self@);
        r
    }

    /// Marks as falling, with its timer at zero, every normal block that
    /// stands above a removed block in its column. Blocks that already fall
    /// keep their timers.
    pub fn tick_propagation(&mut self)
        requires
            old(self).inv(),
        ensures
            final(self).inv(),
            final(self)@ == propagated_all(old(self)@),
    {
        let cells = self.removed_cells();
        let n = self.blocks.len();
        let mut next: Vec<Block> = Vec::new();
        let mut i: usize = 0;
        while i < n
            invariant
                n == self@.len(),
                0 <= i <= n,
                next@.len() == i,
                forall|k: int| 0 <= k < i ==> next@[k] == propagated(self@, k),
                cells@ == removed_cells_of(self@),
            decreases n - i,
        {
            let b = self.blocks[i];
            let mut nb = b;
            if let BlockState::Normal = b.state {
                let mut found = false;
                let mut p: usize = 0;
                while p < cells.len()
                    invariant
                        0 <= p <= cells@.len(),
                        found == exists|q: int| 0 <= q < p && lies_below(#[trigger] cells@[q], b),
                    decreases cells@.len() - p,
                {
                    let c = cells[p];
                    if c.0 == b.x && c.1 < b.y {
                        found = true;
                    }
                    p = p + 1;
                }
                proof {
                    lemma_removed_cells_below(self@, b);
                }
                if found {
                    nb = Block { state: BlockState::Falling { settle_timer: 0 }, ..b };
                }
            }
            next.push(nb);
            i = i + 1;
        }
        proof {
            assert(next@ =~= propagated_all(self@));
            lemma_propagation_keeps_board_ok(self@);
        }
        self.blocks = next;
    }
}

/// A propagation pass keeps a board well formed.
pub proof fn lemma_propagation_keeps_board_ok(s: Seq<Block>)
    requires
        board_ok(s),
    ensures
        board_ok(propagated_all(s)),
{
    let t = propagated_all(s);
    assert forall|i: int, j: int|
        0 <= i < t.len() && 0 <= j < t.len() && i != j && !t[i].is_removed() && !t[j].is_removed()
            implies !(#[trigger] t[i]).at(t[j].x as int, (#[trigger] t[j]).y as int) by {
        assert(!s[i].at(s[j].x as int, s[j].y as int));
    }
    assert forall|i: int, j: int| 0 <= i < j < t.len() implies (#[trigger] t[i]).id < (#[trigger] t[j]).id by {
        assert(s[i].id < s[j].id);
    }
    assert forall|i: int| 0 <= i < t.len() implies 0 <= (#[trigger] t[i]).x && 0 <= t[i].y by {
        assert(0 <= s[i].x && 0 <= s[i].y);
    }
}

} // verus!
