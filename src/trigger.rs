//! Removal: a signal from the host marks one block as removed.
use vstd::prelude::*;
use crate::block::{Block, BlockState};
use crate::board::{Board, board_ok, occupied};

verus! {

/// A block that a removal signal may pick: neither removed nor falling.
pub open spec fn eligible(b: Block) -> bool {
    b.state is Normal
}

/// Index `i` holds the first eligible block in storage order.
pub open spec fn first_eligible(s: Seq<Block>, i: int) -> bool {
    0 <= i < s.len() && eligible(s[i]) && forall|j: int| 0 <= j < i ==> !eligible(#[trigger] s[j])
}

/// The board with block `i` marked as removed.
pub open spec fn removed_at_index(s: Seq<Block>, i: int) -> Seq<Block> {
    s.update(i, s[i].with_state(BlockState::Removed))
}

/// The board after one removal signal: the first eligible block is marked
/// as removed; with none, the board is unchanged.
pub open spec fn triggered(s: Seq<Block>) -> Seq<Block> {
    if exists|i: int| first_eligible(s, i) {
        removed_at_index(s, choose|i: int| first_eligible(s, i))
    } else {
        s
    }
}

/// There is at most one first eligible block.
pub proof fn lemma_first_eligible_unique(s: Seq<Block>, i: int, j: int)
    requires
        first_eligible(s, i),
        first_eligible(s, j),
    ensures
        i == j,
{
    if i < j {
        assert(!eligible(s[i]));
    } else if j < i {
        assert(!eligible(s[j]));
    }
}

/// Marking a block as removed keeps a board well formed.
pub proof fn lemma_removal_keeps_board_ok(s: Seq<Block>, i: int)
    requires
        board_ok(s),
        0 <= i < s.len(),
    ensures
        board_ok(removed_at_index(s, i)),
{
    let t = removed_at_index(s, i);
    assert forall|a: int, b: int|
        0 <= a < t.len() && 0 <= b < t.len() && a != b && !t[a].is_removed() && !t[b].is_removed()
            implies !(#[trigger] t[a]).at(t[b].x as int, (#[trigger] t[b]).y as int) by {
        assert(!s[a].at(s[b].x as int, s[b].y as int));
    }
    assert forall|a: int, b: int| 0 <= a < b < t.len() implies (#[trigger] t[a]).id < (#[trigger] t[b]).id by {
        assert(s[a].id < s[b].id);
    }
    assert forall|a: int| 0 <= a < t.len() implies 0 <= (#[trigger] t[a]).x && 0 <= t[a].y by {
        assert(0 <= s[a].x && 0 <= s[a].y);
    }
}

impl Board {
    fn mark_removed(&mut self, i: usize)
        requires
            old(self).inv(),
            i < old(self)@.len(),
        ensures
            final(self).inv(),
            final(self)@ == removed_at_index(old(self)@, i as int),
    {
        let b = self.blocks[i];
        proof { lemma_removal_keeps_board_ok(self@, i as int); }
        self.blocks.set(i, Block { state: BlockState::Removed, ..b });
        assert(self@ =~= removed_at_index(old(self)@, i as int));
    }

    /// Handles one removal signal: marks the first block in storage order
    /// that is neither removed nor falling as removed, and returns its
    /// handle. With no such block the board is left as it is.
    pub fn on_remove_signal(&mut self) -> (r: Option<u64>)
        requires
            old(self).inv(),
        ensures
            final(self).inv(),
            r is None <==> forall|j: int| 0 <= j < old(self)@.len() ==> !eligible(#[trigger] old(self)@[j]),
            final(self)@ == triggered(old(self)@),
            r matches Some(id) ==> exists|i: int|
                first_eligible(old(self)@, i) && id == old(self)@[i].id
                    && final(self)@ == #[trigger] removed_at_index(old(self)@, i),
    {
        let mut i: usize = 0;
        while i < self.blocks.len()
            invariant
                0 <= i <= self@.len(),
                self@ == old(self)@,
                self.inv(),
                forall|j: int| 0 <= j < i ==> !eligible(#[trigger] self@[j]),
            decreases self@.len() - i,
        {
            let b = self.blocks[i];
            if let BlockState::Normal = b.state {
                self.mark_removed(i);
                assert(first_eligible(old(self)@, i as int));
                proof {
                    let c = choose|c: int| first_eligible(old(self)@, c);
                    lemma_first_eligible_unique(old(self)@, i as int, c);
                }
                return Some(b.id);
            }
            i = i + 1;
        }
        None
    }

    /// Marks as removed the block that stands at (x, y) and is not removed,
    /// and returns its handle. With no such block the board is left as it is.
    pub fn remove_at(&mut self, x: i32, y: i32) -> (r: Option<u64>)
        requires
            old(self).inv(),
        ensures
            final(self).inv(),
            r is Some <==> occupied(old(self)@, x as int, y as int),
            r is None ==> final(self)@ == old(self)@,
            r matches Some(id) ==> exists|i: int|
                0 <= i < old(self)@.len() && !old(self)@[i].is_removed() && old(self)@[i].at(x as int, y as int)
                    && id == old(self)@[i].id && final(self)@ == #[trigger] removed_at_index(old(self)@, i),
    {
        let mut i: usize = 0;
        while i < self.blocks.len()
            invariant
                0 <= i <= self@.len(),
                self@ == old(self)@,
                self.inv(),
                forall|j: int| 0 <= j < i ==> !(!self@[j].is_removed() && (#[trigger] self@[j]).at(x as int, y as int)),
            decreases self@.len() - i,
        {
            let b = self.blocks[i];
            if !b.is_removed_exec() && b.x == x && b.y == y {
                self.mark_removed(i);
                return Some(b.id);
            }
            i = i + 1;
        }
        None
    }
}

} // verus!
