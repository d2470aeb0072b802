//! Reaping: removed blocks leave the board.
use vstd::prelude::*;
use crate::block::Block;
use crate::board::{Board, board_ok};

verus! {

/// The blocks that are not removed, in storage order.
pub open spec fn kept(s: Seq<Block>) -> Seq<Block>
    decreases s.len(),
{
    if s.len() == 0 {
        Seq::empty()
    } else if s.last().is_removed() {
        kept(s.drop_last())
    } else {
        kept(s.drop_last()).push(s.last())
    }
}

/// The handles of the removed blocks, in storage order.
pub open spec fn reaped_ids(s: Seq<Block>) -> Seq<u64>
    decreases s.len(),
{
    if s.len() == 0 {
        Seq::empty()
    } else if s.last().is_removed() {
        reaped_ids(s.drop_last()).push(s.last().id)
    } else {
        reaped_ids(s.drop_last())
    }
}

/// Every kept block is a block of `s` that is not removed, and the kept
/// blocks come in the order of `s`.
pub proof fn lemma_kept_from(s: Seq<Block>)
    ensures
        forall|k: int| 0 <= k < kept(s).len() ==> exists|j: int|
            0 <= j < s.len() && !s[j].is_removed() && #[trigger] kept(s)[k] == s[j],
        kept(s).len() <= s.len(),
    decreases s.len(),
{
    if s.len() > 0 {
        let d = s.drop_last();
        lemma_kept_from(d);
        assert forall|k: int| 0 <= k < kept(s).len() implies exists|j: int|
            0 <= j < s.len() && !s[j].is_removed() && #[trigger] kept(s)[k] == s[j] by {
            if k < kept(d).len() {
                assert(kept(s)[k] == kept(d)[k]);
                let j = choose|j: int| 0 <= j < d.len() && !d[j].is_removed() && #[trigger] kept(d)[k] == d[j];
                assert(s[j] == d[j]);
            } else {
                assert(kept(s)[k] == s[s.len() - 1]);
            }
        }
    }
}

/// Reaping keeps a board well formed.
pub proof fn lemma_kept_ok(s: Seq<Block>)
    requires
        board_ok(s),
    ensures
        board_ok(kept(s)),
    decreases s.len(),
{
    if s.len() > 0 {
        let d = s.drop_last();
        assert(board_ok(d));
        lemma_kept_ok(d);
        lemma_kept_from(d);
        let t = kept(s);
        let last = s.len() - 1;
        if !s[last].is_removed() {
            assert forall|i: int, j: int|
                0 <= i < t.len() && 0 <= j < t.len() && i != j && !t[i].is_removed() && !t[j].is_removed()
                    implies !(#[trigger] t[i]).at(t[j].x as int, (#[trigger] t[j]).y as int) by {
                if i < t.len() - 1 && j < t.len() - 1 {
                    assert(t[i] == kept(d)[i] && t[j] == kept(d)[j]);
                } else if i < t.len() - 1 {
                    let a = choose|a: int| 0 <= a < d.len() && !d[a].is_removed() && #[trigger] kept(d)[i] == d[a];
                    assert(t[i] == s[a]);
                    assert(!s[a].at(s[last].x as int, s[last].y as int));
                } else {
                    let a = choose|a: int| 0 <= a < d.len() && !d[a].is_removed() && #[trigger] kept(d)[j] == d[a];
                    assert(t[j] == s[a]);
                    assert(!s[last].at(s[a].x as int, s[a].y as int));
                }
            }
            assert forall|i: int, j: int| 0 <= i < j < t.len() implies (#[trigger] t[i]).id < (#[trigger] t[j]).id by {
                if j < t.len() - 1 {
                    assert(t[i] == kept(d)[i] && t[j] == kept(d)[j]);
                } else {
                    let a = choose|a: int| 0 <= a < d.len() && !d[a].is_removed() && #[trigger] kept(d)[i] == d[a];
                    assert(s[a].id < s[last].id);
                }
            }
            assert forall|i: int| 0 <= i < t.len() implies 0 <= (#[trigger] t[i]).x && 0 <= t[i].y by {
                if i < t.len() - 1 {
                    assert(t[i] == kept(d)[i]);
                } else {
                    assert(0 <= s[last].x && 0 <= s[last].y);
                }
            }
        }
    }
}

impl Board {
    /// Destroys every removed block and returns their handles, in storage
    /// order. The other blocks keep their order.
    pub fn reap(&mut self) -> (ids: Vec<u64>)
        requires
            old(self).inv(),
        ensures
            final(self).inv(),
            final(self)@ == kept(old(self)@),
            ids@ == reaped_ids(old(self)@),
    {
        let n = self.blocks.len();
        let mut next: Vec<Block> = Vec::new();
        let mut ids: Vec<u64> = Vec::new();
        let mut i: usize = 0;
        while i < n
            invariant
                n == self@.len(),
                0 <= i <= n,
                next@ == kept(self@.take(i as int)),
                ids@ == reaped_ids(self@.take(i as int)),
            decreases n - i,
        {
            let b = self.blocks[i];
            assert(self@.take(i + 1).drop_last() =~= self@.take(i as int));
            if b.is_removed_exec() {
                ids.push(b.id);
            } else {
                next.push(b);
            }
            i = i + 1;
        }
        assert(self@.take(n as int) =~= self@);
        proof { lemma_kept_ok(self@); }
        self.blocks = next;
        ids
    }
}

} // verus!
