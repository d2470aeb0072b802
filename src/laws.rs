//! What holds of the board across its operations.
use vstd::prelude::*;
use crate::block::{Block, BlockState, ROW_HEIGHT, SETTLE_THRESHOLD_MS};
use crate::board::{board_ok, grid_blocks, grid_size, lemma_cell_index, lemma_grid_ok, occupied};
use crate::lifecycle::{kept, lemma_kept_from, reaped_ids};
use crate::propagation::{above_removed, cell_of, lemma_propagation_keeps_board_ok, lies_below, propagated_all};
use crate::resolution::{BlockMove, lemma_resolution_keeps_board_ok, move_of, resolution_moves, resolved, resolved_all};
use crate::tick::{before_reap, ticked};
use crate::trigger::{eligible, first_eligible, lemma_first_eligible_unique, lemma_removal_keeps_board_ok, removed_at_index, triggered};

verus! {

/// Some block of `s` stands at (x, y).
pub open spec fn has_cell(s: Seq<Block>, x: i32, y: i32) -> bool {
    exists|i: int| 0 <= i < s.len() && #[trigger] cell_of(s[i]) == (x, y)
}

/// A fresh grid of `rows` by `cols` holds exactly `rows * cols` blocks (none
/// when either is not positive); each stands in a cell of the grid, no two
/// share a cell, and every cell of the grid holds one.
pub proof fn law_grid_cells(rows: i32, cols: i32)
    ensures
        grid_blocks(rows as int, cols as int).len() == grid_size(rows as int, cols as int),
        rows > 0 && cols > 0 ==> grid_blocks(rows as int, cols as int).len() == rows * cols,
        forall|i: int| 0 <= i < grid_blocks(rows as int, cols as int).len() ==> {
            let b = #[trigger] grid_blocks(rows as int, cols as int)[i];
            0 <= b.x < cols && 0 <= b.y < rows && b.state == BlockState::Normal
        },
        forall|i: int, j: int|
            0 <= i < grid_blocks(rows as int, cols as int).len() && 0 <= j < grid_blocks(rows as int, cols as int).len()
                && i != j ==> cell_of(#[trigger] grid_blocks(rows as int, cols as int)[i])
                != cell_of(#[trigger] grid_blocks(rows as int, cols as int)[j]),
        forall|x: i32, y: i32|
            0 <= x < cols && 0 <= y < rows ==> #[trigger] has_cell(grid_blocks(rows as int, cols as int), x, y),
{
    let s = grid_blocks(rows as int, cols as int);
    lemma_grid_ok(rows, cols);
    assert forall|i: int| 0 <= i < s.len() implies {
        let b = #[trigger] s[i];
        0 <= b.x < cols && 0 <= b.y < rows && b.state == BlockState::Normal
    } by {
        lemma_cell_index(i, rows as int, cols as int);
    }
    assert forall|x: i32, y: i32| 0 <= x < cols && 0 <= y < rows implies #[trigger] has_cell(s, x, y) by {
        let i = y * cols + x;
        assert(0 <= y * cols <= (rows - 1) * cols) by (nonlinear_arith)
            requires 0 <= y < rows, cols > 0;
        assert((rows - 1) * cols + cols == rows * cols) by (nonlinear_arith);
        vstd::arithmetic::div_mod::lemma_fundamental_div_mod_converse(i, cols as int, y as int, x as int);
        assert(cell_of(s[i]) == (x, y));
    }
}

/// One removal signal on a board with an eligible block marks exactly one
/// block as removed and changes nothing else; on a board without one it
/// changes nothing.
pub proof fn law_single_removal(s: Seq<Block>)
    ensures
        triggered(s).len() == s.len(),
        (exists|j: int| 0 <= j < s.len() && eligible(#[trigger] s[j])) ==> exists|i: int|
            0 <= i < s.len() && !s[i].is_removed() && (#[trigger] triggered(s)[i]).is_removed()
                && forall|k: int| 0 <= k < s.len() && k != i ==> #[trigger] triggered(s)[k] == s[k],
        !(exists|j: int| 0 <= j < s.len() && eligible(#[trigger] s[j])) ==> triggered(s) == s,
{
    if exists|j: int| 0 <= j < s.len() && eligible(#[trigger] s[j]) {
        let j = choose|j: int| 0 <= j < s.len() && eligible(#[trigger] s[j]);
        lemma_first_exists(s, j);
        let i = choose|i: int| first_eligible(s, i);
        assert(triggered(s)[i].is_removed());
    } else {
        assert forall|i: int| !first_eligible(s, i) by {
            if 0 <= i < s.len() {
                assert(!eligible(s[i]));
            }
        }
    }
}

/// Where some block is eligible, there is a first one.
proof fn lemma_first_exists(s: Seq<Block>, j: int)
    requires
        0 <= j < s.len(),
        eligible(s[j]),
    ensures
        exists|i: int| first_eligible(s, i),
    decreases j,
{
    if exists|k: int| 0 <= k < j && eligible(#[trigger] s[k]) {
        let k = choose|k: int| 0 <= k < j && eligible(#[trigger] s[k]);
        lemma_first_exists(s, k);
    } else {
        assert(first_eligible(s, j));
    }
}

/// After a propagation pass, every block that is not removed and stands
/// above the removed block `j` in its column falls; where every removed
/// block stands in that column, no block of another column changes.
pub proof fn law_propagation(s: Seq<Block>, j: int)
    requires
        0 <= j < s.len(),
        s[j].is_removed(),
    ensures
        forall|i: int|
            0 <= i < s.len() && !s[i].is_removed() && s[i].x == s[j].x && s[i].y > s[j].y
                ==> (#[trigger] propagated_all(s)[i]).is_falling(),
        (forall|k: int| 0 <= k < s.len() && s[k].is_removed() ==> #[trigger] s[k].x == s[j].x)
            ==> forall|i: int| 0 <= i < s.len() && s[i].x != s[j].x ==> #[trigger] propagated_all(s)[i] == s[i],
{
    assert forall|i: int|
        0 <= i < s.len() && !s[i].is_removed() && s[i].x == s[j].x && s[i].y > s[j].y
            implies (#[trigger] propagated_all(s)[i]).is_falling() by {
        assert(lies_below(cell_of(s[j]), s[i]));
        assert(above_removed(s, s[i]));
    }
    if forall|k: int| 0 <= k < s.len() && s[k].is_removed() ==> #[trigger] s[k].x == s[j].x {
        assert forall|i: int| 0 <= i < s.len() && s[i].x != s[j].x implies #[trigger] propagated_all(s)[i] == s[i] by {
            if above_removed(s, s[i]) {
                let k = choose|k: int| 0 <= k < s.len() && s[k].is_removed() && lies_below(#[trigger] cell_of(s[k]), s[i]);
                assert(s[k].x == s[j].x);
            }
        }
    }
}

/// A falling block on the bottom row whose timer is past the threshold
/// stops falling within one resolution tick and keeps its row.
pub proof fn law_grounding(s: Seq<Block>, i: int, elapsed: u64)
    requires
        0 <= i < s.len(),
        s[i].state matches BlockState::Falling { settle_timer } && settle_timer > SETTLE_THRESHOLD_MS,
        s[i].y == 0,
    ensures
        resolved_all(s, elapsed)[i] == s[i].with_state(BlockState::Normal),
{
}

/// A falling block whose timer is past the threshold and which stands on a
/// block that is not removed neither moves nor stops falling.
pub proof fn law_blocked(s: Seq<Block>, i: int, elapsed: u64)
    requires
        board_ok(s),
        0 <= i < s.len(),
        s[i].state matches BlockState::Falling { settle_timer } && settle_timer > SETTLE_THRESHOLD_MS,
        occupied(s, s[i].x as int, s[i].y - 1),
    ensures
        resolved_all(s, elapsed)[i] == s[i],
{
    let k = choose|k: int| 0 <= k < s.len() && !s[k].is_removed() && (#[trigger] s[k]).at(s[i].x as int, s[i].y - 1);
    assert(0 <= s[k].y);
}

/// The moves of a resolution tick report every block among the first `n`
/// that stepped down.
pub proof fn lemma_moves_include(s: Seq<Block>, elapsed: u64, n: int)
    requires
        0 <= n <= s.len(),
    ensures
        forall|k: int| 0 <= k < n && (#[trigger] resolved(s, k, elapsed)).y != s[k].y
            ==> resolution_moves(s, elapsed, n).contains(move_of(resolved(s, k, elapsed))),
    decreases n,
{
    if n > 0 {
        lemma_moves_include(s, elapsed, n - 1);
        let m = resolution_moves(s, elapsed, n);
        let before = resolution_moves(s, elapsed, n - 1);
        assert forall|k: int| 0 <= k < n && (#[trigger] resolved(s, k, elapsed)).y != s[k].y
            implies m.contains(move_of(resolved(s, k, elapsed))) by {
            if k < n - 1 {
                let q = choose|q: int| 0 <= q < before.len() && before[q] == move_of(resolved(s, k, elapsed));
                assert(m[q] == before[q]);
            } else {
                assert(m[m.len() - 1] == move_of(resolved(s, k, elapsed)));
            }
        }
    }
}

/// A falling block whose timer is past the threshold, above the bottom row
/// and with nothing below it, moves down exactly one row, keeps falling, and
/// is reported as moved one row height down.
pub proof fn law_unblocked(s: Seq<Block>, i: int, elapsed: u64)
    requires
        0 <= i < s.len(),
        s[i].state matches BlockState::Falling { settle_timer } && settle_timer > SETTLE_THRESHOLD_MS,
        s[i].y > 0,
        !occupied(s, s[i].x as int, s[i].y - 1),
    ensures
        resolved_all(s, elapsed)[i].x == s[i].x,
        resolved_all(s, elapsed)[i].y == s[i].y - 1,
        resolved_all(s, elapsed)[i].is_falling(),
        resolution_moves(s, elapsed, s.len() as int).contains(
            BlockMove { id: s[i].id, x: s[i].x, y: (s[i].y - 1) as i32, dy: -ROW_HEIGHT as i32 },
        ),
{
    lemma_moves_include(s, elapsed, s.len() as int);
    assert(resolved(s, i, elapsed).y != s[i].y);
}

/// Every removed block's handle is among the reaped handles.
pub proof fn lemma_reaped_include(s: Seq<Block>)
    ensures
        forall|j: int| 0 <= j < s.len() && s[j].is_removed() ==> reaped_ids(s).contains(#[trigger] s[j].id),
    decreases s.len(),
{
    if s.len() > 0 {
        let d = s.drop_last();
        lemma_reaped_include(d);
        assert forall|j: int| 0 <= j < s.len() && s[j].is_removed() implies reaped_ids(s).contains(#[trigger] s[j].id) by {
            if j < s.len() - 1 {
                assert(d[j] == s[j]);
                let q = choose|q: int| 0 <= q < reaped_ids(d).len() && reaped_ids(d)[q] == d[j].id;
                assert(reaped_ids(s)[q] == reaped_ids(d)[q]);
            } else {
                assert(reaped_ids(s)[reaped_ids(s).len() - 1] == s[j].id);
            }
        }
    }
}

/// The block that a removal signal marks in a tick still counts in that
/// tick's propagation: every block that is not removed and stands above it in
/// its column falls. Reaping at the end of the tick then destroys it: its
/// handle is reported, and no block with that handle is left on the board.
pub proof fn law_reap_ordering(s: Seq<Block>, i: int, elapsed: u64)
    requires
        board_ok(s),
        first_eligible(s, i),
    ensures
        forall|k: int|
            0 <= k < s.len() && k != i && !s[k].is_removed() && s[k].x == s[i].x && s[k].y > s[i].y
                ==> (#[trigger] propagated_all(triggered(s))[k]).is_falling(),
        reaped_ids(before_reap(s, true, elapsed)).contains(s[i].id),
        forall|k: int| 0 <= k < ticked(s, true, elapsed).len() ==> (#[trigger] ticked(s, true, elapsed)[k]).id != s[i].id,
{
    let c = choose|c: int| first_eligible(s, c);
    lemma_first_eligible_unique(s, i, c);
    let t = triggered(s);
    assert(t == removed_at_index(s, i));
    lemma_removal_keeps_board_ok(s, i);
    law_propagation(t, i);
    assert forall|k: int|
        0 <= k < s.len() && k != i && !s[k].is_removed() && s[k].x == s[i].x && s[k].y > s[i].y
            implies (#[trigger] propagated_all(triggered(s))[k]).is_falling() by {
        assert(t[k] == s[k]);
    }
    let p = propagated_all(t);
    lemma_propagation_keeps_board_ok(t);
    let r = resolved_all(p, elapsed);
    lemma_resolution_keeps_board_ok(p, elapsed);
    assert(r == before_reap(s, true, elapsed));
    assert(r[i].is_removed());
    assert(r[i].id == s[i].id);
    lemma_reaped_include(r);
    let f = kept(r);
    lemma_kept_from(r);
    assert forall|k: int| 0 <= k < f.len() implies (#[trigger] f[k]).id != s[i].id by {
        let j = choose|j: int| 0 <= j < r.len() && !r[j].is_removed() && #[trigger] f[k] == r[j];
        if j < i {
            assert(r[j].id < r[i].id);
        } else if i < j {
            assert(r[i].id < r[j].id);
        }
    }
}

} // verus!
