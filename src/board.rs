//! The board: the blocks in storage order, and the queries on them.
use vstd::prelude::*;
use vstd::arithmetic::div_mod::lemma_fundamental_div_mod_converse;
use crate::block::{Block, BlockState};

verus! {

/// The board's blocks, in storage order. Every phase of a tick walks them
/// in this order.
pub struct Board {
    pub(crate) blocks: Vec<Block>,
}

impl View for Board {
    type V = Seq<Block>;

    open(crate) spec fn view(&self) -> Seq<Block> {
        self.blocks@
    }
}

/// The block that `initialize_grid` puts at index `i` of a grid `cols` wide.
pub open spec fn grid_cell(i: int, cols: int) -> Block {
    Block { id: i as u64, x: (i % cols) as i32, y: (i / cols) as i32, state: BlockState::Normal }
}

/// Number of cells of a grid; a grid with no rows or no columns has none.
pub open spec fn grid_size(rows: int, cols: int) -> int {
    if rows > 0 && cols > 0 { rows * cols } else { 0 }
}

/// The blocks of a fresh grid: row by row from the bottom, left to right
/// within a row.
pub open spec fn grid_blocks(rows: int, cols: int) -> Seq<Block> {
    Seq::new(grid_size(rows, cols) as nat, |i: int| grid_cell(i, cols))
}

/// No two blocks that are not removed share a cell.
pub open spec fn cells_distinct(s: Seq<Block>) -> bool {
    forall|i: int, j: int|
        0 <= i < s.len() && 0 <= j < s.len() && i != j && !s[i].is_removed() && !s[j].is_removed()
            ==> !(#[trigger] s[i]).at(s[j].x as int, (#[trigger] s[j]).y as int)
}

/// Handles increase along storage order, so no two blocks share one.
pub open spec fn ids_increasing(s: Seq<Block>) -> bool {
    forall|i: int, j: int| 0 <= i < j < s.len() ==> (#[trigger] s[i]).id < (#[trigger] s[j]).id
}

/// Every block lies in the quadrant of non-negative columns and rows.
pub open spec fn coords_ok(s: Seq<Block>) -> bool {
    forall|i: int| 0 <= i < s.len() ==> 0 <= (#[trigger] s[i]).x && 0 <= s[i].y
}

/// What every board satisfies.
pub open spec fn board_ok(s: Seq<Block>) -> bool {
    cells_distinct(s) && ids_increasing(s) && coords_ok(s)
}

/// A block that is not removed stands at (x, y).
pub open spec fn occupied(s: Seq<Block>, x: int, y: int) -> bool {
    exists|i: int| 0 <= i < s.len() && !s[i].is_removed() && (#[trigger] s[i]).at(x, y)
}

/// The rows of the blocks of `s` that stand in column `x` and are not
/// removed, in storage order.
pub open spec fn column_rows(s: Seq<Block>, x: int) -> Seq<i32>
    decreases s.len(),
{
    if s.len() == 0 {
        Seq::empty()
    } else if !s.last().is_removed() && s.last().x == x {
        column_rows(s.drop_last(), x).push(s.last().y)
    } else {
        column_rows(s.drop_last(), x)
    }
}

impl Board {
    /// The board's invariant: every constructor establishes it and every
    /// operation keeps it.
    pub open spec fn inv(&self) -> bool {
        board_ok(self@)
    }

    /// The blocks, in storage order.
    pub fn all_blocks(&self) -> (r: &Vec<Block>)
        ensures
            r@ == self@,
    {
        &self.blocks
    }

    /// Number of blocks on the board, removed ones included.
    pub fn len(&self) -> (r: usize)
        ensures
            r == self@.len(),
    {
        self.blocks.len()
    }

    /// Whether a block that is not removed stands at (x, y).
    pub fn is_occupied(&self, x: i32, y: i32) -> (r: bool)
        ensures
            r == occupied(self@, x as int, y as int),
    {
        let mut i: usize = 0;
        while i < self.blocks.len()
            invariant
                0 <= i <= self@.len(),
                forall|k: int| 0 <= k < i ==> !(!self@[k].is_removed() && (#[trigger] self@[k]).at(x as int, y as int)),
            decreases self@.len() - i,
        {
            let b = self.blocks[i];
            if !b.is_removed_exec() && b.x == x && b.y == y {
                return true;
            }
            i = i + 1;
        }
        false
    }

    /// The rows of the blocks that stand in column `x` and are not removed,
    /// in storage order. A column with no such block gives none.
    pub fn occupancy_in_column(&self, x: i32) -> (r: Vec<i32>)
        ensures
            r@ == column_rows(self@, x as int),
    {
        let mut r: Vec<i32> = Vec::new();
        let mut i: usize = 0;
        while i < self.blocks.len()
            invariant
                0 <= i <= self@.len(),
                r@ == column_rows(self@.take(i as int), x as int),
            decreases self@.len() - i,
        {
            let b = self.blocks[i];
            assert(self@.take(i + 1).drop_last() =~= self@.take(i as int));
            if !b.is_removed_exec() && b.x == x {
                r.push(b.y);
            }
            i = i + 1;
        }
        assert(self@.take(i as int) =~= self@);
        r
    }

    /// One normal block per cell of a grid `rows` high and `cols` wide, with
    /// handles 0, 1, 2, ... in storage order.
    pub fn initialize_grid(rows: i32, cols: i32) -> (r: Board)
        ensures
            r@ == grid_blocks(rows as int, cols as int),
            r.inv(),
    {
        let mut blocks: Vec<Block> = Vec::new();
        let mut y: i32 = 0;
        while y < rows
            invariant
                0 <= y,
                rows > 0 ==> y <= rows,
                rows <= 0 ==> y == 0,
                cols > 0 ==> blocks@.len() == y * cols,
                cols <= 0 ==> blocks@.len() == 0,
                forall|k: int| 0 <= k < blocks@.len() ==> blocks@[k] == grid_cell(k, cols as int),
            decreases rows - y,
        {
            let mut x: i32 = 0;
            while x < cols
                invariant
                    0 <= y < rows,
                    0 <= x,
                    cols > 0 ==> x <= cols,
                    cols > 0 ==> blocks@.len() == y * cols + x,
                    cols <= 0 ==> blocks@.len() == 0,
                    forall|k: int| 0 <= k < blocks@.len() ==> blocks@[k] == grid_cell(k, cols as int),
                decreases cols - x,
            {
                let ghost k: int = y * cols + x;
                proof {
                    lemma_fundamental_div_mod_converse(k, cols as int, y as int, x as int);
                    assert(0 <= y * cols <= rows * cols) by (nonlinear_arith)
                        requires 0 <= y < rows, cols > 0;
                }
                let id: u64 = blocks.len() as u64;
                blocks.push(Block { id, x, y, state: BlockState::Normal });
                x = x + 1;
            }
            proof {
                if cols > 0 {
                    assert((y + 1) * cols == y * cols + cols) by (nonlinear_arith);
                }
            }
            y = y + 1;
        }
        let r = Board { blocks };
        proof {
            if rows > 0 && cols > 0 {
                assert(y == rows);
            }
        }
        assert(r@.len() == grid_size(rows as int, cols as int));
        assert(r@ =~= grid_blocks(rows as int, cols as int));
        proof { lemma_grid_ok(rows, cols); }
        r
    }
}

/// The cells of a grid are distinct, and its handles increase.
pub proof fn lemma_grid_ok(rows: i32, cols: i32)
    ensures
        board_ok(grid_blocks(rows as int, cols as int)),
{
    let s = grid_blocks(rows as int, cols as int);
    if rows > 0 && cols > 0 {
        assert(rows * cols <= 0x4000_0000_0000_0000) by (nonlinear_arith)
            requires 0 < rows <= 0x8000_0000, 0 < cols <= 0x8000_0000;
    }
    assert forall|i: int, j: int|
        0 <= i < s.len() && 0 <= j < s.len() && i != j && !s[i].is_removed() && !s[j].is_removed()
            implies !(#[trigger] s[i]).at(s[j].x as int, (#[trigger] s[j]).y as int) by {
        lemma_cell_index(i, rows as int, cols as int);
        lemma_cell_index(j, rows as int, cols as int);
    }
    assert forall|i: int| 0 <= i < s.len() implies 0 <= (#[trigger] s[i]).x && 0 <= s[i].y by {
        lemma_cell_index(i, rows as int, cols as int);
    }
}

/// Where index `i` of a grid lies: its column and row are in range, and
/// together give `i` back.
pub proof fn lemma_cell_index(i: int, rows: int, cols: int)
    requires
        rows > 0,
        cols > 0,
        0 <= i < rows * cols,
    ensures
        0 <= i % cols < cols,
        0 <= i / cols < rows,
        i == (i / cols) * cols + i % cols,
{
    vstd::arithmetic::div_mod::lemma_fundamental_div_mod(i, cols);
    vstd::arithmetic::mul::lemma_mul_is_commutative(i / cols, cols);
    vstd::arithmetic::div_mod::lemma_mod_pos_bound(i, cols);
    vstd::arithmetic::div_mod::lemma_div_pos_is_pos(i, cols);
    vstd::arithmetic::mul::lemma_mul_is_commutative(rows, cols);
    vstd::arithmetic::div_mod::lemma_multiply_divide_lt(i, cols, rows);
}

} // verus!
