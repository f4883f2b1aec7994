//! Seed patterns with long known lifetimes.
use crate::groups::block::Block;
use vstd::prelude::*;

verus! {

/// The live cells of the Lidka predecessor in an 11 by 8 block.
pub open spec fn lidka_cell(x: int, y: int) -> bool {
    ||| (x == 1 && y == 1)
    ||| (x == 2 && y == 1)
    ||| (x == 3 && y == 1)
    ||| (x == 4 && y == 2)
    ||| (x == 4 && y == 3)
    ||| (x == 5 && y == 3)
    ||| (x == 7 && y == 5)
    ||| (x == 7 && y == 6)
    ||| (x == 8 && y == 5)
    ||| (x == 9 && (y == 1 || y == 2 || y == 3 || y == 5))
}

/// The live cells of the R-pentomino in a 5 by 5 block.
pub open spec fn r_pentomino_cell(x: int, y: int) -> bool {
    ||| (x == 1 && y == 2)
    ||| (x == 2 && (y == 1 || y == 2 || y == 3))
    ||| (x == 3 && y == 3)
}

/// The Lidka predecessor, which lives for 29126 generations.
pub fn lidka() -> (r: Block)
    ensures
        r.wf(),
        r.x_size == 11,
        r.y_size == 8,
        forall|x: int, y: int| #[trigger] r.cell(x, y) == if lidka_cell(x, y) { 1int } else { 0 },
{
    let mut block = Block::new(11, 8);
    block.set(1, 1, 1);
    block.set(2, 1, 1);
    block.set(3, 1, 1);
    block.set(4, 2, 1);
    block.set(4, 3, 1);
    block.set(5, 3, 1);
    block.set(7, 5, 1);
    block.set(7, 6, 1);
    block.set(8, 5, 1);
    block.set(9, 1, 1);
    block.set(9, 2, 1);
    block.set(9, 3, 1);
    block.set(9, 5, 1);
    block
}

/// The R-pentomino, which lives for 1103 generations.
pub fn r_pentomino() -> (r: Block)
    ensures
        r.wf(),
        r.x_size == 5,
        r.y_size == 5,
        forall|x: int, y: int| #[trigger] r.cell(x, y) == if r_pentomino_cell(x, y) { 1int } else { 0 },
{
    let mut block = Block::new(5, 5);
    block.set(1, 2, 1);
    block.set(2, 1, 1);
    block.set(2, 2, 1);
    block.set(2, 3, 1);
    block.set(3, 3, 1);
    block
}

} // verus!
