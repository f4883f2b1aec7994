//! A dense rectangular grid of cells: the local state of one group.
use super::{Coord, UCoord};
use vstd::prelude::*;

verus! {

/// A rectangle of cells stored row by row, with `(0, 0)` at the bottom left.
/// A live cell holds 1, a dead one 0.
#[derive(Debug)]
pub struct Block {
    pub x_size: u32,
    pub y_size: u32,
    pub data: Vec<u8>,
}

/// Position of cell `(x, y)` in the row-major buffer of a block `w` cells wide.
pub open spec fn lin(w: int, x: int, y: int) -> int {
    y * w + x
}

/// The B3/S23 rule: the next state of a cell in state `c` with `n` live neighbours.
pub open spec fn life_rule(c: int, n: int) -> int {
    if n == 3 {
        1
    } else if n == 2 {
        c
    } else {
        0
    }
}

/// A cell inside the block has its position inside the buffer.
pub proof fn lemma_lin_bounds(w: int, h: int, x: int, y: int)
    requires
        0 <= x < w,
        0 <= y < h,
    ensures
        0 <= lin(w, x, y) < w * h,
        lin(w, x, y) + 1 <= w * h,
{
    assert(0 <= y * w) by (nonlinear_arith)
        requires
            0 <= y,
            0 <= w,
    ;
    assert(y * w + x < w * h) by (nonlinear_arith)
        requires
            0 <= x < w,
            0 <= y < h,
    ;
}

/// Distinct cells of one row width have distinct buffer positions.
pub proof fn lemma_lin_injective(w: int, x1: int, y1: int, x2: int, y2: int)
    requires
        0 <= x1 < w,
        0 <= x2 < w,
        lin(w, x1, y1) == lin(w, x2, y2),
    ensures
        x1 == x2,
        y1 == y2,
{
    if y1 < y2 {
        assert(y1 * w + w <= y2 * w) by (nonlinear_arith)
            requires
                y1 < y2,
                0 < w,
        ;
    } else if y2 < y1 {
        assert(y2 * w + w <= y1 * w) by (nonlinear_arith)
            requires
                y2 < y1,
                0 < w,
        ;
    }
}

impl Block {
    /// The buffer matches the dimensions and every cell is 0 or 1.
    pub open spec fn wf(&self) -> bool {
        &&& self.x_size >= 1
        &&& self.y_size >= 1
        &&& self.data@.len() == self.x_size * self.y_size
        &&& forall|i: int| 0 <= i < self.data@.len() ==> #[trigger] self.data@[i] <= 1
    }

    /// Whether `(x, y)` lies inside the block.
    pub open spec fn inside(&self, x: int, y: int) -> bool {
        0 <= x < self.x_size && 0 <= y < self.y_size
    }

    /// The state of cell `(x, y)`; every cell outside the block is dead.
    pub open spec fn cell(&self, x: int, y: int) -> int {
        if self.inside(x, y) {
            self.data@[lin(self.x_size as int, x, y)] as int
        } else {
            0
        }
    }

    /// The Moore-neighbourhood sum around `(x, y)`.
    pub open spec fn neighbours(&self, x: int, y: int) -> int {
        self.cell(x - 1, y - 1) + self.cell(x, y - 1) + self.cell(x + 1, y - 1) + self.cell(x - 1, y)
            + self.cell(x + 1, y) + self.cell(x - 1, y + 1) + self.cell(x, y + 1) + self.cell(
            x + 1,
            y + 1,
        )
    }

    /// Sum of the first `n` cells of row `y`.
    pub open spec fn row_sum(&self, y: int, n: int) -> int
        decreases n,
    {
        if n <= 0 {
            0
        } else {
            self.row_sum(y, n - 1) + self.cell(n - 1, y)
        }
    }

    /// Sum of the first `n` cells of column `x`.
    pub open spec fn col_sum(&self, x: int, n: int) -> int
        decreases n,
    {
        if n <= 0 {
            0
        } else {
            self.col_sum(x, n - 1) + self.cell(x, n - 1)
        }
    }

    /// Row `y` holds no live cell.
    pub open spec fn row_dead(&self, y: int) -> bool {
        forall|x: int| #[trigger] self.cell(x, y) == 0
    }

    /// Column `x` holds no live cell.
    pub open spec fn col_dead(&self, x: int) -> bool {
        forall|y: int| #[trigger] self.cell(x, y) == 0
    }

    /// All four outer rows and columns are dead.
    pub open spec fn border_dead(&self) -> bool {
        &&& self.col_dead(0)
        &&& self.col_dead(self.x_size - 1)
        &&& self.row_dead(0)
        &&& self.row_dead(self.y_size - 1)
    }

    /// The block holds at least one live cell.
    pub open spec fn has_life(&self) -> bool {
        exists|x: int, y: int| #[trigger] self.cell(x, y) == 1
    }

    /// Same dimensions and same buffer.
    pub open spec fn same(&self, other: &Block) -> bool {
        &&& self.x_size == other.x_size
        &&& self.y_size == other.y_size
        &&& self.data@ == other.data@
    }

    /// Every cell of `self` at `(x, y)` is the cell of `other` at `(x + dx, y + dy)`.
    pub open spec fn shifted_from(&self, other: &Block, dx: int, dy: int) -> bool {
        forall|x: int, y: int| #[trigger] self.cell(x, y) == other.cell(x + dx, y + dy)
    }

    /// An allocation of `w` by `h` cells fits in memory addresses.
    pub open spec fn fits(w: int, h: int) -> bool {
        w * h <= usize::MAX
    }

    /// Every cell of a well-formed block is 0 or 1.
    pub proof fn lemma_cell_range(&self, x: int, y: int)
        requires
            self.wf(),
        ensures
            0 <= self.cell(x, y) <= 1,
    {
        if self.inside(x, y) {
            lemma_lin_bounds(self.x_size as int, self.y_size as int, x, y);
        }
    }

    /// Every cell of a well-formed block is 0 or 1, for all cells at once.
    pub proof fn lemma_cells_range(&self)
        requires
            self.wf(),
        ensures
            forall|x: int, y: int| 0 <= #[trigger] self.cell(x, y) <= 1,
    {
        assert forall|x: int, y: int| 0 <= #[trigger] self.cell(x, y) <= 1 by {
            self.lemma_cell_range(x, y);
        }
    }

    /// A partial row sum is at most its length, and zero exactly when those cells are dead.
    pub proof fn lemma_row_sum(&self, y: int, n: int)
        requires
            self.wf(),
            0 <= n,
        ensures
            0 <= self.row_sum(y, n) <= n,
            self.row_sum(y, n) == 0 <==> forall|x: int| 0 <= x < n ==> #[trigger] self.cell(x, y)
                == 0,
        decreases n,
    {
        self.lemma_cells_range();
        if n > 0 {
            self.lemma_row_sum(y, n - 1);
        }
    }

    /// A partial column sum is at most its length, and zero exactly when those cells are dead.
    pub proof fn lemma_col_sum(&self, x: int, n: int)
        requires
            self.wf(),
            0 <= n,
        ensures
            0 <= self.col_sum(x, n) <= n,
            self.col_sum(x, n) == 0 <==> forall|y: int| 0 <= y < n ==> #[trigger] self.cell(x, y)
                == 0,
        decreases n,
    {
        self.lemma_cells_range();
        if n > 0 {
            self.lemma_col_sum(x, n - 1);
        }
    }

    /// A whole row sums to zero exactly when it is dead.
    pub proof fn lemma_row_dead(&self, y: int)
        requires
            self.wf(),
        ensures
            self.row_sum(y, self.x_size as int) == 0 <==> self.row_dead(y),
            0 <= self.row_sum(y, self.x_size as int) <= self.x_size,
    {
        self.lemma_row_sum(y, self.x_size as int);
    }

    /// A whole column sums to zero exactly when it is dead.
    pub proof fn lemma_col_dead(&self, x: int)
        requires
            self.wf(),
        ensures
            self.col_sum(x, self.y_size as int) == 0 <==> self.col_dead(x),
            0 <= self.col_sum(x, self.y_size as int) <= self.y_size,
    {
        self.lemma_col_sum(x, self.y_size as int);
    }

    /// Blocks of equal dimensions with equal cells are the same block.
    pub proof fn lemma_same_from_cells(&self, other: &Block)
        requires
            self.wf(),
            other.wf(),
            self.x_size == other.x_size,
            self.y_size == other.y_size,
            forall|x: int, y: int| #[trigger] self.cell(x, y) == other.cell(x, y),
        ensures
            self.same(other),
    {
        let w = self.x_size as int;
        let h = self.y_size as int;
        assert forall|i: int| 0 <= i < self.data@.len() implies self.data@[i] == other.data@[i] by {
            let x = i % w;
            let y = i / w;
            vstd::arithmetic::div_mod::lemma_fundamental_div_mod(i, w);
            assert(0 <= x < w);
            assert(0 <= y) by {
                vstd::arithmetic::div_mod::lemma_div_pos_is_pos(i, w);
            }
            assert(y < h) by {
                if y >= h {
                    assert(w * y >= w * h) by (nonlinear_arith)
                        requires
                            y >= h,
                            w > 0,
                    ;
                }
            }
            assert(lin(w, x, y) == i) by (nonlinear_arith)
                requires
                    i == w * y + x,
            ;
            assert(self.cell(x, y) == other.cell(x, y));
        }
        assert(self.data@ =~= other.data@);
    }

    /// An exact-size dead block; `new` pads small sizes, this does not.
    pub(crate) fn zeroed(x_size: u32, y_size: u32) -> (r: Block)
        requires
            x_size >= 1,
            y_size >= 1,
            Block::fits(x_size as int, y_size as int),
        ensures
            r.wf(),
            r.x_size == x_size,
            r.y_size == y_size,
            forall|x: int, y: int| #[trigger] r.cell(x, y) == 0,
    {
        let len: usize = (x_size as usize) * (y_size as usize);
        let mut data: Vec<u8> = Vec::with_capacity(len);
        let mut i: usize = 0;
        while i < len
            invariant
                i <= len,
                data@.len() == i,
                forall|k: int| 0 <= k < i ==> #[trigger] data@[k] == 0,
            decreases len - i,
        {
            data.push(0);
            i = i + 1;
        }
        let r = Block { x_size, y_size, data };
        assert forall|x: int, y: int| #[trigger] r.cell(x, y) == 0 by {
            if r.inside(x, y) {
                lemma_lin_bounds(x_size as int, y_size as int, x, y);
            }
        }
        r
    }

    /// A dead block of `max(x_size, 3)` by `max(y_size, 3)` cells.
    pub fn new(x_size: u32, y_size: u32) -> (r: Block)
        requires
            Block::fits(
                if x_size < 3 { 3 } else { x_size as int },
                if y_size < 3 { 3 } else { y_size as int },
            ),
        ensures
            r.wf(),
            r.x_size == if x_size < 3 { 3 } else { x_size },
            r.y_size == if y_size < 3 { 3 } else { y_size },
            forall|x: int, y: int| #[trigger] r.cell(x, y) == 0,
    {
        let w: u32 = if x_size < 3 { 3 } else { x_size };
        let h: u32 = if y_size < 3 { 3 } else { y_size };
        Block::zeroed(w, h)
    }

    /// The state of cell `(x, y)`.
    pub fn cell_at(&self, x: u32, y: u32) -> (r: u8)
        requires
            self.wf(),
            x < self.x_size,
            y < self.y_size,
        ensures
            r as int == self.cell(x as int, y as int),
            r <= 1,
    {
        let len = self.data.len();
        proof {
            lemma_lin_bounds(self.x_size as int, self.y_size as int, x as int, y as int);
            assert((y as int) * (self.x_size as int) + (x as int) < self.data@.len());
        }
        let k: usize = (y as usize) * (self.x_size as usize) + (x as usize);
        self.data[k]
    }

    /// Sets cell `(x, y)` to `v`, leaving every other cell as it was.
    pub fn set(&mut self, x: u32, y: u32, v: u8)
        requires
            old(self).wf(),
            x < old(self).x_size,
            y < old(self).y_size,
            v <= 1,
        ensures
            final(self).wf(),
            final(self).x_size == old(self).x_size,
            final(self).y_size == old(self).y_size,
            forall|i: int, j: int| #[trigger]
                final(self).cell(i, j) == if i == x && j == y {
                    v as int
                } else {
                    old(self).cell(i, j)
                },
    {
        let ghost pre = *self;
        let ghost w = self.x_size as int;
        let len = self.data.len();
        proof {
            lemma_lin_bounds(w, self.y_size as int, x as int, y as int);
            assert((y as int) * (self.x_size as int) + (x as int) < self.data@.len());
        }
        let k: usize = (y as usize) * (self.x_size as usize) + (x as usize);
        self.data.set(k, v);
        assert forall|i: int, j: int| #[trigger]
            self.cell(i, j) == if i == x && j == y {
                v as int
            } else {
                pre.cell(i, j)
            } by {
            if self.inside(i, j) {
                lemma_lin_bounds(w, self.y_size as int, i, j);
                if lin(w, i, j) == k {
                    lemma_lin_injective(w, i, j, x as int, y as int);
                }
            }
        }
    }

    /// The cell at `index`, or `None` past the end of the buffer.
    pub fn get(&self, index: UCoord) -> (r: Option<u8>)
        requires
            self.wf(),
        ensures
            r == if (index.y as int) * (self.x_size as int) + (index.x as int) < self.data@.len() {
                Some(self.data@[(index.y as int) * (self.x_size as int) + (index.x as int)])
            } else {
                None::<u8>
            },
    {
        proof {
            assert((index.y as int) * (self.x_size as int) <= 0xffff_ffff * 0xffff_ffff)
                by (nonlinear_arith)
                requires
                    index.y <= 0xffff_ffff,
                    self.x_size <= 0xffff_ffff,
            ;
        }
        let k: u64 = (index.y as u64) * (self.x_size as u64) + (index.x as u64);
        if k < self.data.len() as u64 {
            Some(self.data[k as usize])
        } else {
            None
        }
    }
}


impl Block {
    /// The state of cell `(x, y)` after one generation; dimensions are kept.
    pub open spec fn next_cell(&self, x: int, y: int) -> int {
        if self.inside(x, y) {
            life_rule(self.cell(x, y), self.neighbours(x, y))
        } else {
            0
        }
    }

    /// Copies the `w` by `h` rectangle of `src` at `(sx, sy)` onto `self` at `(dx, dy)`.
    fn copy_rect(&mut self, src: &Block, sx: u32, sy: u32, dx: u32, dy: u32, w: u32, h: u32)
        requires
            old(self).wf(),
            src.wf(),
            sx + w <= src.x_size,
            sy + h <= src.y_size,
            dx + w <= old(self).x_size,
            dy + h <= old(self).y_size,
        ensures
            final(self).wf(),
            final(self).x_size == old(self).x_size,
            final(self).y_size == old(self).y_size,
            forall|i: int, j: int| #[trigger]
                final(self).cell(i, j) == if dx <= i < dx + w && dy <= j < dy + h {
                    src.cell(i - dx + sx, j - dy + sy)
                } else {
                    old(self).cell(i, j)
                },
    {
        let ghost pre = *self;
        for a in 0..w
            invariant
                self.wf(),
                self.x_size == pre.x_size,
                self.y_size == pre.y_size,
                src.wf(),
                sx + w <= src.x_size,
                sy + h <= src.y_size,
                dx + w <= pre.x_size,
                dy + h <= pre.y_size,
                forall|i: int, j: int| #[trigger]
                    self.cell(i, j) == if dx <= i < dx + a && dy <= j < dy + h {
                        src.cell(i - dx + sx, j - dy + sy)
                    } else {
                        pre.cell(i, j)
                    },
        {
            for b in 0..h
                invariant
                    self.wf(),
                    self.x_size == pre.x_size,
                    self.y_size == pre.y_size,
                    src.wf(),
                    a < w,
                    sx + w <= src.x_size,
                    sy + h <= src.y_size,
                    dx + w <= pre.x_size,
                    dy + h <= pre.y_size,
                    forall|i: int, j: int| #[trigger]
                        self.cell(i, j) == if (dx <= i < dx + a && dy <= j < dy + h) || (i == dx
                            + a && dy <= j < dy + b) {
                            src.cell(i - dx + sx, j - dy + sy)
                        } else {
                            pre.cell(i, j)
                        },
            {
                let v = src.cell_at(sx + a, sy + b);
                self.set(dx + a, dy + b, v);
            }
        }
    }

    /// The number of live cells among the eight neighbours of `index`.
    pub fn neighbour_count(&self, index: UCoord) -> (r: u8)
        requires
            self.wf(),
            index.x < self.x_size,
            index.y < self.y_size,
        ensures
            r as int == self.neighbours(index.x as int, index.y as int),
    {
        let x = index.x;
        let y = index.y;
        let below = y > 0;
        let above = y < self.y_size - 1;
        let mut count: u8 = 0;
        if x > 0 {
            if below {
                count += self.cell_at(x - 1, y - 1);
            }
            if above {
                count += self.cell_at(x - 1, y + 1);
            }
            count += self.cell_at(x - 1, y);
        }
        if x < self.x_size - 1 {
            if below {
                count += self.cell_at(x + 1, y - 1);
            }
            if above {
                count += self.cell_at(x + 1, y + 1);
            }
            count += self.cell_at(x + 1, y);
        }
        if below {
            count += self.cell_at(x, y - 1);
        }
        if above {
            count += self.cell_at(x, y + 1);
        }
        count
    }

    /// Advances the block one generation under B3/S23, keeping its dimensions.
    /// Cells beyond the edge count as dead.
    pub fn step(&mut self)
        requires
            old(self).wf(),
        ensures
            final(self).wf(),
            final(self).x_size == old(self).x_size,
            final(self).y_size == old(self).y_size,
            forall|x: int, y: int| #[trigger] final(self).cell(x, y) == old(self).next_cell(x, y),
    {
        let ghost pre = *self;
        let w = self.x_size;
        let h = self.y_size;
        let len = self.data.len();
        let mut data: Vec<u8> = Vec::with_capacity(len);
        let mut x: u32 = 0;
        let mut y: u32 = 0;
        let mut i: usize = 0;
        while i < len
            invariant
                pre == *self,
                self.wf(),
                w == self.x_size,
                h == self.y_size,
                len == w * h,
                i <= len,
                data@.len() == i,
                x < w,
                i == lin(w as int, x as int, y as int),
                forall|k: int| 0 <= k < i ==> #[trigger] data@[k] <= 1,
                forall|a: int, b: int|
                    self.inside(a, b) && lin(w as int, a, b) < i ==> data@[lin(w as int, a, b)]
                        as int == #[trigger] self.next_cell(a, b),
            decreases len - i,
        {
            assert(y < h) by {
                if y >= h {
                    let (yi, wi, hi, xi, ii) = (y as int, w as int, h as int, x as int, i as int);
                    assert(false) by (nonlinear_arith)
                        requires
                            yi >= hi,
                            xi >= 0,
                            wi >= 0,
                            ii == yi * wi + xi,
                            ii < wi * hi,
                    ;
                }
            }
            let n = self.neighbour_count(UCoord { x, y });
            let v: u8 = if n == 3 {
                1
            } else if n == 2 {
                self.cell_at(x, y)
            } else {
                0
            };
            data.push(v);
            proof {
                assert forall|a: int, b: int|
                    self.inside(a, b) && lin(w as int, a, b) < i + 1 implies data@[lin(
                        w as int,
                        a,
                        b,
                    )] as int == #[trigger] self.next_cell(a, b) by {
                    if lin(w as int, a, b) == i {
                        lemma_lin_injective(w as int, a, b, x as int, y as int);
                    }
                }
            }
            i = i + 1;
            if x + 1 == w {
                assert((y as int + 1) * (w as int) == (y as int) * (w as int) + (w as int))
                    by (nonlinear_arith);
                x = 0;
                y = y + 1;
            } else {
                x = x + 1;
            }
        }
        let r = Block { x_size: w, y_size: h, data };
        assert forall|a: int, b: int| #[trigger] r.cell(a, b) == pre.next_cell(a, b) by {
            if r.inside(a, b) {
                lemma_lin_bounds(w as int, h as int, a, b);
            }
        }
        *self = r;
    }

    /// The number of live cells in row `index_y`.
    pub fn row_alive(&self, index_y: u32) -> (r: u32)
        requires
            self.wf(),
        ensures
            r as int == self.row_sum(index_y as int, self.x_size as int),
    {
        let mut count: u32 = 0;
        for x in 0..self.x_size
            invariant
                self.wf(),
                count as int == self.row_sum(index_y as int, x as int),
        {
            proof {
                self.lemma_row_sum(index_y as int, x as int);
            }
            if index_y < self.y_size {
                count = count + self.cell_at(x, index_y) as u32;
            }
        }
        count
    }

    /// The number of live cells in column `index_x`.
    pub fn column_alive(&self, index_x: u32) -> (r: u32)
        requires
            self.wf(),
        ensures
            r as int == self.col_sum(index_x as int, self.y_size as int),
    {
        let mut count: u32 = 0;
        for y in 0..self.y_size
            invariant
                self.wf(),
                count as int == self.col_sum(index_x as int, y as int),
        {
            proof {
                self.lemma_col_sum(index_x as int, y as int);
            }
            if index_x < self.x_size {
                count = count + self.cell_at(index_x, y) as u32;
            }
        }
        count
    }

    /// Whether a live cell touches any of the four outer rows or columns.
    pub fn need_expand(&self) -> (r: bool)
        requires
            self.wf(),
        ensures
            r == !self.border_dead(),
    {
        proof {
            self.lemma_col_dead(0);
            self.lemma_col_dead(self.x_size - 1);
            self.lemma_row_dead(0);
            self.lemma_row_dead(self.y_size - 1);
        }
        if self.column_alive(0) > 0 || self.column_alive(self.x_size - 1) > 0 {
            return true;
        }
        if self.row_alive(0) > 0 || self.row_alive(self.y_size - 1) > 0 {
            return true;
        }
        false
    }
}

/// `new` is `old` trimmed: cells are `old`'s shifted by `(ox, oy)`, one dead lane is kept
/// on each side that had a dead margin, and no more.
pub open spec fn trimmed_from(new: Block, old: Block, ox: int, oy: int) -> bool {
    let nx = new.x_size as int;
    let ny = new.y_size as int;
    &&& new.shifted_from(&old, ox, oy)
    &&& (new.col_dead(0) ==> !new.col_dead(1))
    &&& (!new.col_dead(0) ==> ox == 0)
    &&& (new.col_dead(nx - 1) ==> !new.col_dead(nx - 2))
    &&& (!new.col_dead(nx - 1) ==> ox + nx == old.x_size)
    &&& (new.row_dead(0) ==> !new.row_dead(1))
    &&& (!new.row_dead(0) ==> oy == 0)
    &&& (new.row_dead(ny - 1) ==> !new.row_dead(ny - 2))
    &&& (!new.row_dead(ny - 1) ==> oy + ny == old.y_size)
}

/// The lanes next to the border are live: the block cannot shrink and keep a dead border.
pub open spec fn tight(b: Block) -> bool {
    &&& !b.col_dead(1)
    &&& !b.col_dead(b.x_size - 2)
    &&& !b.row_dead(1)
    &&& !b.row_dead(b.y_size - 2)
}

/// What `resize` does: `None` on a dead block, which stays as it was; otherwise the live
/// cells shifted by the returned offset, inside a dead border, in the smallest such block.
pub open spec fn resize_post(old: Block, new: Block, r: Option<Coord>) -> bool {
    match r {
        None => !old.has_life() && new == old,
        Some(o) => {
            &&& old.has_life()
            &&& new.wf()
            &&& new.shifted_from(&old, o.x as int, o.y as int)
            &&& new.border_dead()
            &&& tight(new)
        },
    }
}

/// Room to grow a block by one lane on every side.
pub open spec fn can_grow(b: Block) -> bool {
    &&& b.x_size + 2 <= u32::MAX
    &&& b.y_size + 2 <= u32::MAX
    &&& Block::fits(b.x_size + 2, b.y_size + 2)
}

impl Block {
    /// Sets every cell of `self` at `(dx, dy)` plus a live cell of `src`; others are kept.
    fn paste(&mut self, src: &Block, dx: u32, dy: u32)
        requires
            old(self).wf(),
            src.wf(),
            dx + src.x_size <= old(self).x_size,
            dy + src.y_size <= old(self).y_size,
        ensures
            final(self).wf(),
            final(self).x_size == old(self).x_size,
            final(self).y_size == old(self).y_size,
            forall|i: int, j: int| #[trigger]
                final(self).cell(i, j) == if src.cell(i - dx, j - dy) == 1 {
                    1
                } else {
                    old(self).cell(i, j)
                },
    {
        let ghost pre = *self;
        let w = src.x_size;
        let h = src.y_size;
        for a in 0..w
            invariant
                self.wf(),
                self.x_size == pre.x_size,
                self.y_size == pre.y_size,
                src.wf(),
                w == src.x_size,
                h == src.y_size,
                dx + w <= pre.x_size,
                dy + h <= pre.y_size,
                forall|i: int, j: int| #[trigger]
                    self.cell(i, j) == if i < dx + a && src.cell(i - dx, j - dy) == 1 {
                        1
                    } else {
                        pre.cell(i, j)
                    },
        {
            for b in 0..h
                invariant
                    self.wf(),
                    self.x_size == pre.x_size,
                    self.y_size == pre.y_size,
                    src.wf(),
                    w == src.x_size,
                    h == src.y_size,
                    a < w,
                    dx + w <= pre.x_size,
                    dy + h <= pre.y_size,
                    forall|i: int, j: int| #[trigger]
                        self.cell(i, j) == if (i < dx + a || (i == dx + a && j < dy + b))
                            && src.cell(i - dx, j - dy) == 1 {
                            1
                        } else {
                            pre.cell(i, j)
                        },
            {
                if src.cell_at(a, b) == 1 {
                    self.set(dx + a, dy + b, 1);
                }
            }
        }
    }

    /// ORs the live cells of `other` into `self` at offset `place`, first growing `self`
    /// to cover both.
    pub fn insert(&mut self, place: UCoord, other: &Block)
        requires
            old(self).wf(),
            other.wf(),
            place.x + other.x_size <= u32::MAX,
            place.y + other.y_size <= u32::MAX,
            Block::fits(
                vstd::math::max(
                    3,
                    vstd::math::max(old(self).x_size as int, place.x + other.x_size),
                ),
                vstd::math::max(
                    3,
                    vstd::math::max(old(self).y_size as int, place.y + other.y_size),
                ),
            ),
        ensures
            final(self).wf(),
            final(self).x_size == vstd::math::max(
                3,
                vstd::math::max(old(self).x_size as int, place.x + other.x_size),
            ),
            final(self).y_size == vstd::math::max(
                3,
                vstd::math::max(old(self).y_size as int, place.y + other.y_size),
            ),
            forall|i: int, j: int| #[trigger]
                final(self).cell(i, j) == if other.cell(i - place.x, j - place.y) == 1 {
                    1
                } else {
                    old(self).cell(i, j)
                },
    {
        let mut new_x = place.x + other.x_size;
        if new_x < self.x_size {
            new_x = self.x_size;
        }
        let mut new_y = place.y + other.y_size;
        if new_y < self.y_size {
            new_y = self.y_size;
        }
        let mut grown = Block::new(new_x, new_y);
        grown.copy_rect(self, 0, 0, 0, 0, self.x_size, self.y_size);
        grown.paste(other, place.x, place.y);
        *self = grown;
    }

    /// Trims dead rows and columns from all four sides, keeping one dead lane on each side
    /// that had a dead margin. Returns the bottom-left corner of the kept part in the old
    /// frame, or `None`, leaving the block as it was, when no cell is alive.
    pub fn cut_empty(&mut self) -> (r: Option<UCoord>)
        requires
            old(self).wf(),
        ensures
            r is None <==> !old(self).has_life(),
            r is None ==> *final(self) == *old(self),
            r matches Some(o) ==> {
                &&& final(self).wf()
                &&& o.x + final(self).x_size <= old(self).x_size
                &&& o.y + final(self).y_size <= old(self).y_size
                &&& trimmed_from(*final(self), *old(self), o.x as int, o.y as int)
            },
    {
        let ghost pre = *self;
        let w = self.x_size;
        let h = self.y_size;
        // dead columns on the left
        let mut left: u32 = 0;
        loop
            invariant
                pre == *self,
                self.wf(),
                w == self.x_size,
                h == self.y_size,
                left < w,
                forall|c: int| 0 <= c < left ==> #[trigger] self.col_dead(c),
            ensures
                left < w,
                !self.col_dead(left as int),
                forall|c: int| 0 <= c < left ==> #[trigger] self.col_dead(c),
            decreases w - left,
        {
            proof {
                self.lemma_col_dead(left as int);
            }
            if self.column_alive(left) != 0 {
                break;
            }
            if left == w - 1 {
                assert(!self.has_life()) by {
                    assert forall|x: int, y: int| #[trigger] self.cell(x, y) != 1 by {
                        if self.inside(x, y) {
                            assert(self.col_dead(x));
                        }
                    }
                }
                return None;
            }
            left = left + 1;
        }
        proof {
            self.lemma_col_dead(left as int);
        }
        let ghost live_y = choose|y: int| #[trigger] self.cell(left as int, y) != 0;
        assert(self.cell(left as int, live_y) != 0);
        assert(self.has_life()) by {
            self.lemma_cell_range(left as int, live_y);
        }
        assert(0 <= live_y < h);
        // dead rows at the bottom
        let mut bottom: u32 = 0;
        loop
            invariant
                pre == *self,
                self.wf(),
                w == self.x_size,
                h == self.y_size,
                0 <= live_y < h,
                self.cell(left as int, live_y) != 0,
                bottom <= live_y,
                forall|c: int| 0 <= c < bottom ==> #[trigger] self.row_dead(c),
            ensures
                bottom < h,
                !self.row_dead(bottom as int),
                forall|c: int| 0 <= c < bottom ==> #[trigger] self.row_dead(c),
            decreases h - bottom,
        {
            proof {
                self.lemma_row_dead(bottom as int);
            }
            if self.row_alive(bottom) != 0 {
                break;
            }
            bottom = bottom + 1;
        }
        proof {
            self.lemma_row_dead(bottom as int);
        }
        // dead columns on the right
        let mut right: u32 = 0;
        loop
            invariant
                pre == *self,
                self.wf(),
                w == self.x_size,
                h == self.y_size,
                0 <= live_y < h,
                self.cell(left as int, live_y) != 0,
                right <= w - 1 - left,
                forall|c: int| 0 <= c < right ==> #[trigger] self.col_dead(w - 1 - c),
            ensures
                right <= w - 1 - left,
                !self.col_dead(w - 1 - right),
                forall|c: int| 0 <= c < right ==> #[trigger] self.col_dead(w - 1 - c),
            decreases w - right,
        {
            proof {
                self.lemma_col_dead(w - 1 - right);
            }
            if self.column_alive(w - 1 - right) != 0 {
                break;
            }
            right = right + 1;
        }
        proof {
            self.lemma_col_dead(w - 1 - right);
        }
        // dead rows at the top
        let mut top: u32 = 0;
        loop
            invariant
                pre == *self,
                self.wf(),
                w == self.x_size,
                h == self.y_size,
                bottom < h,
                !self.row_dead(bottom as int),
                top <= h - 1 - bottom,
                forall|c: int| 0 <= c < top ==> #[trigger] self.row_dead(h - 1 - c),
            ensures
                top <= h - 1 - bottom,
                !self.row_dead(h - 1 - top),
                forall|c: int| 0 <= c < top ==> #[trigger] self.row_dead(h - 1 - c),
            decreases h - top,
        {
            proof {
                self.lemma_row_dead(h - 1 - top);
            }
            if self.row_alive(h - 1 - top) != 0 {
                break;
            }
            top = top + 1;
        }
        proof {
            self.lemma_row_dead(h - 1 - top);
        }
        let ox: u32 = if left != 0 { left - 1 } else { 0 };
        let oy: u32 = if bottom != 0 { bottom - 1 } else { 0 };
        let rx: u32 = if right != 0 { right - 1 } else { 0 };
        let ry: u32 = if top != 0 { top - 1 } else { 0 };
        let nx = w - ox - rx;
        let ny = h - oy - ry;
        let len = self.data.len();
        proof {
            assert(nx >= 1 && ny >= 1);
            assert(Block::fits(nx as int, ny as int)) by (nonlinear_arith)
                requires
                    nx <= w,
                    ny <= h,
                    w * h == len,
                    len <= usize::MAX,
            {
            }
        }
        let mut trimmed = Block::zeroed(nx, ny);
        trimmed.copy_rect(self, ox, oy, 0, 0, nx, ny);
        proof {
            let t = trimmed;
            assert forall|x: int, y: int| #[trigger] t.cell(x, y) == pre.cell(x + ox, y + oy) by {
                if !(0 <= x < nx && 0 <= y < ny) {
                    if x < 0 {
                        assert(pre.col_dead(x + ox));
                    } else if x >= nx {
                        if x + ox < w {
                            assert(pre.col_dead(w - 1 - (w - 1 - (x + ox))));
                        }
                    } else if y < 0 {
                        assert(pre.row_dead(y + oy));
                    } else {
                        if y + oy < h {
                            assert(pre.row_dead(h - 1 - (h - 1 - (y + oy))));
                        }
                    }
                }
            }
            assert(t.shifted_from(&pre, ox as int, oy as int));
            if left != 0 {
                assert(t.col_dead(0)) by {
                    assert forall|y: int| #[trigger] t.cell(0, y) == 0 by {
                        assert(pre.col_dead(left - 1));
                    }
                }
                assert(!t.col_dead(1)) by {
                    let y = choose|y: int| #[trigger] pre.cell(left as int, y) != 0;
                    assert(t.cell(1, y - oy) != 0);
                }
            } else {
                assert(!t.col_dead(0)) by {
                    let y = choose|y: int| #[trigger] pre.cell(left as int, y) != 0;
                    assert(t.cell(0, y - oy) != 0);
                }
            }
            if bottom != 0 {
                assert(t.row_dead(0)) by {
                    assert forall|x: int| #[trigger] t.cell(x, 0) == 0 by {
                        assert(pre.row_dead(bottom - 1));
                    }
                }
                assert(!t.row_dead(1)) by {
                    let x = choose|x: int| #[trigger] pre.cell(x, bottom as int) != 0;
                    assert(t.cell(x - ox, 1) != 0);
                }
            } else {
                assert(!t.row_dead(0)) by {
                    let x = choose|x: int| #[trigger] pre.cell(x, bottom as int) != 0;
                    assert(t.cell(x - ox, 0) != 0);
                }
            }
            if right != 0 {
                assert(t.col_dead(nx - 1)) by {
                    assert forall|y: int| #[trigger] t.cell(nx - 1, y) == 0 by {
                        assert(pre.col_dead(w - 1 - (right - 1)));
                    }
                }
                assert(!t.col_dead(nx - 2)) by {
                    let y = choose|y: int| #[trigger] pre.cell(w - 1 - right, y) != 0;
                    assert(t.cell(nx - 2, y - oy) != 0);
                }
            } else {
                assert(!t.col_dead(nx - 1)) by {
                    let y = choose|y: int| #[trigger] pre.cell(w - 1 - right, y) != 0;
                    assert(t.cell(nx - 1, y - oy) != 0);
                }
            }
            if top != 0 {
                assert(t.row_dead(ny - 1)) by {
                    assert forall|x: int| #[trigger] t.cell(x, ny - 1) == 0 by {
                        assert(pre.row_dead(h - 1 - (top - 1)));
                    }
                }
                assert(!t.row_dead(ny - 2)) by {
                    let x = choose|x: int| #[trigger] pre.cell(x, h - 1 - top) != 0;
                    assert(t.cell(x - ox, ny - 2) != 0);
                }
            } else {
                assert(!t.row_dead(ny - 1)) by {
                    let x = choose|x: int| #[trigger] pre.cell(x, h - 1 - top) != 0;
                    assert(t.cell(x - ox, ny - 1) != 0);
                }
            }
        }
        *self = trimmed;
        Some(UCoord { x: ox, y: oy })
    }
}

impl Block {
    /// Grows the block by one lane on each side whose outer row or column holds a live
    /// cell. Returns the shift of the old frame: minus one on an axis that grew at its low
    /// side, zero otherwise.
    pub fn add_border(&mut self) -> (r: Coord)
        requires
            old(self).wf(),
            can_grow(*old(self)),
        ensures
            final(self).wf(),
            r.x == if old(self).col_dead(0) { 0int } else { -1 },
            r.y == if old(self).row_dead(0) { 0int } else { -1 },
            final(self).x_size == old(self).x_size + (if old(self).col_dead(0) { 0int } else { 1 })
                + (if old(self).col_dead(old(self).x_size - 1) { 0int } else { 1 }),
            final(self).y_size == old(self).y_size + (if old(self).row_dead(0) { 0int } else { 1 })
                + (if old(self).row_dead(old(self).y_size - 1) { 0int } else { 1 }),
            final(self).shifted_from(old(self), r.x as int, r.y as int),
    {
        let ghost pre = *self;
        proof {
            self.lemma_col_dead(0);
            self.lemma_col_dead(self.x_size - 1);
            self.lemma_row_dead(0);
            self.lemma_row_dead(self.y_size - 1);
        }
        let left: u32 = if self.column_alive(0) == 0 { 0 } else { 1 };
        let bottom: u32 = if self.row_alive(0) == 0 { 0 } else { 1 };
        let right: u32 = if self.column_alive(self.x_size - 1) == 0 { 0 } else { 1 };
        let top: u32 = if self.row_alive(self.y_size - 1) == 0 { 0 } else { 1 };
        let nx = self.x_size + left + right;
        let ny = self.y_size + bottom + top;
        proof {
            let (a, b, c, d) = (nx as int, ny as int, self.x_size + 2, self.y_size + 2);
            assert(a * b <= c * d) by (nonlinear_arith)
                requires
                    0 <= a <= c,
                    0 <= b <= d,
            ;
        }
        let mut grown = Block::zeroed(nx, ny);
        grown.copy_rect(self, 0, 0, left, bottom, self.x_size, self.y_size);
        let r = Coord { x: 0 - left as i64, y: 0 - bottom as i64 };
        assert forall|x: int, y: int| #[trigger]
            grown.cell(x, y) == pre.cell(x + r.x, y + r.y) by {}
        *self = grown;
        r
    }

    /// Trims the block to its live cells and gives it a dead border of exactly one lane.
    /// Returns the offset of the new frame in the old one, or `None` on a dead block,
    /// which is left as it was.
    pub fn resize(&mut self) -> (r: Option<Coord>)
        requires
            old(self).wf(),
            can_grow(*old(self)),
        ensures
            resize_post(*old(self), *final(self), r),
            r matches Some(o) ==> {
                &&& final(self).x_size <= old(self).x_size + 2
                &&& final(self).y_size <= old(self).y_size + 2
                &&& -1 <= o.x <= old(self).x_size
                &&& -1 <= o.y <= old(self).y_size
            },
    {
        let ghost pre = *self;
        let cut = match self.cut_empty() {
            None => return None,
            Some(val) => val,
        };
        let ghost mid = *self;
        proof {
            assert((mid.x_size as int + 2) * (mid.y_size as int + 2) <= (pre.x_size as int + 2) * (
            pre.y_size as int + 2)) by (nonlinear_arith)
                requires
                    mid.x_size <= pre.x_size,
                    mid.y_size <= pre.y_size,
            ;
        }
        let border = self.add_border();
        let o = Coord { x: cut.x as i64 + border.x, y: cut.y as i64 + border.y };
        proof {
            let n = *self;
            assert(n.shifted_from(&pre, o.x as int, o.y as int)) by {
                assert forall|x: int, y: int| #[trigger] n.cell(x, y) == pre.cell(x + o.x, y + o.y) by {
                    assert(n.cell(x, y) == mid.cell(x + border.x, y + border.y));
                    assert(mid.cell(x + border.x, y + border.y) == pre.cell(
                        x + border.x + cut.x,
                        y + border.y + cut.y,
                    ));
                }
            }
            // the new outer lanes are dead
            assert(n.col_dead(0)) by {
                assert forall|y: int| #[trigger] n.cell(0, y) == 0 by {
                    assert(n.cell(0, y) == mid.cell(border.x as int, y + border.y));
                    if border.x == 0 {
                        assert(mid.col_dead(0));
                    }
                }
            }
            assert(n.row_dead(0)) by {
                assert forall|x: int| #[trigger] n.cell(x, 0) == 0 by {
                    assert(n.cell(x, 0) == mid.cell(x + border.x, border.y as int));
                    if border.y == 0 {
                        assert(mid.row_dead(0));
                    }
                }
            }
            assert(n.col_dead(n.x_size - 1)) by {
                assert forall|y: int| #[trigger] n.cell(n.x_size - 1, y) == 0 by {
                    assert(n.cell(n.x_size - 1, y) == mid.cell(
                        n.x_size - 1 + border.x,
                        y + border.y,
                    ));
                    if mid.col_dead(mid.x_size - 1) {
                        assert(mid.cell(mid.x_size - 1, y + border.y) == 0);
                    }
                }
            }
            assert(n.row_dead(n.y_size - 1)) by {
                assert forall|x: int| #[trigger] n.cell(x, n.y_size - 1) == 0 by {
                    assert(n.cell(x, n.y_size - 1) == mid.cell(
                        x + border.x,
                        n.y_size - 1 + border.y,
                    ));
                    if mid.row_dead(mid.y_size - 1) {
                        assert(mid.cell(x + border.x, mid.y_size - 1) == 0);
                    }
                }
            }
            // the lanes inside them are live
            assert(!n.col_dead(1)) by {
                let c: int = if border.x == 0 { 1 } else { 0 };
                let y = choose|y: int| #[trigger] mid.cell(c, y) != 0;
                assert(n.cell(1, y - border.y) == mid.cell(c, y));
            }
            assert(!n.row_dead(1)) by {
                let c: int = if border.y == 0 { 1 } else { 0 };
                let x = choose|x: int| #[trigger] mid.cell(x, c) != 0;
                assert(n.cell(x - border.x, 1) == mid.cell(x, c));
            }
            assert(!n.col_dead(n.x_size - 2)) by {
                let c: int = if mid.col_dead(mid.x_size - 1) {
                    mid.x_size - 2
                } else {
                    mid.x_size - 1
                };
                let y = choose|y: int| #[trigger] mid.cell(c, y) != 0;
                assert(n.cell(n.x_size - 2, y - border.y) == mid.cell(c, y));
            }
            assert(!n.row_dead(n.y_size - 2)) by {
                let c: int = if mid.row_dead(mid.y_size - 1) {
                    mid.y_size - 2
                } else {
                    mid.y_size - 1
                };
                let x = choose|x: int| #[trigger] mid.cell(x, c) != 0;
                assert(n.cell(x - border.x, n.y_size - 2) == mid.cell(x, c));
            }
        }
        Some(o)
    }
}

/// Resizing twice changes nothing the second time: the offset is zero and the block
/// is the one the first resize produced.
pub proof fn lemma_resize_idempotent(a: Block, b: Block, o: Coord, c: Block, r: Option<Coord>)
    requires
        a.wf(),
        resize_post(a, b, Some(o)),
        resize_post(b, c, r),
    ensures
        r == Some(Coord { x: 0, y: 0 }),
        c.same(&b),
{
    let (x0, y0) = choose|x: int, y: int| #[trigger] a.cell(x, y) == 1;
    assert(b.cell(x0 - o.x, y0 - o.y) == 1);
    assert(b.has_life());
    let o2 = r->Some_0;
    let (dx, dy) = (o2.x as int, o2.y as int);
    // the live lanes next to each border pin the offset and the dimensions
    if dx > 0 {
        let y = choose|y: int| #[trigger] b.cell(1, y) != 0;
        assert(c.cell(1 - dx, y - dy) == b.cell(1, y));
        assert(c.col_dead(0));
    }
    if dx < 0 {
        let y = choose|y: int| #[trigger] c.cell(1, y) != 0;
        assert(c.cell(1, y) == b.cell(1 + dx, y + dy));
        assert(b.col_dead(0));
    }
    if dy > 0 {
        let x = choose|x: int| #[trigger] b.cell(x, 1) != 0;
        assert(c.cell(x - dx, 1 - dy) == b.cell(x, 1));
        assert(c.row_dead(0));
    }
    if dy < 0 {
        let x = choose|x: int| #[trigger] c.cell(x, 1) != 0;
        assert(c.cell(x, 1) == b.cell(x + dx, 1 + dy));
        assert(b.row_dead(0));
    }
    assert(dx == 0 && dy == 0);
    if c.x_size > b.x_size {
        let y = choose|y: int| #[trigger] c.cell(c.x_size - 2, y) != 0;
        assert(c.cell(c.x_size - 2, y) == b.cell(c.x_size - 2, y));
        assert(b.col_dead(b.x_size - 1));
    }
    if c.x_size < b.x_size {
        let y = choose|y: int| #[trigger] b.cell(b.x_size - 2, y) != 0;
        assert(c.cell(b.x_size - 2, y) == b.cell(b.x_size - 2, y));
        assert(c.col_dead(c.x_size - 1));
    }
    if c.y_size > b.y_size {
        let x = choose|x: int| #[trigger] c.cell(x, c.y_size - 2) != 0;
        assert(c.cell(x, c.y_size - 2) == b.cell(x, c.y_size - 2));
        assert(b.row_dead(b.y_size - 1));
    }
    if c.y_size < b.y_size {
        let x = choose|x: int| #[trigger] b.cell(x, b.y_size - 2) != 0;
        assert(c.cell(x, b.y_size - 2) == b.cell(x, b.y_size - 2));
        assert(c.row_dead(c.y_size - 1));
    }
    assert forall|x: int, y: int| #[trigger] c.cell(x, y) == b.cell(x, y) by {
        assert(c.cell(x, y) == b.cell(x + dx, y + dy));
    }
    c.lemma_same_from_cells(&b);
}

/// Room to grow a block by `k` lanes on each axis.
pub open spec fn can_grow_by(b: Block, k: int) -> bool {
    &&& b.x_size + k <= u32::MAX
    &&& b.y_size + k <= u32::MAX
    &&& Block::fits(b.x_size + k, b.y_size + k)
}

/// A smaller allocation fits wherever a larger one does.
pub proof fn lemma_fits_mono(a: int, b: int, c: int, d: int)
    requires
        0 <= a <= c,
        0 <= b <= d,
        Block::fits(c, d),
    ensures
        Block::fits(a, b),
{
    assert(a * b <= c * d) by (nonlinear_arith)
        requires
            0 <= a <= c,
            0 <= b <= d,
    ;
}

/// `p`, placed at `o`, is a finished piece of `b`: dead border, no slack, and each of
/// its live cells is a live cell of `b`.
pub open spec fn piece_of(p: Block, o: Coord, b: Block) -> bool {
    &&& p.wf()
    &&& p.border_dead()
    &&& tight(p)
    &&& forall|x: int, y: int| #[trigger] p.cell(x, y) == 1 ==> b.cell(x + o.x, y + o.y) == 1
}

/// Some piece of `ps`, at its offset, has a live cell at `(x, y)`.
pub open spec fn covers(ps: Seq<(Block, Coord)>, x: int, y: int) -> bool {
    exists|i: int| 0 <= i < ps.len() && #[trigger] ps[i].0.cell(x - ps[i].1.x, y - ps[i].1.y) == 1
}

/// Columns `x - 1` and `x` of `b` are both dead: a place where `split` cuts.
pub open spec fn col_gap(b: Block, x: int) -> bool {
    b.col_dead(x - 1) && b.col_dead(x)
}

/// Rows `y - 1` and `y` of `b` are both dead.
pub open spec fn row_gap(b: Block, y: int) -> bool {
    b.row_dead(y - 1) && b.row_dead(y)
}

/// The live cells of `p`, placed at `o`, lie in columns `x0..x1` and rows `y0..y1`.
pub open spec fn lies_in(p: Block, o: Coord, x0: int, x1: int, y0: int, y1: int) -> bool {
    forall|i: int, j: int| #[trigger]
        p.cell(i, j) == 1 ==> x0 <= i + o.x < x1 && y0 <= j + o.y < y1
}

/// `p`, placed at `o`, lies on one side of every pair of adjacent dead columns of `b`,
/// and on one side of every pair of adjacent dead rows of `b`.
pub open spec fn apart(p: Block, o: Coord, b: Block) -> bool {
    &&& forall|x: int| #[trigger]
        col_gap(b, x) ==> (forall|i: int, j: int| #[trigger] p.cell(i, j) == 1 ==> i + o.x < x)
            || (forall|i: int, j: int| #[trigger] p.cell(i, j) == 1 ==> i + o.x >= x)
    &&& forall|y: int| #[trigger]
        row_gap(b, y) ==> (forall|i: int, j: int| #[trigger] p.cell(i, j) == 1 ==> j + o.y < y)
            || (forall|i: int, j: int| #[trigger] p.cell(i, j) == 1 ==> j + o.y >= y)
}

/// Piece `q` has a live cell at `(x, y)` of the frame it was cut from.
pub open spec fn piece_alive(q: (Block, Coord), x: int, y: int) -> bool {
    q.0.cell(x - q.1.x, y - q.1.y) == 1
}

/// No two pieces share a live cell.
pub open spec fn disjoint(ps: Seq<(Block, Coord)>) -> bool {
    forall|i: int, j: int, x: int, y: int|
        #![trigger piece_alive(ps[i], x, y), piece_alive(ps[j], x, y)]
        0 <= i < ps.len() && 0 <= j < ps.len() && i != j && piece_alive(ps[i], x, y)
            ==> !piece_alive(ps[j], x, y)
}

/// No gap of two dead columns of `b` lies between columns `x1` and `x2`.
pub open spec fn same_band(b: Block, x1: int, x2: int) -> bool {
    forall|x: int| #[trigger]
        col_gap(b, x) ==> !(vstd::math::min(x1, x2) < x <= vstd::math::max(x1, x2))
}

/// Row `y` of `b` is dead in every column of the band of column `x`.
pub open spec fn band_row_dead(b: Block, x: int, y: int) -> bool {
    forall|c: int| same_band(b, x, c) ==> #[trigger] b.cell(c, y) == 0
}

/// Cells `(x1, y1)` and `(x2, y2)` of `b` lie in one band of columns, and no two adjacent
/// rows between them are dead across that band.
#[verifier::opaque]
pub open spec fn linked(b: Block, x1: int, y1: int, x2: int, y2: int) -> bool {
    &&& same_band(b, x1, x2)
    &&& forall|y: int|
        vstd::math::min(y1, y2) < y <= vstd::math::max(y1, y2) ==> !(#[trigger] band_row_dead(
            b,
            x1,
            y,
        ) && band_row_dead(b, x1, y - 1))
}

/// Any two live cells of one piece are linked.
#[verifier::opaque]
pub open spec fn members_linked(b: Block, ps: Seq<(Block, Coord)>) -> bool {
    forall|i: int, x1: int, y1: int, x2: int, y2: int|
        #![trigger piece_alive(ps[i], x1, y1), piece_alive(ps[i], x2, y2)]
        0 <= i < ps.len() && piece_alive(ps[i], x1, y1) && piece_alive(ps[i], x2, y2) ==> linked(
            b,
            x1,
            y1,
            x2,
            y2,
        )
}

/// Adding a piece whose live cells are pairwise linked keeps every piece so.
pub proof fn lemma_members_linked_push(b: Block, ps: Seq<(Block, Coord)>, q: (Block, Coord))
    requires
        members_linked(b, ps),
        forall|x1: int, y1: int, x2: int, y2: int|
            #![trigger piece_alive(q, x1, y1), piece_alive(q, x2, y2)]
            piece_alive(q, x1, y1) && piece_alive(q, x2, y2) ==> linked(b, x1, y1, x2, y2),
    ensures
        members_linked(b, ps.push(q)),
{
    reveal(members_linked);
    let s = ps.push(q);
    assert forall|i: int, x1: int, y1: int, x2: int, y2: int|
        #![trigger piece_alive(s[i], x1, y1), piece_alive(s[i], x2, y2)]
        0 <= i < s.len() && piece_alive(s[i], x1, y1) && piece_alive(s[i], x2, y2) implies linked(
        b,
        x1,
        y1,
        x2,
        y2,
    ) by {
        if i < ps.len() {
            assert(s[i] == ps[i]);
            assert(piece_alive(ps[i], x1, y1) && piece_alive(ps[i], x2, y2));
        } else {
            assert(s[i] == q);
            assert(piece_alive(q, x1, y1) && piece_alive(q, x2, y2));
        }
    }
}

/// Two live cells of one region, whose columns share a band and between whose rows the
/// region has no gap of two dead rows, are linked.
pub proof fn lemma_region_linked(
    orig: Block,
    big: Block,
    ro: Coord,
    col: Block,
    cx: int,
    edge: int,
    y0: int,
    y1: int,
    xa: int,
    ya: int,
    xb: int,
    yb: int,
)
    requires
        big.shifted_from(&orig, ro.x as int, ro.y as int),
        big.wf(),
        big.border_dead(),
        forall|i: int, j: int| #[trigger]
            col.cell(i, j) == if i >= 0 && i + cx < edge {
                big.cell(i + cx, j)
            } else {
                0
            },
        forall|u: int, v: int|
            cx <= u - ro.x < edge && cx <= v - ro.x < edge ==> #[trigger] same_band(orig, u, v),
        forall|c: int| y0 < c < y1 && c <= big.y_size - 2 ==> !#[trigger] row_gap(col, c),
        cx <= xa - ro.x < edge,
        cx <= xb - ro.x < edge,
        y0 <= ya - ro.y < y1,
        y0 <= yb - ro.y < y1,
        orig.cell(xa, ya) == 1,
        orig.cell(xb, yb) == 1,
    ensures
        linked(orig, xa, ya, xb, yb),
{
    reveal(linked);
    assert(same_band(orig, xa, xb));
    assert(big.cell(xa - ro.x, ya - ro.y) == orig.cell(xa, ya));
    assert(big.cell(xb - ro.x, yb - ro.y) == orig.cell(xb, yb));
    assert(big.row_dead(big.y_size - 1));
    assert forall|y: int|
        vstd::math::min(ya, yb) < y <= vstd::math::max(ya, yb) implies !(#[trigger] band_row_dead(
        orig,
        xa,
        y,
    ) && band_row_dead(orig, xa, y - 1)) by {
        if band_row_dead(orig, xa, y) && band_row_dead(orig, xa, y - 1) {
            let c = y - ro.y;
            assert forall|i: int| #[trigger] col.cell(i, c) == 0 by {
                if i >= 0 && i + cx < edge {
                    assert(same_band(orig, xa, i + cx + ro.x));
                    assert(big.cell(i + cx, c) == orig.cell(i + cx + ro.x, y));
                }
            }
            assert forall|i: int| #[trigger] col.cell(i, c - 1) == 0 by {
                if i >= 0 && i + cx < edge {
                    assert(same_band(orig, xa, i + cx + ro.x));
                    assert(big.cell(i + cx, c - 1) == orig.cell(i + cx + ro.x, y - 1));
                }
            }
            assert(row_gap(col, c));
        }
    }
}

/// Every two live cells that are linked lie in one piece.
#[verifier::opaque]
pub open spec fn joined(b: Block, ps: Seq<(Block, Coord)>) -> bool {
    forall|x1: int, y1: int, x2: int, y2: int|
        #![trigger b.cell(x1, y1), b.cell(x2, y2)]
        b.cell(x1, y1) == 1 && b.cell(x2, y2) == 1 && linked(b, x1, y1, x2, y2) ==> exists|i: int|
            0 <= i < ps.len() && #[trigger] piece_alive(ps[i], x1, y1) && piece_alive(ps[i], x2, y2)
}

/// The pieces come band by band from the right, and within a band from the top: a cell
/// of an earlier piece lies in a band further right, or in the same band higher up.
#[verifier::opaque]
pub open spec fn ordered(b: Block, ps: Seq<(Block, Coord)>) -> bool {
    forall|i: int, j: int, x1: int, y1: int, x2: int, y2: int|
        #![trigger piece_alive(ps[i], x1, y1), piece_alive(ps[j], x2, y2)]
        0 <= i < j < ps.len() && piece_alive(ps[i], x1, y1) && piece_alive(ps[j], x2, y2) ==> (x1
            > x2 && !same_band(b, x1, x2)) || (same_band(b, x1, x2) && y1 > y2)
}

/// Adding a piece below or left of all others keeps the pieces ordered.
pub proof fn lemma_ordered_push(b: Block, ps: Seq<(Block, Coord)>, q: (Block, Coord))
    requires
        ordered(b, ps),
        forall|i: int, x1: int, y1: int, x2: int, y2: int|
            #![trigger piece_alive(ps[i], x1, y1), piece_alive(q, x2, y2)]
            0 <= i < ps.len() && piece_alive(ps[i], x1, y1) && piece_alive(q, x2, y2) ==> (x1
                > x2 && !same_band(b, x1, x2)) || (same_band(b, x1, x2) && y1 > y2),
    ensures
        ordered(b, ps.push(q)),
{
    reveal(ordered);
    let s = ps.push(q);
    assert forall|i: int, j: int, x1: int, y1: int, x2: int, y2: int|
        #![trigger piece_alive(s[i], x1, y1), piece_alive(s[j], x2, y2)]
        0 <= i < j < s.len() && piece_alive(s[i], x1, y1) && piece_alive(s[j], x2, y2) implies (x1
            > x2 && !same_band(b, x1, x2)) || (same_band(b, x1, x2) && y1 > y2) by {
        assert(s[i] == ps[i]);
        if j < ps.len() {
            assert(s[j] == ps[j]);
            assert(piece_alive(ps[i], x1, y1) && piece_alive(ps[j], x2, y2));
        } else {
            assert(s[j] == q);
            assert(piece_alive(ps[i], x1, y1) && piece_alive(q, x2, y2));
        }
    }
}

/// Within one band of cuts, cells share a band; across the cut at `edge` they do not.
pub proof fn lemma_band_sides(
    orig: Block,
    big: Block,
    ro: Coord,
    vs: Seq<u32>,
    k: int,
    edge: int,
    xa: int,
    xb: int,
)
    requires
        big.shifted_from(&orig, ro.x as int, ro.y as int),
        big.wf(),
        tight(big),
        0 <= k < vs.len(),
        forall|i: int, j: int| 0 <= i < j < vs.len() ==> vs[i] < vs[j],
        k + 1 < vs.len() ==> edge == vs[k + 1],
        vs[k] < edge <= big.x_size,
        edge == big.x_size || col_gap(big, edge),
        forall|c: int|
            1 <= c < big.x_size - 1 && #[trigger] col_gap(big, c) ==> exists|m: int|
                0 <= m < vs.len() && vs[m] == c,
    ensures
        vs[k] <= xa - ro.x < edge && vs[k] <= xb - ro.x < edge ==> same_band(orig, xa, xb),
        xa - ro.x >= edge && xb - ro.x < edge && edge < big.x_size ==> !same_band(orig, xa, xb),
{
    lemma_gaps_shift(big, orig, ro.x as int, ro.y as int);
    lemma_gaps_shift_back(big, orig, ro.x as int, ro.y as int);
    if vs[k] <= xa - ro.x < edge && vs[k] <= xb - ro.x < edge {
        assert forall|x: int| #[trigger] col_gap(orig, x) implies !(vstd::math::min(xa, xb) < x
            <= vstd::math::max(xa, xb)) by {
            let c = x - ro.x;
            assert(col_gap(big, c));
            if vstd::math::min(xa, xb) < x <= vstd::math::max(xa, xb) {
                if c == big.x_size - 1 {
                    assert(big.col_dead(big.x_size - 2));
                } else {
                    lemma_between_cuts(vs, k, edge, c);
                }
            }
        }
    }
    if xa - ro.x >= edge && xb - ro.x < edge && edge < big.x_size {
        assert(col_gap(orig, edge + ro.x));
    }
}

/// A linked cell of a region bounded by cuts lies in the same region. The region is the
/// band of columns `cx..edge` of `big`, and the rows `y0..y1` of `col`, that band of
/// `big` cut out; `big` is `orig` shifted by `ro`.
pub proof fn lemma_linked_in_region(
    orig: Block,
    big: Block,
    ro: Coord,
    col: Block,
    cx: int,
    edge: int,
    y0: int,
    y1: int,
    xa: int,
    ya: int,
    xb: int,
    yb: int,
)
    requires
        big.shifted_from(&orig, ro.x as int, ro.y as int),
        forall|i: int, j: int| #[trigger]
            col.cell(i, j) == if i >= 0 && i + cx < edge {
                big.cell(i + cx, j)
            } else {
                0
            },
        0 <= cx < edge <= big.x_size,
        cx == 0 || col_gap(big, cx),
        edge == big.x_size || col_gap(big, edge),
        0 <= y0 < y1 <= big.y_size,
        y0 == 0 || row_gap(col, y0),
        y1 == big.y_size || row_gap(col, y1),
        cx <= xa - ro.x < edge,
        y0 <= ya - ro.y < y1,
        orig.cell(xb, yb) == 1,
        linked(orig, xa, ya, xb, yb),
    ensures
        cx <= xb - ro.x < edge,
        y0 <= yb - ro.y < y1,
{
    reveal(linked);
    lemma_gaps_shift_back(big, orig, ro.x as int, ro.y as int);
    assert(big.cell(xb - ro.x, yb - ro.y) == 1);
    if xb - ro.x < cx {
        assert(col_gap(orig, cx + ro.x));
    }
    if xb - ro.x >= edge {
        if edge < big.x_size {
            assert(col_gap(orig, edge + ro.x));
        }
    }
    // a cut row of the region is dead across the band of `xa`
    assert forall|r: int| #[trigger] col.row_dead(r) implies band_row_dead(orig, xa, r + ro.y) by {
        assert forall|c: int| same_band(orig, xa, c) implies #[trigger] orig.cell(c, r + ro.y) == 0 by {
            let cr = c - ro.x;
            assert(orig.cell(c, r + ro.y) == big.cell(cr, r));
            if cx <= cr < edge {
                assert(col.cell(cr - cx, r) == 0);
            } else if cr < cx {
                if cx > 0 {
                    assert(col_gap(orig, cx + ro.x));
                }
            } else {
                if edge < big.x_size {
                    assert(col_gap(orig, edge + ro.x));
                }
            }
        }
    }
    if yb - ro.y < y0 {
        assert(y0 > 0);
        assert(band_row_dead(orig, xa, y0 + ro.y));
        assert(band_row_dead(orig, xa, y0 - 1 + ro.y));
    }
    if yb - ro.y >= y1 {
        if y1 < big.y_size {
            assert(band_row_dead(orig, xa, y1 + ro.y));
            assert(band_row_dead(orig, xa, y1 - 1 + ro.y));
        }
    }
}

/// Gaps of a shifted block are gaps of the block it was shifted from.
pub proof fn lemma_gaps_shift_back(new: Block, old: Block, dx: int, dy: int)
    requires
        new.shifted_from(&old, dx, dy),
    ensures
        forall|x: int| #[trigger] col_gap(new, x) ==> col_gap(old, x + dx),
        forall|y: int| #[trigger] row_gap(new, y) ==> row_gap(old, y + dy),
{
    assert forall|x: int| #[trigger] col_gap(new, x) implies col_gap(old, x + dx) by {
        assert forall|y: int| #[trigger] old.cell(x + dx, y) == 0 by {
            assert(new.cell(x, y - dy) == old.cell(x + dx, y));
        }
        assert forall|y: int| #[trigger] old.cell(x + dx - 1, y) == 0 by {
            assert(new.cell(x - 1, y - dy) == old.cell(x + dx - 1, y));
        }
    }
    assert forall|y: int| #[trigger] row_gap(new, y) implies row_gap(old, y + dy) by {
        assert forall|x: int| #[trigger] old.cell(x, y + dy) == 0 by {
            assert(new.cell(x - dx, y) == old.cell(x, y + dy));
        }
        assert forall|x: int| #[trigger] old.cell(x, y + dy - 1) == 0 by {
            assert(new.cell(x - dx, y - 1) == old.cell(x, y + dy - 1));
        }
    }
}

/// What `split` returns: finished pieces of `b`, no two sharing a cell, each on one side
/// of every gap of two dead columns or two dead rows of `b`, that together hold every
/// live cell of `b`, two live cells in the same piece exactly when they are linked, in
/// cutting order.
pub open spec fn split_post(b: Block, ps: Seq<(Block, Coord)>) -> bool {
    &&& forall|i: int| 0 <= i < ps.len() ==> piece_of(#[trigger] ps[i].0, ps[i].1, b)
    &&& forall|i: int| 0 <= i < ps.len() ==> apart(#[trigger] ps[i].0, ps[i].1, b)
    &&& disjoint(ps)
    &&& joined(b, ps)
    &&& members_linked(b, ps)
    &&& ordered(b, ps)
    &&& forall|x: int, y: int| #[trigger] b.cell(x, y) == 1 ==> covers(ps, x, y)
}

/// Adding a piece that shares no cell with the others keeps the pieces disjoint.
pub proof fn lemma_disjoint_push(ps: Seq<(Block, Coord)>, q: (Block, Coord))
    requires
        disjoint(ps),
        forall|i: int, x: int, y: int|
            0 <= i < ps.len() && #[trigger] piece_alive(ps[i], x, y) ==> !piece_alive(q, x, y),
    ensures
        disjoint(ps.push(q)),
{
    let s = ps.push(q);
    assert forall|i: int, j: int, x: int, y: int|
        #![trigger piece_alive(s[i], x, y), piece_alive(s[j], x, y)]
        0 <= i < s.len() && 0 <= j < s.len() && i != j && piece_alive(s[i], x, y)
            implies !piece_alive(s[j], x, y) by {
        if i < ps.len() {
            assert(s[i] == ps[i]);
        }
        if j < ps.len() {
            assert(s[j] == ps[j]);
        }
        if i < ps.len() && j < ps.len() {
            assert(piece_alive(ps[i], x, y));
        } else if i < ps.len() {
            assert(piece_alive(ps[i], x, y));
        } else {
            assert(s[i] == q);
            if piece_alive(s[j], x, y) {
                assert(piece_alive(ps[j], x, y));
            }
        }
    }
}

/// A piece held in a rectangle with no gap strictly inside it is apart.
pub proof fn lemma_apart(p: Block, o: Coord, b: Block, x0: int, x1: int, y0: int, y1: int)
    requires
        lies_in(p, o, x0, x1, y0, y1),
        forall|x: int| #[trigger] col_gap(b, x) ==> x <= x0 || x >= x1,
        forall|y: int| #[trigger] row_gap(b, y) ==> y <= y0 || y >= y1,
    ensures
        apart(p, o, b),
{
}

/// A cut position lies at or before cut `k`, or at or after the next one.
pub proof fn lemma_between_cuts(s: Seq<u32>, k: int, end: int, x: int)
    requires
        0 <= k < s.len(),
        forall|i: int, j: int| 0 <= i < j < s.len() ==> s[i] < s[j],
        k + 1 < s.len() ==> end == s[k + 1],
        exists|m: int| 0 <= m < s.len() && s[m] == x,
    ensures
        x <= s[k] || x >= end,
{
    let m = choose|m: int| 0 <= m < s.len() && s[m] == x;
    if m > k {
        assert(s[k + 1] <= s[m]);
    }
}

/// Gaps move with the cells when a block is shifted.
pub proof fn lemma_gaps_shift(new: Block, old: Block, dx: int, dy: int)
    requires
        new.shifted_from(&old, dx, dy),
    ensures
        forall|x: int| #[trigger] col_gap(old, x) ==> col_gap(new, x - dx),
        forall|y: int| #[trigger] row_gap(old, y) ==> row_gap(new, y - dy),
{
    assert forall|x: int| #[trigger] col_gap(old, x) implies col_gap(new, x - dx) by {
        assert forall|y: int| #[trigger] new.cell(x - dx, y) == 0 by {
            assert(new.cell(x - dx, y) == old.cell(x, y + dy));
        }
        assert forall|y: int| #[trigger] new.cell(x - dx - 1, y) == 0 by {
            assert(new.cell(x - dx - 1, y) == old.cell(x - 1, y + dy));
        }
    }
    assert forall|y: int| #[trigger] row_gap(old, y) implies row_gap(new, y - dy) by {
        assert forall|x: int| #[trigger] new.cell(x, y - dy) == 0 by {
            assert(new.cell(x, y - dy) == old.cell(x + dx, y));
        }
        assert forall|x: int| #[trigger] new.cell(x, y - dy - 1) == 0 by {
            assert(new.cell(x, y - dy - 1) == old.cell(x + dx, y - 1));
        }
    }
}

/// Adding a piece keeps every covered cell covered.
pub proof fn lemma_covers_push(ps: Seq<(Block, Coord)>, q: (Block, Coord), x: int, y: int)
    requires
        covers(ps, x, y),
    ensures
        covers(ps.push(q), x, y),
{
    let i = choose|i: int|
        0 <= i < ps.len() && #[trigger] ps[i].0.cell(x - ps[i].1.x, y - ps[i].1.y) == 1;
    assert(ps.push(q)[i] == ps[i]);
}

/// A cell live in an added piece is covered.
pub proof fn lemma_covers_last(ps: Seq<(Block, Coord)>, q: (Block, Coord), x: int, y: int)
    requires
        q.0.cell(x - q.1.x, y - q.1.y) == 1,
    ensures
        covers(ps.push(q), x, y),
{
    assert(ps.push(q)[ps.len() as int] == q);
}

/// A finished piece lies within its block's frame grown by one lane.
pub proof fn lemma_piece_within(p: Block, o: Coord, b: Block)
    requires
        piece_of(p, o, b),
    ensures
        -1 <= o.x,
        o.x + p.x_size <= b.x_size + 1,
        -1 <= o.y,
        o.y + p.y_size <= b.y_size + 1,
{
    let y1 = choose|y: int| #[trigger] p.cell(1, y) != 0;
    p.lemma_cell_range(1, y1);
    assert(b.cell(1 + o.x, y1 + o.y) == 1);
    let y2 = choose|y: int| #[trigger] p.cell(p.x_size - 2, y) != 0;
    p.lemma_cell_range(p.x_size - 2, y2);
    assert(b.cell(p.x_size - 2 + o.x, y2 + o.y) == 1);
    let x1 = choose|x: int| #[trigger] p.cell(x, 1) != 0;
    p.lemma_cell_range(x1, 1);
    assert(b.cell(x1 + o.x, 1 + o.y) == 1);
    let x2 = choose|x: int| #[trigger] p.cell(x, p.y_size - 2) != 0;
    p.lemma_cell_range(x2, p.y_size - 2);
    assert(b.cell(x2 + o.x, p.y_size - 2 + o.y) == 1);
}

impl Block {
    /// Cuts off the rows from `cut_line` up and returns them as a block of their own;
    /// `self` keeps the rows below.
    pub fn cut_block_top(&mut self, cut_line: u32) -> (piece: Block)
        requires
            old(self).wf(),
            1 <= cut_line < old(self).y_size,
            Block::fits(
                vstd::math::max(3, old(self).x_size as int),
                vstd::math::max(3, old(self).y_size - cut_line),
            ),
        ensures
            piece.wf(),
            piece.x_size == vstd::math::max(3, old(self).x_size as int),
            piece.y_size == vstd::math::max(3, old(self).y_size - cut_line),
            forall|i: int, j: int| #[trigger]
                piece.cell(i, j) == if j >= 0 {
                    old(self).cell(i, j + cut_line)
                } else {
                    0
                },
            final(self).wf(),
            final(self).x_size == old(self).x_size,
            final(self).y_size == cut_line,
            forall|i: int, j: int| #[trigger]
                final(self).cell(i, j) == if j < cut_line {
                    old(self).cell(i, j)
                } else {
                    0
                },
    {
        let ghost pre = *self;
        let h = self.y_size - cut_line;
        let mut piece = Block::new(self.x_size, h);
        piece.copy_rect(self, 0, cut_line, 0, 0, self.x_size, h);
        let dlen = self.data.len();
        proof {
            let (w, c) = (self.x_size as int, cut_line as int);
            assert(w * c <= dlen) by (nonlinear_arith)
                requires
                    dlen == w * self.y_size,
                    c < self.y_size,
                    w >= 0,
            ;
        }
        let len: usize = (self.x_size as usize) * (cut_line as usize);
        self.y_size = cut_line;
        self.data.truncate(len);
        proof {
            assert forall|i: int, j: int| #[trigger]
                self.cell(i, j) == if j < cut_line {
                    pre.cell(i, j)
                } else {
                    0
                } by {
                if self.inside(i, j) {
                    lemma_lin_bounds(self.x_size as int, cut_line as int, i, j);
                }
            }
        }
        piece
    }

    /// Cuts off the columns from `cut_line` rightwards and returns them as a block of their
    /// own; `self` keeps the columns to the left, or everything when `cut_line` is 0.
    pub fn cut_block_right(&mut self, cut_line: u32) -> (piece: Block)
        requires
            old(self).wf(),
            cut_line < old(self).x_size,
            Block::fits(
                vstd::math::max(3, old(self).x_size as int),
                vstd::math::max(3, old(self).y_size as int),
            ),
        ensures
            piece.wf(),
            piece.x_size == vstd::math::max(3, old(self).x_size - cut_line),
            piece.y_size == vstd::math::max(3, old(self).y_size as int),
            forall|i: int, j: int| #[trigger]
                piece.cell(i, j) == if i >= 0 {
                    old(self).cell(i + cut_line, j)
                } else {
                    0
                },
            cut_line == 0 ==> *final(self) == *old(self),
            cut_line > 0 ==> {
                &&& final(self).wf()
                &&& final(self).x_size == vstd::math::max(3, cut_line as int)
                &&& final(self).y_size == vstd::math::max(3, old(self).y_size as int)
                &&& forall|i: int, j: int| #[trigger]
                    final(self).cell(i, j) == if i < cut_line {
                        old(self).cell(i, j)
                    } else {
                        0
                    }
            },
    {
        let w = self.x_size - cut_line;
        proof {
            lemma_fits_mono(
                vstd::math::max(3, w as int),
                vstd::math::max(3, self.y_size as int),
                vstd::math::max(3, self.x_size as int),
                vstd::math::max(3, self.y_size as int),
            );
            lemma_fits_mono(
                vstd::math::max(3, cut_line as int),
                vstd::math::max(3, self.y_size as int),
                vstd::math::max(3, self.x_size as int),
                vstd::math::max(3, self.y_size as int),
            );
        }
        let mut piece = Block::new(w, self.y_size);
        piece.copy_rect(self, cut_line, 0, 0, 0, w, self.y_size);
        if cut_line == 0 {
            return piece;
        }
        let mut rest = Block::new(cut_line, self.y_size);
        rest.copy_rect(self, 0, 0, 0, 0, cut_line, self.y_size);
        *self = rest;
        piece
    }
}

/// A block with a dead border and live lanes inside it is at least three cells wide and tall.
pub proof fn lemma_finished_dims(b: Block)
    requires
        b.wf(),
        b.border_dead(),
        tight(b),
    ensures
        b.x_size >= 3,
        b.y_size >= 3,
{
    let y = choose|y: int| #[trigger] b.cell(1, y) != 0;
    let x = choose|x: int| #[trigger] b.cell(x, 1) != 0;
    assert(b.cell(b.x_size - 1, y) == 0);
    assert(b.cell(x, b.y_size - 1) == 0);
}

impl Block {
    /// Splits the block into independent pieces, each with its offset in this block's
    /// frame. The block is first resized; then it is cut at every pair of adjacent dead
    /// columns, right to left, and each such column piece at every pair of adjacent dead
    /// rows, top to bottom. Every piece is resized and dead pieces are dropped.
    /// `None` when the block holds no live cell.
    #[verifier::rlimit(100)]
    #[verifier::spinoff_prover]
    pub fn split(self) -> (r: Option<Vec<(Block, Coord)>>)
        requires
            self.wf(),
            can_grow_by(self, 4),
        ensures
            r is None <==> !self.has_life(),
            r matches Some(v) ==> split_post(self, v@),
    {
        let ghost orig = self;
        let mut blk = self;
        proof {
            lemma_fits_mono(orig.x_size + 2, orig.y_size + 2, orig.x_size + 4, orig.y_size + 4);
        }
        let ro = match blk.resize() {
            None => return None,
            Some(i) => i,
        };
        let ghost big = blk;
        proof {
            lemma_finished_dims(big);
            lemma_fits_mono(big.x_size as int, big.y_size as int, orig.x_size + 4, orig.y_size + 4);
            lemma_gaps_shift(big, orig, ro.x as int, ro.y as int);
        }
        let bx = blk.x_size;
        let by = blk.y_size;
        let mut vert_splits: Vec<u32> = Vec::new();
        vert_splits.push(0);
        for x in 1..bx - 1
            invariant
                blk == big,
                big.wf(),
                bx == big.x_size,
                bx >= 3,
                vert_splits@.len() >= 1,
                vert_splits@[0] == 0,
                forall|i: int, j: int|
                    0 <= i < j < vert_splits@.len() ==> vert_splits@[i] < vert_splits@[j],
                forall|i: int| 0 <= i < vert_splits@.len() ==> vert_splits@[i] < x,
                forall|c: int|
                    1 <= c < x && #[trigger] col_gap(big, c) ==> exists|m: int|
                        0 <= m < vert_splits@.len() && vert_splits@[m] == c,
                forall|i: int| 0 < i < vert_splits@.len() ==> col_gap(big, #[trigger] vert_splits@[i] as int),
        {
            proof {
                big.lemma_col_dead(x as int);
                big.lemma_col_dead(x - 1);
            }
            let ghost before = vert_splits@;
            if blk.column_alive(x) == 0 && blk.column_alive(x - 1) == 0 {
                vert_splits.push(x);
            }
            proof {
                assert forall|c: int|
                    1 <= c < x + 1 && #[trigger] col_gap(big, c) implies exists|m: int|
                        0 <= m < vert_splits@.len() && vert_splits@[m] == c by {
                    if c == x {
                        assert(vert_splits@[before.len() as int] == c);
                    } else {
                        let m = choose|m: int| 0 <= m < before.len() && before[m] == c;
                        assert(vert_splits@[m] == c);
                    }
                }
            }
        }
        let mut pieces: Vec<(Block, Coord)> = Vec::new();
        proof {
            assert forall|x1: int, y1: int, x2: int, y2: int|
                #![trigger orig.cell(x1, y1), orig.cell(x2, y2)]
                orig.cell(x1, y1) == 1 && orig.cell(x2, y2) == 1 && (x1 - ro.x >= bx) && linked(
                        orig,
                        x1,
                        y1,
                        x2,
                        y2,
                    ) implies exists|i: int|
                        0 <= i < pieces@.len() && #[trigger] piece_alive(pieces@[i], x1, y1)
                            && piece_alive(pieces@[i], x2, y2) by {
                assert(big.cell(x1 - ro.x, y1 - ro.y) == orig.cell(x1, y1));
            }
        }
        proof {
            reveal(ordered);
            reveal(members_linked);
        }
        let mut k: usize = vert_splits.len();
        let ghost mut edge: int = bx as int;
        while k > 0
            invariant
                k <= vert_splits@.len(),
                vert_splits@[0] == 0,
                forall|i: int, j: int|
                    0 <= i < j < vert_splits@.len() ==> vert_splits@[i] < vert_splits@[j],
                forall|i: int| 0 <= i < vert_splits@.len() ==> vert_splits@[i] < bx,
                edge == if k == vert_splits@.len() {
                    bx as int
                } else {
                    vert_splits@[k as int] as int
                },
                big.wf(),
                bx == big.x_size,
                by == big.y_size,
                bx >= 3,
                by >= 3,
                resize_post(orig, big, Some(ro)),
                big.x_size <= orig.x_size + 2,
                big.y_size <= orig.y_size + 2,
                -1 <= ro.x <= orig.x_size,
                -1 <= ro.y <= orig.y_size,
                can_grow_by(orig, 4),
                Block::fits(bx as int, by as int),
                k > 0 ==> {
                    &&& blk.wf()
                    &&& blk.y_size == by
                    &&& 3 <= blk.x_size <= bx
                    &&& edge <= blk.x_size
                    &&& forall|i: int, j: int| #[trigger]
                        blk.cell(i, j) == if i < edge {
                            big.cell(i, j)
                        } else {
                            0
                        }
                },
                forall|i: int|
                    0 <= i < pieces@.len() ==> piece_of(#[trigger] pieces@[i].0, pieces@[i].1, orig),
                forall|i: int|
                    0 <= i < pieces@.len() ==> apart(#[trigger] pieces@[i].0, pieces@[i].1, orig),
                disjoint(pieces@),
                ordered(orig, pieces@),
                members_linked(orig, pieces@),
                forall|i: int, x: int, y: int|
                    0 <= i < pieces@.len() && #[trigger] piece_alive(pieces@[i], x, y) ==> x - ro.x
                        >= edge,
                forall|i: int| 0 < i < vert_splits@.len() ==> col_gap(big, #[trigger] vert_splits@[i] as int),
                forall|x1: int, y1: int, x2: int, y2: int|
                    #![trigger orig.cell(x1, y1), orig.cell(x2, y2)]
                    orig.cell(x1, y1) == 1 && orig.cell(x2, y2) == 1 && x1 - ro.x >= edge && linked(
                        orig,
                        x1,
                        y1,
                        x2,
                        y2,
                    ) ==> exists|i: int|
                        0 <= i < pieces@.len() && #[trigger] piece_alive(pieces@[i], x1, y1)
                            && piece_alive(pieces@[i], x2, y2),
                forall|c: int|
                    1 <= c < bx - 1 && #[trigger] col_gap(big, c) ==> exists|m: int|
                        0 <= m < vert_splits@.len() && vert_splits@[m] == c,
                forall|x: int| #[trigger] col_gap(orig, x) ==> col_gap(big, x - ro.x),
                forall|y: int| #[trigger] row_gap(orig, y) ==> row_gap(big, y - ro.y),
                forall|x: int, y: int|
                    #![trigger big.cell(x, y)]
                    big.cell(x, y) == 1 && x >= edge ==> covers(pieces@, x + ro.x, y + ro.y),
            decreases k,
        {
            k = k - 1;
            let cx = vert_splits[k];
            assert(k > 0 ==> vert_splits@[0] < vert_splits@[k as int]);
            let ghost rest = blk;
            proof {
                lemma_fits_mono(rest.x_size as int, by as int, bx as int, by as int);
            }
            let mut column = blk.cut_block_right(cx);
            let ghost col0 = column;
            assert(forall|i: int, j: int| #[trigger]
                col0.cell(i, j) == if i >= 0 && i + cx < edge {
                    big.cell(i + cx, j)
                } else {
                    0
                });
            // the pieces of this column band lie between this cut and the previous one
            proof {
                assert forall|x: int| #[trigger] col_gap(orig, x) implies x - ro.x <= cx || x - ro.x
                    >= edge by {
                    let c = x - ro.x;
                    assert(col_gap(big, c));
                    if c == bx - 1 {
                        assert(big.col_dead(big.x_size - 2));
                    } else if 1 <= c < bx - 1 {
                        lemma_between_cuts(vert_splits@, k as int, edge, c);
                    }
                }
                assert forall|y: int| #[trigger] row_gap(big, y) implies row_gap(col0, y) by {
                    assert forall|i: int| #[trigger] col0.cell(i, y) == 0 by {
                        assert(big.cell(i + cx, y) == 0);
                    }
                    assert forall|i: int| #[trigger] col0.cell(i, y - 1) == 0 by {
                        assert(big.cell(i + cx, y - 1) == 0);
                    }
                }
            }
            let ys = column.y_size;
            let mut horiz: Vec<u32> = Vec::new();
            for y in 1..ys - 1
                invariant
                    column == col0,
                    col0.wf(),
                    ys == col0.y_size,
                    ys >= 3,
                    forall|i: int, j: int| 0 <= i < j < horiz@.len() ==> horiz@[i] < horiz@[j],
                    forall|i: int| 0 <= i < horiz@.len() ==> 1 <= #[trigger] horiz@[i] < y,
                    forall|c: int|
                        1 <= c < y && #[trigger] row_gap(col0, c) ==> exists|m: int|
                            0 <= m < horiz@.len() && horiz@[m] == c,
                    forall|i: int| 0 <= i < horiz@.len() ==> row_gap(col0, #[trigger] horiz@[i] as int),
            {
                proof {
                    col0.lemma_row_dead(y as int);
                    col0.lemma_row_dead(y - 1);
                }
                let ghost before = horiz@;
                if column.row_alive(y) == 0 && column.row_alive(y - 1) == 0 {
                    horiz.push(y);
                }
                proof {
                    assert forall|c: int|
                        1 <= c < y + 1 && #[trigger] row_gap(col0, c) implies exists|m: int|
                            0 <= m < horiz@.len() && horiz@[m] == c by {
                        if c == y {
                            assert(horiz@[before.len() as int] == c);
                        } else {
                            let m = choose|m: int| 0 <= m < before.len() && before[m] == c;
                            assert(horiz@[m] == c);
                        }
                    }
                }
            }
            proof {
                assert forall|x1: int, y1: int, x2: int, y2: int|
                    #![trigger orig.cell(x1, y1), orig.cell(x2, y2)]
                    orig.cell(x1, y1) == 1 && orig.cell(x2, y2) == 1 && (x1 - ro.x >= edge || (cx <= x1 - ro.x && y1 - ro.y >= ys)) && linked(
                        orig,
                        x1,
                        y1,
                        x2,
                        y2,
                    ) implies exists|i: int|
                        0 <= i < pieces@.len() && #[trigger] piece_alive(pieces@[i], x1, y1)
                            && piece_alive(pieces@[i], x2, y2) by {
                    assert(big.cell(x1 - ro.x, y1 - ro.y) == orig.cell(x1, y1));
                }
            }
            proof {
                assert forall|xa: int, xb: int|
                    cx <= xa - ro.x < edge && cx <= xb - ro.x < edge implies #[trigger] same_band(
                    orig,
                    xa,
                    xb,
                ) by {
                    lemma_band_sides(orig, big, ro, vert_splits@, k as int, edge, xa, xb);
                }
                assert forall|xa: int, xb: int|
                    xa - ro.x >= edge && xb - ro.x < edge && edge < bx implies !#[trigger] same_band(
                    orig,
                    xa,
                    xb,
                ) by {
                    lemma_band_sides(orig, big, ro, vert_splits@, k as int, edge, xa, xb);
                }
            }
            let mut m: usize = horiz.len();
            let ghost mut top_edge: int = ys as int;
            while m > 0
                invariant
                    m <= horiz@.len(),
                    forall|i: int, j: int| 0 <= i < j < horiz@.len() ==> horiz@[i] < horiz@[j],
                    forall|i: int| 0 <= i < horiz@.len() ==> 1 <= #[trigger] horiz@[i] < ys,
                    top_edge == if m == horiz@.len() {
                        ys as int
                    } else {
                        horiz@[m as int] as int
                    },
                    col0.wf(),
                    ys == col0.y_size,
                    ys == by,
                    3 <= col0.x_size <= bx,
                    column.wf(),
                    column.x_size == col0.x_size,
                    column.y_size == top_edge,
                    forall|i: int, j: int| #[trigger]
                        column.cell(i, j) == if j < top_edge {
                            col0.cell(i, j)
                        } else {
                            0
                        },
                    forall|i: int, j: int| #[trigger]
                        col0.cell(i, j) == if i >= 0 && i + cx < edge {
                            big.cell(i + cx, j)
                        } else {
                            0
                        },
                    cx < edge,
                    edge <= bx,
                    big.wf(),
                    bx == big.x_size,
                    by == big.y_size,
                    resize_post(orig, big, Some(ro)),
                    big.x_size <= orig.x_size + 2,
                    big.y_size <= orig.y_size + 2,
                    -1 <= ro.x <= orig.x_size,
                    -1 <= ro.y <= orig.y_size,
                    can_grow_by(orig, 4),
                    Block::fits(bx as int, by as int),
                    forall|i: int|
                        0 <= i < pieces@.len() ==> piece_of(
                            #[trigger] pieces@[i].0,
                            pieces@[i].1,
                            orig,
                        ),
                    forall|i: int|
                        0 <= i < pieces@.len() ==> apart(
                            #[trigger] pieces@[i].0,
                            pieces@[i].1,
                            orig,
                        ),
                    disjoint(pieces@),
                    ordered(orig, pieces@),
                    members_linked(orig, pieces@),
                    forall|xa: int, xb: int|
                        cx <= xa - ro.x < edge && cx <= xb - ro.x < edge ==> #[trigger] same_band(
                            orig,
                            xa,
                            xb,
                        ),
                    forall|xa: int, xb: int|
                        xa - ro.x >= edge && xb - ro.x < edge && edge < bx ==> !#[trigger] same_band(
                            orig,
                            xa,
                            xb,
                        ),
                    forall|i: int, x: int, y: int|
                        0 <= i < pieces@.len() && #[trigger] piece_alive(pieces@[i], x, y) ==> x
                            - ro.x >= edge || (x - ro.x >= cx && y - ro.y >= top_edge),
                    forall|i: int| 0 <= i < horiz@.len() ==> row_gap(col0, #[trigger] horiz@[i] as int),
                    top_edge == ys || row_gap(col0, top_edge),
                    cx == 0 || col_gap(big, cx as int),
                    edge == bx || col_gap(big, edge),
                    forall|x1: int, y1: int, x2: int, y2: int|
                        #![trigger orig.cell(x1, y1), orig.cell(x2, y2)]
                        orig.cell(x1, y1) == 1 && orig.cell(x2, y2) == 1 && (x1 - ro.x >= edge || (cx
                            <= x1 - ro.x && y1 - ro.y >= top_edge)) && linked(orig, x1, y1, x2, y2)
                            ==> exists|i: int|
                            0 <= i < pieces@.len() && #[trigger] piece_alive(pieces@[i], x1, y1)
                                && piece_alive(pieces@[i], x2, y2),
                    forall|c: int|
                        1 <= c < ys - 1 && #[trigger] row_gap(col0, c) ==> exists|m: int|
                            0 <= m < horiz@.len() && horiz@[m] == c,
                    forall|y: int| #[trigger] row_gap(big, y) ==> row_gap(col0, y),
                    forall|x: int| #[trigger]
                        col_gap(orig, x) ==> x - ro.x <= cx || x - ro.x >= edge,
                    forall|y: int| #[trigger] row_gap(orig, y) ==> row_gap(big, y - ro.y),
                    forall|x: int, y: int|
                        #![trigger big.cell(x, y)]
                        big.cell(x, y) == 1 && x >= edge ==> covers(pieces@, x + ro.x, y + ro.y),
                    forall|x: int, y: int|
                        #![trigger col0.cell(x, y)]
                        col0.cell(x, y) == 1 && y >= top_edge ==> covers(
                            pieces@,
                            x + cx + ro.x,
                            y + ro.y,
                        ),
                decreases m,
            {
                m = m - 1;
                let cy = horiz[m];
                assert(m + 1 < horiz@.len() ==> horiz@[m as int] < horiz@[m + 1]);
                let ghost cprev = column;
                proof {
                    lemma_fits_mono(column.x_size as int, 3, bx as int, by as int);
                    lemma_fits_mono(column.x_size as int, top_edge - cy, bx as int, by as int);
                }
                let mut piece = column.cut_block_top(cy);
                let ghost pc = piece;
                proof {
                    lemma_fits_mono(pc.x_size + 2, pc.y_size + 2, orig.x_size + 4, orig.y_size + 4);
                }
                let ghost pieces_before = pieces@;
                proof {
                    assert forall|y: int| #[trigger] row_gap(orig, y) implies y - ro.y <= cy || y
                        - ro.y >= top_edge by {
                        let c = y - ro.y;
                        assert(row_gap(big, c));
                        assert(row_gap(col0, c));
                        if c == by - 1 {
                            assert(big.row_dead(big.y_size - 2));
                        } else if 1 <= c < ys - 1 {
                            lemma_between_cuts(horiz@, m as int, top_edge, c);
                        }
                    }
                }
                match piece.resize() {
                    None => {
                        proof {
                            assert forall|x: int, y: int|
                                #![trigger orig.cell(x, y)]
                                orig.cell(x, y) == 1 && cx <= x - ro.x < edge && cy <= y - ro.y
                                    < top_edge implies pieces@.len() == pieces_before.len() + 1
                                && piece_alive(pieces@[pieces_before.len() as int], x, y) by {
                                let (xr, yr) = (x - ro.x, y - ro.y);
                                assert(big.cell(xr, yr) == orig.cell(x, y));
                                assert(col0.cell(xr - cx, yr) == big.cell(xr, yr));
                                assert(cprev.cell(xr - cx, yr) == col0.cell(xr - cx, yr));
                                assert(pc.cell(xr - cx, yr - cy) == cprev.cell(xr - cx, yr));
                                assert(pc.has_life());
                            }
                        }
                    },
                    Some(i) => {
                        let off = i.add(ro).add(Coord::from(UCoord { x: cx, y: cy }));
                        proof {
                            let p = piece;
                            assert forall|a: int, b: int| #[trigger] p.cell(a, b) == 1 implies cx
                                + ro.x <= a + off.x < edge + ro.x && cy + ro.y <= b + off.y
                                < top_edge + ro.y by {
                                assert(p.cell(a, b) == pc.cell(a + i.x, b + i.y));
                                assert(b + i.y >= 0);
                                assert(pc.cell(a + i.x, b + i.y) == cprev.cell(a + i.x, b + i.y + cy));
                                assert(b + i.y + cy < top_edge);
                                assert(cprev.cell(a + i.x, b + i.y + cy) == col0.cell(
                                    a + i.x,
                                    b + i.y + cy,
                                ));
                            }
                            assert(lies_in(p, off, cx + ro.x, edge + ro.x, cy + ro.y, top_edge + ro.y));
                            lemma_apart(p, off, orig, cx + ro.x, edge + ro.x, cy + ro.y, top_edge + ro.y);
                            let q = (p, off);
                            assert forall|k: int, x: int, y: int|
                                0 <= k < pieces_before.len() && #[trigger] piece_alive(
                                    pieces_before[k],
                                    x,
                                    y,
                                ) implies !piece_alive(q, x, y) by {
                                if piece_alive(q, x, y) {
                                    assert(p.cell(x - off.x, y - off.y) == 1);
                                }
                            }
                            lemma_disjoint_push(pieces_before, q);
                            assert forall|c: int|
                                cy < c < top_edge && c <= big.y_size - 2 implies !#[trigger] row_gap(
                                col0,
                                c,
                            ) by {
                                if row_gap(col0, c) {
                                    lemma_between_cuts(horiz@, m as int, top_edge, c);
                                }
                            }
                            assert forall|x1: int, y1: int, x2: int, y2: int|
                                #![trigger piece_alive(q, x1, y1), piece_alive(q, x2, y2)]
                                piece_alive(q, x1, y1) && piece_alive(q, x2, y2) implies linked(
                                orig,
                                x1,
                                y1,
                                x2,
                                y2,
                            ) by {
                                assert(p.cell(x1 - off.x, y1 - off.y) == 1);
                                assert(p.cell(x2 - off.x, y2 - off.y) == 1);
                                lemma_region_linked(
                                    orig,
                                    big,
                                    ro,
                                    col0,
                                    cx as int,
                                    edge,
                                    cy as int,
                                    top_edge,
                                    x1,
                                    y1,
                                    x2,
                                    y2,
                                );
                            }
                            lemma_members_linked_push(orig, pieces_before, q);
                            assert forall|k2: int, x1: int, y1: int, x2: int, y2: int|
                                #![trigger piece_alive(pieces_before[k2], x1, y1), piece_alive(q, x2, y2)]
                                0 <= k2 < pieces_before.len() && piece_alive(pieces_before[k2], x1, y1)
                                    && piece_alive(q, x2, y2) implies (x1 > x2 && !same_band(
                                orig,
                                x1,
                                x2,
                            )) || (same_band(orig, x1, x2) && y1 > y2) by {
                                assert(p.cell(x2 - off.x, y2 - off.y) == 1);
                                assert(piece_of(pieces_before[k2].0, pieces_before[k2].1, orig));
                                assert(pieces_before[k2].0.cell(
                                    x1 - pieces_before[k2].1.x,
                                    y1 - pieces_before[k2].1.y,
                                ) == 1);
                                assert(orig.cell(x1, y1) == 1);
                                assert(big.cell(x1 - ro.x, y1 - ro.y) == orig.cell(x1, y1));
                            }
                            lemma_ordered_push(orig, pieces_before, q);
                            assert forall|a: int, b: int| #[trigger]
                                p.cell(a, b) == 1 implies orig.cell(a + off.x, b + off.y) == 1 by {
                                assert(p.cell(a, b) == pc.cell(a + i.x, b + i.y));
                                assert(pc.cell(a + i.x, b + i.y) == cprev.cell(a + i.x, b + i.y + cy));
                                assert(cprev.cell(a + i.x, b + i.y + cy) == col0.cell(
                                    a + i.x,
                                    b + i.y + cy,
                                ));
                                assert(col0.cell(a + i.x, b + i.y + cy) == big.cell(
                                    a + i.x + cx,
                                    b + i.y + cy,
                                ));
                                assert(big.cell(a + i.x + cx, b + i.y + cy) == orig.cell(
                                    a + i.x + cx + ro.x,
                                    b + i.y + cy + ro.y,
                                ));
                            }
                        }
                        let ghost pnew = piece;
                        pieces.push((piece, off));
                        proof {
                            assert(pieces@ == pieces_before.push((pnew, off)));
                            assert forall|x: int, y: int|
                                #![trigger orig.cell(x, y)]
                                orig.cell(x, y) == 1 && cx <= x - ro.x < edge && cy <= y - ro.y
                                    < top_edge implies pieces@.len() == pieces_before.len() + 1
                                && piece_alive(pieces@[pieces_before.len() as int], x, y) by {
                                let (xr, yr) = (x - ro.x, y - ro.y);
                                assert(big.cell(xr, yr) == orig.cell(x, y));
                                assert(col0.cell(xr - cx, yr) == big.cell(xr, yr));
                                assert(cprev.cell(xr - cx, yr) == col0.cell(xr - cx, yr));
                                assert(pc.cell(xr - cx, yr - cy) == cprev.cell(xr - cx, yr));
                                assert(pnew.cell(xr - cx - i.x, yr - cy - i.y) == pc.cell(
                                    xr - cx,
                                    yr - cy,
                                ));
                            }
                        }
                    },
                }
                proof {
                    assert forall|i: int|
                        0 <= i < pieces@.len() implies piece_of(
                        #[trigger] pieces@[i].0,
                        pieces@[i].1,
                        orig,
                    ) && apart(pieces@[i].0, pieces@[i].1, orig) by {
                        if i < pieces_before.len() {
                            assert(pieces@[i] == pieces_before[i]);
                        }
                    }
                    assert forall|i: int, x: int, y: int|
                        0 <= i < pieces@.len() && #[trigger] piece_alive(pieces@[i], x, y) implies x
                        - ro.x >= edge || (x - ro.x >= cx && y - ro.y >= cy) by {
                        if i < pieces_before.len() {
                            assert(pieces@[i] == pieces_before[i]);
                        } else {
                            let q = pieces@[i];
                            assert(q.0.cell(x - q.1.x, y - q.1.y) == 1);
                        }
                    }
                    assert forall|x: int, y: int|
                        #![trigger big.cell(x, y)]
                        big.cell(x, y) == 1 && x >= edge implies covers(
                        pieces@,
                        x + ro.x,
                        y + ro.y,
                    ) by {
                        if pieces@.len() > pieces_before.len() {
                            lemma_covers_push(
                                pieces_before,
                                pieces@[pieces_before.len() as int],
                                x + ro.x,
                                y + ro.y,
                            );
                            assert(pieces@ == pieces_before.push(
                                pieces@[pieces_before.len() as int],
                            ));
                        }
                    }
                    assert forall|x: int, y: int|
                        #![trigger col0.cell(x, y)]
                        col0.cell(x, y) == 1 && y >= cy implies covers(
                        pieces@,
                        x + cx + ro.x,
                        y + ro.y,
                    ) by {
                        if y >= top_edge {
                            if pieces@.len() > pieces_before.len() {
                                lemma_covers_push(
                                    pieces_before,
                                    pieces@[pieces_before.len() as int],
                                    x + cx + ro.x,
                                    y + ro.y,
                                );
                                assert(pieces@ == pieces_before.push(
                                    pieces@[pieces_before.len() as int],
                                ));
                            }
                        } else {
                            assert(pc.cell(x, y - cy) == 1);
                            assert(pc.has_life());
                            let q = pieces@[pieces_before.len() as int];
                            assert(pieces@ == pieces_before.push(q));
                            assert(q.0.cell(x - (q.1.x - ro.x - cx), y - cy - (q.1.y - ro.y - cy))
                                == 1);
                            lemma_covers_last(pieces_before, q, x + cx + ro.x, y + ro.y);
                        }
                    }
                }
                proof {
                    assert forall|x1: int, y1: int, x2: int, y2: int|
                        #![trigger orig.cell(x1, y1), orig.cell(x2, y2)]
                        orig.cell(x1, y1) == 1 && orig.cell(x2, y2) == 1 && (x1 - ro.x >= edge || (cx <= x1 - ro.x && y1 - ro.y >= cy)) && linked(
                        orig,
                        x1,
                        y1,
                        x2,
                        y2,
                    ) implies exists|i: int|
                        0 <= i < pieces@.len() && #[trigger] piece_alive(pieces@[i], x1, y1)
                            && piece_alive(pieces@[i], x2, y2) by {
                        if x1 - ro.x >= edge || (cx <= x1 - ro.x && y1 - ro.y >= top_edge) {
                            let k = choose|k: int|
                                0 <= k < pieces_before.len() && #[trigger] piece_alive(
                                    pieces_before[k],
                                    x1,
                                    y1,
                                ) && piece_alive(pieces_before[k], x2, y2);
                            assert(pieces@[k] == pieces_before[k]);
                        } else {
                            lemma_linked_in_region(
                                orig,
                                big,
                                ro,
                                col0,
                                cx as int,
                                edge,
                                cy as int,
                                top_edge,
                                x1,
                                y1,
                                x2,
                                y2,
                            );
                            assert(piece_alive(pieces@[pieces_before.len() as int], x1, y1));
                            assert(piece_alive(pieces@[pieces_before.len() as int], x2, y2));
                        }
                    }
                    top_edge = cy as int;
                }
            }
            proof {
                lemma_fits_mono(column.x_size + 2, column.y_size + 2, orig.x_size + 4, orig.y_size + 4);
            }
            let ghost clast = column;
            let ghost pieces_before = pieces@;
            match column.resize() {
                None => {
                    proof {
                        assert forall|x: int, y: int|
                            #![trigger orig.cell(x, y)]
                            orig.cell(x, y) == 1 && cx <= x - ro.x < edge && y - ro.y
                                < top_edge implies pieces@.len() == pieces_before.len() + 1
                            && piece_alive(pieces@[pieces_before.len() as int], x, y) by {
                            let (xr, yr) = (x - ro.x, y - ro.y);
                            assert(big.cell(xr, yr) == orig.cell(x, y));
                            assert(col0.cell(xr - cx, yr) == big.cell(xr, yr));
                            assert(clast.cell(xr - cx, yr) == col0.cell(xr - cx, yr));
                            assert(clast.has_life());
                        }
                    }
                },
                Some(i) => {
                    let off = i.add(ro).add(Coord::from(UCoord { x: cx, y: 0 }));
                    proof {
                        let p = column;
                        assert forall|a: int, b: int| #[trigger]
                            p.cell(a, b) == 1 implies orig.cell(a + off.x, b + off.y) == 1 by {
                            assert(p.cell(a, b) == clast.cell(a + i.x, b + i.y));
                            assert(clast.cell(a + i.x, b + i.y) == col0.cell(a + i.x, b + i.y));
                            assert(col0.cell(a + i.x, b + i.y) == big.cell(a + i.x + cx, b + i.y));
                            assert(big.cell(a + i.x + cx, b + i.y) == orig.cell(
                                a + i.x + cx + ro.x,
                                b + i.y + ro.y,
                            ));
                        }
                    }
                    proof {
                        let p = column;
                        assert forall|a: int, b: int| #[trigger] p.cell(a, b) == 1 implies cx
                            + ro.x <= a + off.x < edge + ro.x && b + off.y < top_edge + ro.y by {
                            assert(p.cell(a, b) == clast.cell(a + i.x, b + i.y));
                            assert(clast.cell(a + i.x, b + i.y) == col0.cell(a + i.x, b + i.y));
                        }
                        let q = (p, off);
                        assert forall|k: int, x: int, y: int|
                            0 <= k < pieces_before.len() && #[trigger] piece_alive(
                                pieces_before[k],
                                x,
                                y,
                            ) implies !piece_alive(q, x, y) by {
                            if piece_alive(q, x, y) {
                                assert(p.cell(x - off.x, y - off.y) == 1);
                            }
                        }
                        lemma_disjoint_push(pieces_before, q);
                        assert forall|c: int|
                            0 < c < top_edge && c <= big.y_size - 2 implies !#[trigger] row_gap(
                            col0,
                            c,
                        ) by {
                            if row_gap(col0, c) {
                                let mm = choose|mm: int| 0 <= mm < horiz@.len() && horiz@[mm] == c;
                                if mm > 0 {
                                    assert(horiz@[0] < horiz@[mm]);
                                }
                            }
                        }
                        assert forall|x1: int, y1: int, x2: int, y2: int|
                            #![trigger piece_alive(q, x1, y1), piece_alive(q, x2, y2)]
                            piece_alive(q, x1, y1) && piece_alive(q, x2, y2) implies linked(
                            orig,
                            x1,
                            y1,
                            x2,
                            y2,
                        ) by {
                            assert(p.cell(x1 - off.x, y1 - off.y) == 1);
                            assert(p.cell(x2 - off.x, y2 - off.y) == 1);
                            lemma_region_linked(
                                orig,
                                big,
                                ro,
                                col0,
                                cx as int,
                                edge,
                                0,
                                top_edge,
                                x1,
                                y1,
                                x2,
                                y2,
                            );
                        }
                        lemma_members_linked_push(orig, pieces_before, q);
                        assert forall|k2: int, x1: int, y1: int, x2: int, y2: int|
                            #![trigger piece_alive(pieces_before[k2], x1, y1), piece_alive(q, x2, y2)]
                            0 <= k2 < pieces_before.len() && piece_alive(pieces_before[k2], x1, y1)
                                && piece_alive(q, x2, y2) implies (x1 > x2 && !same_band(
                            orig,
                            x1,
                            x2,
                        )) || (same_band(orig, x1, x2) && y1 > y2) by {
                            assert(p.cell(x2 - off.x, y2 - off.y) == 1);
                            assert(piece_of(pieces_before[k2].0, pieces_before[k2].1, orig));
                            assert(pieces_before[k2].0.cell(
                                x1 - pieces_before[k2].1.x,
                                y1 - pieces_before[k2].1.y,
                            ) == 1);
                            assert(orig.cell(x1, y1) == 1);
                            assert(big.cell(x1 - ro.x, y1 - ro.y) == orig.cell(x1, y1));
                        }
                        lemma_ordered_push(orig, pieces_before, q);
                    }
                    let ghost pnew = column;
                    pieces.push((column, off));
                    proof {
                        assert(pieces@ == pieces_before.push((pnew, off)));
                        assert forall|x: int, y: int|
                            #![trigger orig.cell(x, y)]
                            orig.cell(x, y) == 1 && cx <= x - ro.x < edge && y - ro.y
                                < top_edge implies pieces@.len() == pieces_before.len() + 1
                            && piece_alive(pieces@[pieces_before.len() as int], x, y) by {
                            let (xr, yr) = (x - ro.x, y - ro.y);
                            assert(big.cell(xr, yr) == orig.cell(x, y));
                            assert(col0.cell(xr - cx, yr) == big.cell(xr, yr));
                            assert(clast.cell(xr - cx, yr) == col0.cell(xr - cx, yr));
                            assert(pnew.cell(xr - cx - i.x, yr - i.y) == clast.cell(xr - cx, yr));
                        }
                    }
                },
            }
            proof {
                assert forall|i: int|
                    0 <= i < pieces@.len() implies piece_of(
                    #[trigger] pieces@[i].0,
                    pieces@[i].1,
                    orig,
                ) by {
                    if i < pieces_before.len() {
                        assert(pieces@[i] == pieces_before[i]);
                    }
                }
                assert forall|x: int, y: int|
                    #![trigger col0.cell(x, y)]
                    col0.cell(x, y) == 1 implies covers(pieces@, x + cx + ro.x, y + ro.y) by {
                    if y >= top_edge {
                        if pieces@.len() > pieces_before.len() {
                            lemma_covers_push(
                                pieces_before,
                                pieces@[pieces_before.len() as int],
                                x + cx + ro.x,
                                y + ro.y,
                            );
                            assert(pieces@ == pieces_before.push(
                                pieces@[pieces_before.len() as int],
                            ));
                        }
                    } else {
                        assert(clast.cell(x, y) == 1);
                        assert(clast.has_life());
                        let q = pieces@[pieces_before.len() as int];
                        assert(pieces@ == pieces_before.push(q));
                        assert(q.0.cell(x - (q.1.x - ro.x - cx), y - (q.1.y - ro.y)) == 1);
                        lemma_covers_last(pieces_before, q, x + cx + ro.x, y + ro.y);
                    }
                }
                assert forall|x: int, y: int|
                    #![trigger big.cell(x, y)]
                    big.cell(x, y) == 1 && x >= cx implies covers(pieces@, x + ro.x, y + ro.y) by {
                    if x >= edge {
                        if pieces@.len() > pieces_before.len() {
                            lemma_covers_push(
                                pieces_before,
                                pieces@[pieces_before.len() as int],
                                x + ro.x,
                                y + ro.y,
                            );
                            assert(pieces@ == pieces_before.push(
                                pieces@[pieces_before.len() as int],
                            ));
                        }
                    } else {
                        assert(col0.cell(x - cx, y) == 1);
                    }
                }
                assert forall|i: int, x: int, y: int|
                    0 <= i < pieces@.len() && #[trigger] piece_alive(pieces@[i], x, y) implies x
                    - ro.x >= cx by {
                    if i < pieces_before.len() {
                        assert(pieces@[i] == pieces_before[i]);
                    } else {
                        let q = pieces@[i];
                        assert(q.0.cell(x - q.1.x, y - q.1.y) == 1);
                    }
                }
                assert forall|x1: int, y1: int, x2: int, y2: int|
                    #![trigger orig.cell(x1, y1), orig.cell(x2, y2)]
                    orig.cell(x1, y1) == 1 && orig.cell(x2, y2) == 1 && (x1 - ro.x >= cx) && linked(
                        orig,
                        x1,
                        y1,
                        x2,
                        y2,
                    ) implies exists|i: int|
                        0 <= i < pieces@.len() && #[trigger] piece_alive(pieces@[i], x1, y1)
                            && piece_alive(pieces@[i], x2, y2) by {
                    assert(big.cell(x1 - ro.x, y1 - ro.y) == orig.cell(x1, y1));
                    if x1 - ro.x >= edge || (cx <= x1 - ro.x && y1 - ro.y >= top_edge) {
                        let k = choose|k: int|
                            0 <= k < pieces_before.len() && #[trigger] piece_alive(
                                pieces_before[k],
                                x1,
                                y1,
                            ) && piece_alive(pieces_before[k], x2, y2);
                        assert(pieces@[k] == pieces_before[k]);
                    } else {
                        lemma_linked_in_region(
                            orig,
                            big,
                            ro,
                            col0,
                            cx as int,
                            edge,
                            0,
                            top_edge,
                            x1,
                            y1,
                            x2,
                            y2,
                        );
                        assert(piece_alive(pieces@[pieces_before.len() as int], x1, y1));
                        assert(piece_alive(pieces@[pieces_before.len() as int], x2, y2));
                    }
                }
                edge = cx as int;
            }
        }
        proof {
            reveal(joined);
            assert forall|x1: int, y1: int, x2: int, y2: int|
                #![trigger orig.cell(x1, y1), orig.cell(x2, y2)]
                orig.cell(x1, y1) == 1 && orig.cell(x2, y2) == 1 && linked(orig, x1, y1, x2, y2)
                    implies exists|i: int|
                    0 <= i < pieces@.len() && #[trigger] piece_alive(pieces@[i], x1, y1)
                        && piece_alive(pieces@[i], x2, y2) by {
                assert(big.cell(x1 - ro.x, y1 - ro.y) == orig.cell(x1, y1));
            }
            assert forall|x: int, y: int| #[trigger] orig.cell(x, y) == 1 implies covers(
                pieces@,
                x,
                y,
            ) by {
                assert(big.cell(x - ro.x, y - ro.y) == orig.cell(x, y));
                assert(big.cell(x - ro.x, y - ro.y) == 1);
            }
        }
        Some(pieces)
    }
}

impl Block {
    /// Whether the buffer matches the dimensions and every cell is 0 or 1.
    pub fn is_valid(&self) -> (r: bool)
        ensures
            r == self.wf(),
    {
        if self.x_size == 0 || self.y_size == 0 {
            return false;
        }
        let len = self.data.len() as u128;
        assert((self.x_size as int) * (self.y_size as int) <= 0xffff_ffff * 0xffff_ffff)
            by (nonlinear_arith)
            requires
                self.x_size <= 0xffff_ffff,
                self.y_size <= 0xffff_ffff,
        ;
        if len != (self.x_size as u128) * (self.y_size as u128) {
            return false;
        }
        let mut i: usize = 0;
        while i < self.data.len()
            invariant
                i <= self.data@.len(),
                forall|k: int| 0 <= k < i ==> #[trigger] self.data@[k] <= 1,
            decreases self.data@.len() - i,
        {
            if self.data[i] > 1 {
                return false;
            }
            i = i + 1;
        }
        true
    }
}

impl PartialEq for Block {
    fn eq(&self, other: &Block) -> (r: bool) {
        if self.x_size != other.x_size || self.y_size != other.y_size || self.data.len()
            != other.data.len() {
            return false;
        }
        let mut i: usize = 0;
        while i < self.data.len()
            invariant
                self.data@.len() == other.data@.len(),
                i <= self.data@.len(),
                forall|k: int| 0 <= k < i ==> self.data@[k] == other.data@[k],
            decreases self.data@.len() - i,
        {
            if self.data[i] != other.data[i] {
                return false;
            }
            i = i + 1;
        }
        assert(self.data@ =~= other.data@);
        true
    }
}

impl vstd::std_specs::cmp::PartialEqSpecImpl for Block {
    open spec fn obeys_eq_spec() -> bool {
        true
    }

    open spec fn eq_spec(&self, other: &Block) -> bool {
        self.same(other)
    }
}

impl Eq for Block {

}

} // verus!
