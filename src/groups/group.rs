//! A block placed in the plane.
use super::block::{
    apart, can_grow_by, joined, lemma_piece_within, linked, members_linked, ordered, piece_alive,
    piece_of, same_band, split_post, tight, Block,
};
use super::{Coord, Envelope, UCoord};
use vstd::prelude::*;

verus! {

/// A block whose bottom-left cell sits at `global_coord`.
#[derive(Debug)]
pub struct Group {
    pub global_coord: Coord,
    pub block: Block,
}

impl Group {
    /// The block is well formed and the group's top-right corner is a valid coordinate.
    pub open spec fn wf(&self) -> bool {
        &&& self.block.wf()
        &&& self.global_coord.x + self.block.x_size <= i64::MAX
        &&& self.global_coord.y + self.block.y_size <= i64::MAX
    }

    /// Whether the cell at global position `(x, y)` is alive in this group.
    pub open spec fn alive_at(&self, x: int, y: int) -> bool {
        self.block.cell(x - self.global_coord.x, y - self.global_coord.y) == 1
    }

    /// Whether the cell at global position `(x, y)` is alive after one generation of
    /// this group alone.
    pub open spec fn next_alive_at(&self, x: int, y: int) -> bool {
        self.block.next_cell(x - self.global_coord.x, y - self.global_coord.y) == 1
    }

    /// The live cells, in global coordinates.
    pub open spec fn cells(&self) -> Set<(int, int)> {
        Set::new(|p: (int, int)| self.alive_at(p.0, p.1))
    }

    /// The block has a dead border and no slack beyond it.
    pub open spec fn finished(&self) -> bool {
        &&& self.block.wf()
        &&& self.block.border_dead()
        &&& tight(self.block)
    }

    /// The group's box, both corners inclusive.
    pub open spec fn env(&self) -> Envelope {
        Envelope {
            lower: self.global_coord,
            upper: Coord {
                x: (self.global_coord.x + self.block.x_size - 1) as i64,
                y: (self.global_coord.y + self.block.y_size - 1) as i64,
            },
        }
    }

    /// The group lies inside the box from `lo` to `hi`, both inclusive.
    pub open spec fn within(&self, lo: (int, int), hi: (int, int)) -> bool {
        &&& lo.0 <= self.global_coord.x
        &&& self.global_coord.x + self.block.x_size - 1 <= hi.0
        &&& lo.1 <= self.global_coord.y
        &&& self.global_coord.y + self.block.y_size - 1 <= hi.1
    }

    /// Room to step and split the group without leaving the integer types.
    pub open spec fn roomy(&self) -> bool {
        &&& self.block.wf()
        &&& can_grow_by(self.block, 4)
        &&& i64::MIN + 2 <= self.global_coord.x
        &&& i64::MIN + 2 <= self.global_coord.y
        &&& self.global_coord.x + self.block.x_size + 2 <= i64::MAX
        &&& self.global_coord.y + self.block.y_size + 2 <= i64::MAX
    }

    /// Creates a group from its position and block.
    pub fn new(global_coord: Coord, block: Block) -> (r: Group)
        ensures
            r.global_coord == global_coord,
            r.block == block,
    {
        Group { global_coord, block }
    }

    /// The global position of the top-right cell.
    pub fn top_right(&self) -> (r: Coord)
        requires
            self.wf(),
        ensures
            r == self.env().upper,
    {
        Coord {
            x: self.global_coord.x + self.block.x_size as i64 - 1,
            y: self.global_coord.y + self.block.y_size as i64 - 1,
        }
    }

    /// The group's box, both corners inclusive.
    pub fn envelope(&self) -> (r: Envelope)
        requires
            self.wf(),
        ensures
            r == self.env(),
    {
        Envelope { lower: self.global_coord, upper: self.top_right() }
    }

    /// Whether the two groups' boxes share a cell.
    pub fn intersects(&self, other: &Group) -> (r: bool)
        requires
            self.wf(),
            other.wf(),
        ensures
            r == self.env().overlaps(other.env()),
    {
        let self_tr = self.top_right();
        let other_tr = other.top_right();
        if (self.global_coord.x > other_tr.x || self.global_coord.y > other_tr.y) || (
        other.global_coord.x > self_tr.x || other.global_coord.y > self_tr.y) {
            false
        } else {
            true
        }
    }
}

/// Whether the cell at global `(x, y)`, inside both groups, ties their next generations
/// together: a live cell of one sees neighbours of the other; or, where both groups have
/// live neighbours, a birth that only their union causes, or crowding that only their
/// union causes.
pub open spec fn interferes(a: &Group, b: &Group, x: int, y: int) -> bool {
    let ax = x - a.global_coord.x;
    let ay = y - a.global_coord.y;
    let bx = x - b.global_coord.x;
    let by = y - b.global_coord.y;
    let la = a.block.cell(ax, ay) == 1;
    let lb = b.block.cell(bx, by) == 1;
    let na = a.block.neighbours(ax, ay);
    let nb = b.block.neighbours(bx, by);
    ||| la && nb > 0
    ||| lb && na > 0
    ||| na != 0 && nb != 0 && {
        ||| !la && !lb && na + nb == 3
        ||| ((la && na == 2) || na == 3 || (lb && nb == 2) || nb == 3) && na + nb > 3
    }
}

/// The two groups' boxes overlap and some cell of the overlap ties them together.
pub open spec fn smart(a: &Group, b: &Group) -> bool {
    exists|x: int, y: int|
        #![trigger interferes(a, b, x, y)]
        a.env().lower.x <= x <= a.env().upper.x && a.env().lower.y <= y <= a.env().upper.y
            && b.env().lower.x <= x <= b.env().upper.x && b.env().lower.y <= y <= b.env().upper.y
            && interferes(a, b, x, y)
}

/// Smart intersection implies that the boxes overlap.
pub proof fn lemma_smart_overlaps(a: &Group, b: &Group)
    requires
        smart(a, b),
    ensures
        a.env().overlaps(b.env()),
{
    let (x, y) = choose|x: int, y: int|
        #![trigger interferes(a, b, x, y)]
        a.env().lower.x <= x <= a.env().upper.x && a.env().lower.y <= y <= a.env().upper.y
            && b.env().lower.x <= x <= b.env().upper.x && b.env().lower.y <= y <= b.env().upper.y
            && interferes(a, b, x, y);
}

impl Group {
    /// Whether the groups must be merged before they step: some cell where their boxes
    /// overlap has a next state that depends on both.
    pub fn intersects_smart(&self, other: &Group) -> (r: bool)
        requires
            self.wf(),
            other.wf(),
        ensures
            r == smart(self, other),
    {
        if !self.intersects(other) {
            proof {
                if smart(self, other) {
                    lemma_smart_overlaps(self, other);
                }
            }
            return false;
        }
        let a_tr = self.top_right();
        let b_tr = other.top_right();
        let lo_x = if self.global_coord.x > other.global_coord.x {
            self.global_coord.x
        } else {
            other.global_coord.x
        };
        let hi_x = if a_tr.x < b_tr.x {
            a_tr.x
        } else {
            b_tr.x
        };
        let lo_y = if self.global_coord.y > other.global_coord.y {
            self.global_coord.y
        } else {
            other.global_coord.y
        };
        let hi_y = if a_tr.y < b_tr.y {
            a_tr.y
        } else {
            b_tr.y
        };
        let mut x = lo_x;
        while x <= hi_x
            invariant
                self.wf(),
                other.wf(),
                lo_x <= x <= hi_x + 1,
                lo_y <= hi_y,
                hi_x <= a_tr.x,
                hi_x <= b_tr.x,
                a_tr == self.env().upper,
                b_tr == other.env().upper,
                lo_x >= self.global_coord.x,
                lo_x >= other.global_coord.x,
                lo_y >= self.global_coord.y,
                lo_y >= other.global_coord.y,
                hi_y <= a_tr.y,
                hi_y <= b_tr.y,
                lo_x == vstd::math::max(self.global_coord.x as int, other.global_coord.x as int),
                lo_y == vstd::math::max(self.global_coord.y as int, other.global_coord.y as int),
                hi_x == vstd::math::min(a_tr.x as int, b_tr.x as int),
                hi_y == vstd::math::min(a_tr.y as int, b_tr.y as int),
                forall|i: int, j: int|
                    #![trigger interferes(self, other, i, j)]
                    lo_x <= i < x && lo_y <= j <= hi_y ==> !interferes(self, other, i, j),
            decreases hi_x - x + 1,
        {
            let mut y = lo_y;
            while y <= hi_y
                invariant
                    self.wf(),
                    other.wf(),
                    lo_x <= x <= hi_x,
                    lo_y <= y <= hi_y + 1,
                    hi_x <= a_tr.x,
                    hi_x <= b_tr.x,
                    hi_y <= a_tr.y,
                    hi_y <= b_tr.y,
                    a_tr == self.env().upper,
                    b_tr == other.env().upper,
                    lo_x >= self.global_coord.x,
                    lo_x >= other.global_coord.x,
                    lo_y >= self.global_coord.y,
                    lo_y >= other.global_coord.y,
                    forall|i: int, j: int|
                        #![trigger interferes(self, other, i, j)]
                        (lo_x <= i < x && lo_y <= j <= hi_y) || (i == x && lo_y <= j < y)
                            ==> !interferes(self, other, i, j),
                decreases hi_y - y + 1,
            {
                let a = UCoord {
                    x: (x - self.global_coord.x) as u32,
                    y: (y - self.global_coord.y) as u32,
                };
                let b = UCoord {
                    x: (x - other.global_coord.x) as u32,
                    y: (y - other.global_coord.y) as u32,
                };
                let na = self.block.neighbour_count(a);
                let nb = other.block.neighbour_count(b);
                let la = self.block.cell_at(a.x, a.y) == 1;
                let lb = other.block.cell_at(b.x, b.y) == 1;
                if (la && nb > 0) || (lb && na > 0) {
                    assert(interferes(self, other, x as int, y as int));
                    return true;
                }
                if na != 0 && nb != 0 {
                    let sum = na as u32 + nb as u32;
                    let lives = (la && na == 2) || na == 3 || (lb && nb == 2) || nb == 3;
                    if (!la && !lb && sum == 3) || (lives && sum > 3) {
                        assert(interferes(self, other, x as int, y as int));
                        return true;
                    }
                }
                assert(!interferes(self, other, x as int, y as int));
                y = y + 1;
            }
            x = x + 1;
        }
        proof {
            if smart(self, other) {
                let (i, j) = choose|i: int, j: int|
                    #![trigger interferes(self, other, i, j)]
                    self.env().lower.x <= i <= self.env().upper.x && self.env().lower.y <= j
                        <= self.env().upper.y && other.env().lower.x <= i <= other.env().upper.x
                        && other.env().lower.y <= j <= other.env().upper.y && interferes(
                        self,
                        other,
                        i,
                        j,
                    );
                assert(lo_x <= i < x && lo_y <= j <= hi_y);
            }
        }
        false
    }
}

/// Room to merge `a` and `b`: the merged block's offsets and dimensions fit their types.
pub open spec fn merge_fits(a: &Group, b: &Group) -> bool {
    let lx = vstd::math::min(a.global_coord.x as int, b.global_coord.x as int);
    let ly = vstd::math::min(a.global_coord.y as int, b.global_coord.y as int);
    let w = merged_width(a, b);
    let h = merged_height(a, b);
    &&& a.global_coord.x - lx + a.block.x_size <= u32::MAX
    &&& b.global_coord.x - lx + b.block.x_size <= u32::MAX
    &&& a.global_coord.y - ly + a.block.y_size <= u32::MAX
    &&& b.global_coord.y - ly + b.block.y_size <= u32::MAX
    &&& Block::fits(w, h)
    &&& lx + w <= i64::MAX
    &&& ly + h <= i64::MAX
}

/// Width of the block that `merge` builds.
pub open spec fn merged_width(a: &Group, b: &Group) -> int {
    let lx = vstd::math::min(a.global_coord.x as int, b.global_coord.x as int);
    vstd::math::max(
        3,
        vstd::math::max(
            a.global_coord.x - lx + a.block.x_size,
            b.global_coord.x - lx + b.block.x_size,
        ),
    )
}

/// Height of the block that `merge` builds.
pub open spec fn merged_height(a: &Group, b: &Group) -> int {
    let ly = vstd::math::min(a.global_coord.y as int, b.global_coord.y as int);
    vstd::math::max(
        3,
        vstd::math::max(
            a.global_coord.y - ly + a.block.y_size,
            b.global_coord.y - ly + b.block.y_size,
        ),
    )
}

/// `r` is what `merge` makes of `a` and `b`: placed at their lower corner, just large
/// enough for both, live exactly where one of them is.
pub open spec fn merged_from(a: &Group, b: &Group, r: &Group) -> bool {
    &&& r.wf()
    &&& r.global_coord.x == vstd::math::min(a.global_coord.x as int, b.global_coord.x as int)
    &&& r.global_coord.y == vstd::math::min(a.global_coord.y as int, b.global_coord.y as int)
    &&& r.block.x_size == merged_width(a, b)
    &&& r.block.y_size == merged_height(a, b)
    &&& forall|x: int, y: int| #[trigger] r.alive_at(x, y) == (a.alive_at(x, y) || b.alive_at(x, y))
}

/// The cells of a merge are the union of the cells merged; in particular merging is
/// commutative and associative on cell sets.
pub proof fn lemma_merge_cells(a: &Group, b: &Group, r: &Group)
    requires
        merged_from(a, b, r),
    ensures
        r.cells() == a.cells().union(b.cells()),
{
    assert(r.cells() =~= a.cells().union(b.cells()));
}

/// Merging `a` with `b` and `b` with `a` gives the same cells; so does merging three
/// groups in either grouping.
pub proof fn lemma_merge_commutes_associates(
    a: &Group,
    b: &Group,
    c: &Group,
    ab: &Group,
    ba: &Group,
    ab_c: &Group,
    bc: &Group,
    a_bc: &Group,
)
    requires
        merged_from(a, b, ab),
        merged_from(b, a, ba),
        merged_from(ab, c, ab_c),
        merged_from(b, c, bc),
        merged_from(a, bc, a_bc),
    ensures
        ab.cells() == ba.cells(),
        ab_c.cells() == a_bc.cells(),
{
    lemma_merge_cells(a, b, ab);
    lemma_merge_cells(b, a, ba);
    lemma_merge_cells(ab, c, ab_c);
    lemma_merge_cells(b, c, bc);
    lemma_merge_cells(a, bc, a_bc);
    assert(ab.cells() =~= ba.cells());
    assert(ab_c.cells() =~= a_bc.cells());
}

/// Merging finished groups gives a finished group.
pub proof fn lemma_merge_finished(a: &Group, b: &Group, r: &Group)
    requires
        a.finished(),
        b.finished(),
        merged_from(a, b, r),
    ensures
        r.finished(),
{
    super::block::lemma_finished_dims(a.block);
    super::block::lemma_finished_dims(b.block);
    let (ax, ay, bx, by) = (
        a.global_coord.x as int,
        a.global_coord.y as int,
        b.global_coord.x as int,
        b.global_coord.y as int,
    );
    let (lx, ly) = (r.global_coord.x as int, r.global_coord.y as int);
    let (w, h) = (r.block.x_size as int, r.block.y_size as int);
    r.block.lemma_cells_range();
    a.block.lemma_cells_range();
    b.block.lemma_cells_range();
    assert forall|y: int| #[trigger] r.block.cell(0, y) == 0 by {
        assert(r.alive_at(lx, y + ly) == (a.alive_at(lx, y + ly) || b.alive_at(lx, y + ly)));
        assert(a.block.cell(lx - ax, y + ly - ay) == 0);
        assert(b.block.cell(lx - bx, y + ly - by) == 0);
    }
    assert forall|y: int| #[trigger] r.block.cell(w - 1, y) == 0 by {
        let x = lx + w - 1;
        assert(r.alive_at(x, y + ly) == (a.alive_at(x, y + ly) || b.alive_at(x, y + ly)));
        assert(a.block.cell(x - ax, y + ly - ay) == 0);
        assert(b.block.cell(x - bx, y + ly - by) == 0);
    }
    assert forall|x: int| #[trigger] r.block.cell(x, 0) == 0 by {
        assert(r.alive_at(x + lx, ly) == (a.alive_at(x + lx, ly) || b.alive_at(x + lx, ly)));
        assert(a.block.cell(x + lx - ax, ly - ay) == 0);
        assert(b.block.cell(x + lx - bx, ly - by) == 0);
    }
    assert forall|x: int| #[trigger] r.block.cell(x, h - 1) == 0 by {
        let y = ly + h - 1;
        assert(r.alive_at(x + lx, y) == (a.alive_at(x + lx, y) || b.alive_at(x + lx, y)));
        assert(a.block.cell(x + lx - ax, y - ay) == 0);
        assert(b.block.cell(x + lx - bx, y - by) == 0);
    }
    // the lanes inside the border are live: each is a live lane of one of the two
    let g = if ax == lx { a } else { b };
    let y1 = choose|y: int| #[trigger] g.block.cell(1, y) != 0;
    assert(r.alive_at(lx + 1, y1 + g.global_coord.y));
    assert(r.block.cell(1, y1 + g.global_coord.y - ly) != 0);
    let g = if ay == ly { a } else { b };
    let x1 = choose|x: int| #[trigger] g.block.cell(x, 1) != 0;
    assert(r.alive_at(x1 + g.global_coord.x, ly + 1));
    assert(r.block.cell(x1 + g.global_coord.x - lx, 1) != 0);
    let g = if w == ax - lx + a.block.x_size { a } else { b };
    let y2 = choose|y: int| #[trigger] g.block.cell(g.block.x_size - 2, y) != 0;
    assert(r.alive_at(g.global_coord.x + g.block.x_size - 2, y2 + g.global_coord.y));
    assert(r.block.cell(w - 2, y2 + g.global_coord.y - ly) != 0);
    let g = if h == ay - ly + a.block.y_size { a } else { b };
    let x2 = choose|x: int| #[trigger] g.block.cell(x, g.block.y_size - 2) != 0;
    assert(r.alive_at(x2 + g.global_coord.x, g.global_coord.y + g.block.y_size - 2));
    assert(r.block.cell(x2 + g.global_coord.x - lx, h - 2) != 0);
}

/// A merge of two groups inside a box stays inside it.
pub proof fn lemma_merge_within(a: &Group, b: &Group, r: &Group, lo: (int, int), hi: (int, int))
    requires
        a.block.x_size >= 3,
        a.block.y_size >= 3,
        b.block.x_size >= 3,
        b.block.y_size >= 3,
        a.within(lo, hi),
        b.within(lo, hi),
        merged_from(a, b, r),
    ensures
        r.within(lo, hi),
{
}

/// Live cells of `g` that are linked in its block lie in one group of `gs`.
#[verifier::opaque]
pub open spec fn groups_joined(g: &Group, gs: Seq<Group>) -> bool {
    let (gx, gy) = (g.global_coord.x as int, g.global_coord.y as int);
    forall|x1: int, y1: int, x2: int, y2: int|
        #![trigger g.alive_at(x1, y1), g.alive_at(x2, y2)]
        g.alive_at(x1, y1) && g.alive_at(x2, y2) && linked(g.block, x1 - gx, y1 - gy, x2 - gx, y2 - gy)
            ==> exists|i: int|
            0 <= i < gs.len() && #[trigger] gs[i].alive_at(x1, y1) && gs[i].alive_at(x2, y2)
}

/// Any two live cells of one group of `gs` are linked in the block of `g`.
#[verifier::opaque]
pub open spec fn groups_linked(g: &Group, gs: Seq<Group>) -> bool {
    let (gx, gy) = (g.global_coord.x as int, g.global_coord.y as int);
    forall|i: int, x1: int, y1: int, x2: int, y2: int|
        #![trigger gs[i].alive_at(x1, y1), gs[i].alive_at(x2, y2)]
        0 <= i < gs.len() && gs[i].alive_at(x1, y1) && gs[i].alive_at(x2, y2) ==> linked(
            g.block,
            x1 - gx,
            y1 - gy,
            x2 - gx,
            y2 - gy,
        )
}

/// The groups come as `split` cuts `g`'s block: band by band from the right, and within a
/// band from the top.
#[verifier::opaque]
pub open spec fn groups_ordered(g: &Group, gs: Seq<Group>) -> bool {
    let (gx, gy) = (g.global_coord.x as int, g.global_coord.y as int);
    forall|i: int, j: int, x1: int, y1: int, x2: int, y2: int|
        #![trigger gs[i].alive_at(x1, y1), gs[j].alive_at(x2, y2)]
        0 <= i < j < gs.len() && gs[i].alive_at(x1, y1) && gs[j].alive_at(x2, y2) ==> (x1 > x2
            && !same_band(g.block, x1 - gx, x2 - gx)) || (same_band(g.block, x1 - gx, x2 - gx)
            && y1 > y2)
}

/// `gs` are the pieces `ps` of `g`'s block, in order, each placed at `g`'s position plus
/// the piece's offset.
pub open spec fn placed_pieces(g: &Group, ps: Seq<(Block, Coord)>, gs: Seq<Group>) -> bool {
    &&& ps.len() == gs.len()
    &&& forall|i: int|
        0 <= i < ps.len() ==> (#[trigger] gs[i]).block == ps[i].0 && gs[i].global_coord.x
            == ps[i].1.x + g.global_coord.x && gs[i].global_coord.y == ps[i].1.y
            + g.global_coord.y
}

/// Pieces of a split, placed in the plane, keep the grouping of the split.
pub proof fn lemma_placed_grouping(g: &Group, ps: Seq<(Block, Coord)>, gs: Seq<Group>)
    requires
        split_post(g.block, ps),
        placed_pieces(g, ps, gs),
    ensures
        groups_joined(g, gs),
        groups_linked(g, gs),
        groups_ordered(g, gs),
{
    reveal(groups_joined);
    reveal(groups_linked);
    reveal(groups_ordered);
    reveal(joined);
    reveal(members_linked);
    reveal(ordered);
    let (gx, gy) = (g.global_coord.x as int, g.global_coord.y as int);
    assert forall|i: int, x: int, y: int|
        0 <= i < gs.len() implies #[trigger] gs[i].alive_at(x, y) == piece_alive(
        ps[i],
        x - gx,
        y - gy,
    ) by {
        assert(gs[i].block == ps[i].0);
    }
    assert forall|x1: int, y1: int, x2: int, y2: int|
        #![trigger g.alive_at(x1, y1), g.alive_at(x2, y2)]
        g.alive_at(x1, y1) && g.alive_at(x2, y2) && linked(g.block, x1 - gx, y1 - gy, x2 - gx, y2 - gy)
            implies exists|i: int|
        0 <= i < gs.len() && #[trigger] gs[i].alive_at(x1, y1) && gs[i].alive_at(x2, y2) by {
        assert(g.block.cell(x1 - gx, y1 - gy) == 1 && g.block.cell(x2 - gx, y2 - gy) == 1);
        let i = choose|i: int|
            0 <= i < ps.len() && #[trigger] piece_alive(ps[i], x1 - gx, y1 - gy) && piece_alive(
                ps[i],
                x2 - gx,
                y2 - gy,
            );
        assert(gs[i].alive_at(x1, y1) && gs[i].alive_at(x2, y2));
    }
    assert forall|i: int, x1: int, y1: int, x2: int, y2: int|
        #![trigger gs[i].alive_at(x1, y1), gs[i].alive_at(x2, y2)]
        0 <= i < gs.len() && gs[i].alive_at(x1, y1) && gs[i].alive_at(x2, y2) implies linked(
        g.block,
        x1 - gx,
        y1 - gy,
        x2 - gx,
        y2 - gy,
    ) by {
        assert(piece_alive(ps[i], x1 - gx, y1 - gy) && piece_alive(ps[i], x2 - gx, y2 - gy));
    }
    assert forall|i: int, j: int, x1: int, y1: int, x2: int, y2: int|
        #![trigger gs[i].alive_at(x1, y1), gs[j].alive_at(x2, y2)]
        0 <= i < j < gs.len() && gs[i].alive_at(x1, y1) && gs[j].alive_at(x2, y2) implies (x1
            > x2 && !same_band(g.block, x1 - gx, x2 - gx)) || (same_band(
        g.block,
        x1 - gx,
        x2 - gx,
    ) && y1 > y2) by {
        assert(piece_alive(ps[i], x1 - gx, y1 - gy) && piece_alive(ps[j], x2 - gx, y2 - gy));
    }
}

/// `s` is `g` one generation on, before splitting.
pub open spec fn steps_to(g: &Group, s: &Group) -> bool {
    &&& s.global_coord == g.global_coord
    &&& s.block.wf()
    &&& s.block.x_size == g.block.x_size
    &&& s.block.y_size == g.block.y_size
    &&& forall|x: int, y: int| #[trigger] s.block.cell(x, y) == g.block.next_cell(x, y)
}

/// `gs` is grouped as splitting `g` one generation on groups it.
#[verifier::opaque]
pub open spec fn next_grouping(g: &Group, gs: Seq<Group>) -> bool {
    exists|s: Group|
        #[trigger] steps_to(g, &s) && groups_joined(&s, gs) && groups_linked(&s, gs)
            && groups_ordered(&s, gs)
}

/// No two groups of `gs` share a live cell.
pub open spec fn groups_disjoint(gs: Seq<Group>) -> bool {
    forall|i: int, j: int, x: int, y: int|
        #![trigger gs[i].alive_at(x, y), gs[j].alive_at(x, y)]
        0 <= i < gs.len() && 0 <= j < gs.len() && i != j && gs[i].alive_at(x, y)
            ==> !gs[j].alive_at(x, y)
}

/// What stepping `g` alone returns: finished groups within one lane of its box, no two
/// sharing a cell, which hold exactly the cells that are alive in `g`'s next generation.
pub open spec fn step_post(g: &Group, gs: Seq<Group>) -> bool {
    &&& forall|i: int|
        0 <= i < gs.len() ==> {
            &&& (#[trigger] gs[i]).finished()
            &&& gs[i].wf()
            &&& gs[i].within(
                (g.global_coord.x - 1, g.global_coord.y - 1),
                (g.global_coord.x + g.block.x_size, g.global_coord.y + g.block.y_size),
            )
            &&& forall|x: int, y: int| #[trigger] gs[i].alive_at(x, y) ==> g.next_alive_at(x, y)
        }
    &&& groups_disjoint(gs)
    &&& next_grouping(g, gs)
    &&& forall|x: int, y: int|
        #[trigger] g.next_alive_at(x, y) ==> exists|i: int|
            0 <= i < gs.len() && #[trigger] gs[i].alive_at(x, y)
}

/// Group `p` lies on one side of every pair of adjacent dead columns, and of every pair
/// of adjacent dead rows, of `g`'s block.
pub open spec fn group_apart(p: &Group, g: &Group) -> bool {
    apart(
        p.block,
        Coord {
            x: (p.global_coord.x - g.global_coord.x) as i64,
            y: (p.global_coord.y - g.global_coord.y) as i64,
        },
        g.block,
    )
}

/// What splitting `g` returns: finished groups within one lane of its box, no two sharing
/// a cell, each apart from the others across the gaps of `g`'s block, which together hold
/// exactly `g`'s live cells.
pub open spec fn group_split_post(g: &Group, gs: Seq<Group>) -> bool {
    &&& forall|i: int|
        0 <= i < gs.len() ==> {
            &&& (#[trigger] gs[i]).finished()
            &&& group_apart(&gs[i], g)
            &&& gs[i].wf()
            &&& gs[i].within(
                (g.global_coord.x - 1, g.global_coord.y - 1),
                (g.global_coord.x + g.block.x_size, g.global_coord.y + g.block.y_size),
            )
            &&& forall|x: int, y: int| #[trigger] gs[i].alive_at(x, y) ==> g.alive_at(x, y)
        }
    &&& groups_disjoint(gs)
    &&& groups_joined(g, gs)
    &&& groups_linked(g, gs)
    &&& groups_ordered(g, gs)
    &&& forall|x: int, y: int|
        #[trigger] g.alive_at(x, y) ==> exists|i: int|
            0 <= i < gs.len() && #[trigger] gs[i].alive_at(x, y)
}

impl Group {
    /// Merges two groups into one placed at their lower corner, whose block is large
    /// enough for both; a cell is alive where it is alive in either.
    pub fn merge(self, other: Group) -> (r: Group)
        requires
            self.wf(),
            other.wf(),
            merge_fits(&self, &other),
        ensures
            merged_from(&self, &other, &r),
            r.cells() == self.cells().union(other.cells()),
    {
        let left_bottom = Coord {
            x: if self.global_coord.x < other.global_coord.x {
                self.global_coord.x
            } else {
                other.global_coord.x
            },
            y: if self.global_coord.y < other.global_coord.y {
                self.global_coord.y
            } else {
                other.global_coord.y
            },
        };
        let self_offset = UCoord {
            x: (self.global_coord.x - left_bottom.x) as u32,
            y: (self.global_coord.y - left_bottom.y) as u32,
        };
        let other_offset = UCoord {
            x: (other.global_coord.x - left_bottom.x) as u32,
            y: (other.global_coord.y - left_bottom.y) as u32,
        };
        proof {
            super::block::lemma_fits_mono(
                vstd::math::max(3, self_offset.x + self.block.x_size),
                vstd::math::max(3, self_offset.y + self.block.y_size),
                merged_width(&self, &other),
                merged_height(&self, &other),
            );
        }
        let mut new_block = Block::new(1, 1);
        new_block.insert(self_offset, &self.block);
        new_block.insert(other_offset, &other.block);
        let r = Group { global_coord: left_bottom, block: new_block };
        assert forall|x: int, y: int| #[trigger]
            r.alive_at(x, y) == (self.alive_at(x, y) || other.alive_at(x, y)) by {
            r.block.lemma_cell_range(x - r.global_coord.x, y - r.global_coord.y);
        }
        proof {
            lemma_merge_cells(&self, &other, &r);
        }
        r
    }

    /// Splits the group into independent groups, one per piece of its block, each placed
    /// at the group's position plus the piece's offset. `None` when no cell is alive.
    #[verifier::rlimit(60)]
    pub fn split(self) -> (r: Option<Vec<Group>>)
        requires
            self.roomy(),
        ensures
            r is None <==> !self.block.has_life(),
            r matches Some(v) ==> group_split_post(&self, v@),
    {
        let ghost g = self;
        let gc = self.global_coord;
        let mut blocks = match self.block.split() {
            None => return None,
            Some(i) => i,
        };
        let ghost orig = blocks@;
        let mut groups: Vec<Group> = Vec::new();
        while blocks.len() > 0
            invariant
                g.roomy(),
                gc == g.global_coord,
                split_post(g.block, orig),
                groups@.len() + blocks@.len() == orig.len(),
                blocks@ == orig.subrange(groups@.len() as int, orig.len() as int),
                forall|k: int|
                    0 <= k < groups@.len() ==> (#[trigger] groups@[k]).block == orig[k].0
                        && groups@[k].global_coord.x == orig[k].1.x + gc.x
                        && groups@[k].global_coord.y == orig[k].1.y + gc.y,
            decreases blocks@.len(),
        {
            let ghost k = groups@.len() as int;
            assert(blocks@[0] == orig[k]);
            let (piece, offset) = blocks.remove(0);
            proof {
                assert(piece_of(orig[k].0, orig[k].1, g.block));
                lemma_piece_within(orig[k].0, orig[k].1, g.block);
            }
            groups.push(Group { global_coord: offset.add(gc), block: piece });
            assert(blocks@ =~= orig.subrange(groups@.len() as int, orig.len() as int));
        }
        proof {
            assert forall|i: int| 0 <= i < groups@.len() implies {
                &&& (#[trigger] groups@[i]).finished()
                &&& group_apart(&groups@[i], &g)
                &&& groups@[i].wf()
                &&& groups@[i].within(
                    (g.global_coord.x - 1, g.global_coord.y - 1),
                    (g.global_coord.x + g.block.x_size, g.global_coord.y + g.block.y_size),
                )
                &&& forall|x: int, y: int| #[trigger]
                    groups@[i].alive_at(x, y) ==> g.alive_at(x, y)
            } by {
                assert(piece_of(orig[i].0, orig[i].1, g.block));
                assert(apart(orig[i].0, orig[i].1, g.block));
                lemma_piece_within(orig[i].0, orig[i].1, g.block);
                assert(Coord {
                    x: (groups@[i].global_coord.x - g.global_coord.x) as i64,
                    y: (groups@[i].global_coord.y - g.global_coord.y) as i64,
                } == orig[i].1);
                assert forall|x: int, y: int| #[trigger]
                    groups@[i].alive_at(x, y) implies g.alive_at(x, y) by {
                    assert(orig[i].0.cell(x - gc.x - orig[i].1.x, y - gc.y - orig[i].1.y) == 1);
                }
            }
            assert forall|i: int, j: int, x: int, y: int|
                #![trigger groups@[i].alive_at(x, y), groups@[j].alive_at(x, y)]
                0 <= i < groups@.len() && 0 <= j < groups@.len() && i != j && groups@[i].alive_at(
                    x,
                    y,
                ) implies !groups@[j].alive_at(x, y) by {
                assert(piece_alive(orig[i], x - gc.x, y - gc.y));
                if groups@[j].alive_at(x, y) {
                    assert(piece_alive(orig[j], x - gc.x, y - gc.y));
                }
            }
            assert forall|x: int, y: int| #[trigger] g.alive_at(x, y) implies exists|i: int|
                0 <= i < groups@.len() && #[trigger] groups@[i].alive_at(x, y) by {
                assert(g.block.cell(x - gc.x, y - gc.y) == 1);
                let i = choose|i: int|
                    0 <= i < orig.len() && #[trigger] orig[i].0.cell(
                        x - gc.x - orig[i].1.x,
                        y - gc.y - orig[i].1.y,
                    ) == 1;
                assert(groups@[i].alive_at(x, y));
            }
            assert(placed_pieces(&g, orig, groups@));
            lemma_placed_grouping(&g, orig, groups@);
        }
        Some(groups)
    }

    /// Advances the group one generation and splits the result into independent groups.
    /// `None` when every cell dies.
    pub fn step(self) -> (r: Option<Vec<Group>>)
        requires
            self.roomy(),
        ensures
            r is None <==> !(exists|x: int, y: int| #[trigger] self.next_alive_at(x, y)),
            r matches Some(v) ==> step_post(&self, v@),
    {
        let ghost g = self;
        let mut s = self;
        s.block.step();
        proof {
            assert forall|x: int, y: int| #[trigger] s.alive_at(x, y) == g.next_alive_at(x, y) by {}
            if s.block.has_life() {
                let (x, y) = choose|x: int, y: int| #[trigger] s.block.cell(x, y) == 1;
                assert(s.alive_at(x + s.global_coord.x, y + s.global_coord.y));
            }
            if exists|x: int, y: int| #[trigger] g.next_alive_at(x, y) {
                let (x, y) = choose|x: int, y: int| #[trigger] g.next_alive_at(x, y);
                assert(s.block.cell(x - s.global_coord.x, y - s.global_coord.y) == 1);
            }
        }
        let ghost s0 = s;
        let r = s.split();
        proof {
            if r is Some {
                let v = r->Some_0@;
                assert(group_split_post(&s0, v));
                assert(steps_to(&g, &s0));
                reveal(next_grouping);
                assert forall|i: int|
                    #![trigger v[i]]
                    0 <= i < v.len() implies forall|x: int, y: int| #[trigger]
                        v[i].alive_at(x, y) ==> g.next_alive_at(x, y) by {
                    assert forall|x: int, y: int| #[trigger] v[i].alive_at(x, y) implies g.next_alive_at(
                        x,
                        y,
                    ) by {
                        assert(s0.alive_at(x, y));
                    }
                }
                assert forall|x: int, y: int| #[trigger] g.next_alive_at(x, y) implies exists|i: int|
                    0 <= i < v.len() && #[trigger] v[i].alive_at(x, y) by {
                    assert(s0.alive_at(x, y));
                }
            }
        }
        r
    }

    /// Flips the group upside down about the x axis: the cell at `(x, y)` moves to
    /// `(x, -y)`. Renderers whose y axis points down use it.
    pub fn reverse_y(&mut self)
        requires
            old(self).wf(),
            old(self).global_coord.y > i64::MIN,
        ensures
            final(self).block.wf(),
            final(self).block.x_size == old(self).block.x_size,
            final(self).block.y_size == old(self).block.y_size,
            final(self).global_coord.x == old(self).global_coord.x,
            final(self).global_coord.y == -old(self).global_coord.y - old(self).block.y_size + 1,
            forall|x: int, y: int| #[trigger] final(self).alive_at(x, y) == old(self).alive_at(x, -y),
            old(self).global_coord.y > i64::MIN + 1 ==> final(self).wf(),
    {
        let ghost pre = *self;
        let w = self.block.x_size;
        let h = self.block.y_size;
        let len = self.block.data.len();
        let mut rev_block = Block::zeroed(w, h);
        for x in 0..w
            invariant
                self.block.wf(),
                *self == pre,
                w == self.block.x_size,
                h == self.block.y_size,
                rev_block.wf(),
                rev_block.x_size == w,
                rev_block.y_size == h,
                forall|i: int, j: int| #[trigger]
                    rev_block.cell(i, j) == if 0 <= i < x && 0 <= j < h {
                        self.block.cell(i, h - 1 - j)
                    } else {
                        0
                    },
        {
            for y in 0..h
                invariant
                    self.block.wf(),
                    *self == pre,
                    x < w,
                    w == self.block.x_size,
                    h == self.block.y_size,
                    rev_block.wf(),
                    rev_block.x_size == w,
                    rev_block.y_size == h,
                    forall|i: int, j: int| #[trigger]
                        rev_block.cell(i, j) == if (0 <= i < x && 0 <= j < h) || (i == x && 0 <= j
                            < y) {
                            self.block.cell(i, h - 1 - j)
                        } else {
                            0
                        },
            {
                let v = self.block.cell_at(x, h - y - 1);
                rev_block.set(x, y, v);
            }
        }
        self.block = rev_block;
        self.global_coord = Coord { x: self.global_coord.x, y: -self.global_coord.y - h as i64 + 1 };
    }
}

impl PartialEq for Group {
    fn eq(&self, other: &Group) -> (r: bool) {
        self.global_coord == other.global_coord && self.block == other.block
    }
}

impl vstd::std_specs::cmp::PartialEqSpecImpl for Group {
    open spec fn obeys_eq_spec() -> bool {
        true
    }

    open spec fn eq_spec(&self, other: &Group) -> bool {
        self.global_coord == other.global_coord && self.block.same(&other.block)
    }
}

impl Eq for Group {

}

} // verus!
