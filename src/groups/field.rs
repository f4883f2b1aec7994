//! The plane: every group, advanced one generation at a time.
use super::block::Block;
use super::group::{group_split_post, lemma_smart_overlaps, smart, Group};
use super::{Coord, Envelope};
use rstar::primitives::{GeomWithData, Rectangle};
use rstar::{RTree, AABB};
use vstd::multiset::Multiset;
use vstd::prelude::*;

verus! {

/// A spatial index over group boxes: an R-tree whose entries are a box and the place of
/// its group in a list. Corners are stored as `i128` and kept between 0 and `u32::MAX`,
/// so that the tree's sums, centres and areas cannot overflow.
#[verifier::external_body]
pub struct SpatialIndex {
    tree: RTree<GeomWithData<Rectangle<(i128, i128)>, usize>>,
}

/// The boxes and places held by a spatial index.
pub uninterp spec fn index_entries(t: SpatialIndex) -> Multiset<(Envelope, usize)>;

/// A box with ordered corners whose coordinates lie between 0 and `u32::MAX`.
pub open spec fn small_box(env: Envelope) -> bool {
    &&& 0 <= env.lower.x <= env.upper.x <= u32::MAX
    &&& 0 <= env.lower.y <= env.upper.y <= u32::MAX
}

/// Relies on `rstar::RTree::new`: a new tree holds no entry.
#[verifier::external_body]
fn index_new() -> (t: SpatialIndex)
    ensures
        index_entries(t) == Multiset::<(Envelope, usize)>::empty(),
{
    SpatialIndex { tree: RTree::new() }
}

/// Relies on `rstar::RTree::insert`: the tree then holds one more entry. A rectangle made
/// from ordered corners has exactly these corners.
#[verifier::external_body]
fn index_insert(t: &mut SpatialIndex, env: Envelope, id: usize)
    requires
        small_box(env),
    ensures
        index_entries(*final(t)) == index_entries(*old(t)).insert((env, id)),
{
    let lower = (env.lower.x as i128, env.lower.y as i128);
    let upper = (env.upper.x as i128, env.upper.y as i128);
    t.tree.insert(GeomWithData::new(Rectangle::from_corners(lower, upper), id));
}

/// Relies on `rstar::RTree::locate_in_envelope_intersecting`: it yields the entries whose
/// box shares a cell with `env`, boxes being closed at both corners.
#[verifier::external_body]
fn index_query(t: &SpatialIndex, env: Envelope) -> (r: Vec<usize>)
    requires
        small_box(env),
    ensures
        forall|e: Envelope, id: usize|
            #[trigger] index_entries(*t).contains((e, id)) && e.overlaps(env) ==> r@.contains(id),
{
    let lower = (env.lower.x as i128, env.lower.y as i128);
    let upper = (env.upper.x as i128, env.upper.y as i128);
    let query = AABB::from_corners(lower, upper);
    t.tree.locate_in_envelope_intersecting(&query).map(|entry| entry.data).collect()
}

/// Box `e` moved so that `o` becomes the origin.
pub open spec fn shift_env(e: Envelope, o: Coord) -> Envelope {
    Envelope {
        lower: Coord { x: (e.lower.x - o.x) as i64, y: (e.lower.y - o.y) as i64 },
        upper: Coord { x: (e.upper.x - o.x) as i64, y: (e.upper.y - o.y) as i64 },
    }
}

/// Groups placed at or beyond `o` whose boxes end within `u32::MAX` of it.
pub open spec fn near(g: Group, o: Coord) -> bool {
    &&& g.wf()
    &&& o.x <= g.global_coord.x
    &&& o.y <= g.global_coord.y
    &&& g.global_coord.x + g.block.x_size - 1 - o.x <= u32::MAX
    &&& g.global_coord.y + g.block.y_size - 1 - o.y <= u32::MAX
}

/// Moving two boxes by the same amount keeps whether they overlap.
pub proof fn lemma_shift_overlaps(a: Group, b: Group, o: Coord)
    requires
        near(a, o),
        near(b, o),
    ensures
        small_box(shift_env(a.env(), o)),
        small_box(shift_env(b.env(), o)),
        shift_env(a.env(), o).overlaps(shift_env(b.env(), o)) == a.env().overlaps(b.env()),
{
}

/// The group's box, moved so that `o` becomes the origin.
fn shifted_envelope(g: &Group, o: Coord) -> (r: Envelope)
    requires
        near(*g, o),
    ensures
        r == shift_env(g.env(), o),
        small_box(r),
{
    let tr = g.top_right();
    Envelope {
        lower: Coord { x: g.global_coord.x - o.x, y: g.global_coord.y - o.y },
        upper: Coord { x: tr.x - o.x, y: tr.y - o.y },
    }
}

/// Some group of `gs` has a live cell at `(x, y)`.
pub open spec fn field_alive(gs: Seq<Group>, x: int, y: int) -> bool {
    exists|i: int| 0 <= i < gs.len() && #[trigger] gs[i].alive_at(x, y)
}

/// Some group of `gs`, stepped alone, has a live cell at `(x, y)`.
pub open spec fn field_next(gs: Seq<Group>, x: int, y: int) -> bool {
    exists|i: int| 0 <= i < gs.len() && #[trigger] gs[i].next_alive_at(x, y)
}

/// The live cells of all groups, in global coordinates.
pub open spec fn field_cells(gs: Seq<Group>) -> Set<(int, int)> {
    Set::new(|p: (int, int)| field_alive(gs, p.0, p.1))
}

/// No two distinct groups smartly intersect.
pub open spec fn separate(gs: Seq<Group>) -> bool {
    forall|i: int, j: int|
        0 <= i < gs.len() && 0 <= j < gs.len() && i != j ==> !smart(&gs[i], &gs[j])
}

/// Every group has a dead border and no slack.
pub open spec fn all_finished(gs: Seq<Group>) -> bool {
    forall|i: int| 0 <= i < gs.len() ==> (#[trigger] gs[i]).finished()
}

/// Every group is well formed, at least three cells wide and tall, and inside the box
/// from `lo` to `hi`; a block of that box grown by `k` lanes fits the integer types and
/// memory, and so do coordinates `k` cells beyond it.
pub open spec fn in_box(gs: Seq<Group>, lo: (int, int), hi: (int, int), k: int) -> bool {
    &&& forall|i: int|
        0 <= i < gs.len() ==> {
            &&& (#[trigger] gs[i]).block.wf()
            &&& gs[i].block.x_size >= 3
            &&& gs[i].block.y_size >= 3
            &&& gs[i].within(lo, hi)
        }
    &&& 0 <= k
    &&& lo.0 <= hi.0
    &&& lo.1 <= hi.1
    &&& hi.0 - lo.0 + 1 + k <= u32::MAX
    &&& hi.1 - lo.1 + 1 + k <= u32::MAX
    &&& Block::fits(hi.0 - lo.0 + 1 + k, hi.1 - lo.1 + 1 + k)
    &&& i64::MIN + k <= lo.0
    &&& i64::MIN + k <= lo.1
    &&& hi.0 + k <= i64::MAX
    &&& hi.1 + k <= i64::MAX
}

/// The live cells of a list with one more group gain that group's cells.
pub proof fn lemma_alive_push(gs: Seq<Group>, g: Group, x: int, y: int)
    ensures
        field_alive(gs.push(g), x, y) == (field_alive(gs, x, y) || g.alive_at(x, y)),
{
    let s = gs.push(g);
    if field_alive(gs, x, y) {
        let i = choose|i: int| 0 <= i < gs.len() && #[trigger] gs[i].alive_at(x, y);
        assert(s[i] == gs[i]);
    }
    if g.alive_at(x, y) {
        assert(s[gs.len() as int] == g);
    }
    if field_alive(s, x, y) {
        let i = choose|i: int| 0 <= i < s.len() && #[trigger] s[i].alive_at(x, y);
        if i < gs.len() {
            assert(s[i] == gs[i]);
        }
    }
}

/// The next cells of a list with one more group gain that group's next cells.
pub proof fn lemma_next_push(gs: Seq<Group>, g: Group, x: int, y: int)
    ensures
        field_next(gs.push(g), x, y) == (field_next(gs, x, y) || g.next_alive_at(x, y)),
{
    let s = gs.push(g);
    if field_next(gs, x, y) {
        let i = choose|i: int| 0 <= i < gs.len() && #[trigger] gs[i].next_alive_at(x, y);
        assert(s[i] == gs[i]);
    }
    if g.next_alive_at(x, y) {
        assert(s[gs.len() as int] == g);
    }
    if field_next(s, x, y) {
        let i = choose|i: int| 0 <= i < s.len() && #[trigger] s[i].next_alive_at(x, y);
        if i < gs.len() {
            assert(s[i] == gs[i]);
        }
    }
}

/// Two groups inside a roomy box can be merged.
pub proof fn lemma_box_merge_fits(a: &Group, b: &Group, lo: (int, int), hi: (int, int))
    requires
        a.block.wf(),
        b.block.wf(),
        a.block.x_size >= 3,
        a.block.y_size >= 3,
        b.block.x_size >= 3,
        b.block.y_size >= 3,
        a.within(lo, hi),
        b.within(lo, hi),
        hi.0 - lo.0 + 2 <= u32::MAX,
        hi.1 - lo.1 + 2 <= u32::MAX,
        Block::fits(hi.0 - lo.0 + 2, hi.1 - lo.1 + 2),
        hi.0 < i64::MAX,
        hi.1 < i64::MAX,
    ensures
        super::group::merge_fits(a, b),
        a.wf(),
        b.wf(),
{
    super::block::lemma_fits_mono(hi.0 - lo.0 + 1, hi.1 - lo.1 + 1, hi.0 - lo.0 + 2, hi.1 - lo.1 + 2);
    super::block::lemma_fits_mono(
        super::group::merged_width(a, b),
        super::group::merged_height(a, b),
        hi.0 - lo.0 + 1,
        hi.1 - lo.1 + 1,
    );
}

/// The collection of all groups on the plane.
pub struct Field {
    pub groups: Vec<Group>,
}

impl Field {
    /// A field holding the given groups.
    pub fn new(groups: Vec<Group>) -> (r: Field)
        ensures
            r.groups == groups,
    {
        Field { groups }
    }

    /// The box that covers the whole plane.
    pub fn full_tree() -> (r: Envelope)
        ensures
            r.lower == (Coord { x: i64::MIN, y: i64::MIN }),
            r.upper == (Coord { x: i64::MAX, y: i64::MAX }),
    {
        Envelope { lower: Coord { x: i64::MIN, y: i64::MIN }, upper: Coord { x: i64::MAX, y: i64::MAX } }
    }

    /// Hands out the groups, leaving nothing behind.
    pub fn tree_to_vec(field: Field) -> (r: Vec<Group>)
        ensures
            r == field.groups,
    {
        field.groups
    }

    /// Merges groups that smartly intersect until no two do. The live cells stay as they
    /// were.
    pub fn merge(&mut self)
        requires
            exists|lo: (int, int), hi: (int, int)| in_box(old(self).groups@, lo, hi, 1),
        ensures
            separate(final(self).groups@),
            forall|x: int, y: int|
                field_alive(final(self).groups@, x, y) == field_alive(old(self).groups@, x, y),
            all_finished(old(self).groups@) ==> all_finished(final(self).groups@),
            exists|lo: (int, int), hi: (int, int)| in_box(final(self).groups@, lo, hi, 1),
            final(self).groups@.len() <= old(self).groups@.len(),
            separate(old(self).groups@) ==> final(self).groups@ == old(self).groups@,
    {
        let ghost orig = self.groups@;
        let ghost (lo, hi) = choose|lo: (int, int), hi: (int, int)| in_box(orig, lo, hi, 1);
        loop
            invariant
                in_box(self.groups@, lo, hi, 1),
                forall|x: int, y: int|
                    field_alive(self.groups@, x, y) == field_alive(orig, x, y),
                all_finished(orig) ==> all_finished(self.groups@),
                self.groups@.len() <= orig.len(),
                separate(orig) ==> self.groups@ == orig,
            ensures
                in_box(self.groups@, lo, hi, 1),
                separate(self.groups@),
                forall|x: int, y: int|
                    field_alive(self.groups@, x, y) == field_alive(orig, x, y),
                all_finished(orig) ==> all_finished(self.groups@),
                self.groups@.len() <= orig.len(),
                separate(orig) ==> self.groups@ == orig,
            decreases self.groups@.len(),
        {
            let n = self.groups.len();
            // boxes go into the tree relative to the field's lower-left corner
            let origin = match self.bottom_left() {
                None => {
                    break;
                },
                Some(c) => c,
            };
            proof {
                let ix = choose|i: int|
                    0 <= i < self.groups@.len() && origin.x == (#[trigger] self.groups@[i]).global_coord.x;
                let iy = choose|i: int|
                    0 <= i < self.groups@.len() && origin.y == (#[trigger] self.groups@[i]).global_coord.y;
                assert(self.groups@[ix].within(lo, hi));
                assert(self.groups@[iy].within(lo, hi));
                assert forall|k: int| 0 <= k < n implies near(#[trigger] self.groups@[k], origin) by {
                    assert(self.groups@[k].within(lo, hi));
                }
            }
            let mut index = index_new();
            for i in 0..n
                invariant
                    n == self.groups@.len(),
                    in_box(self.groups@, lo, hi, 1),
                    forall|k: int| 0 <= k < n ==> near(#[trigger] self.groups@[k], origin),
                    forall|e: Envelope, id: usize|
                        #[trigger] index_entries(index).contains((e, id)) <==> (id < i && e
                            == shift_env(self.groups@[id as int].env(), origin)),
            {
                let env = shifted_envelope(&self.groups[i], origin);
                let ghost pre_index = index;
                index_insert(&mut index, env, i);
                assert forall|e: Envelope, id: usize|
                    #[trigger] index_entries(index).contains((e, id)) <==> (id < i + 1 && e
                        == shift_env(self.groups@[id as int].env(), origin)) by {
                    vstd::multiset::lemma_insert_containment(index_entries(pre_index), (env, i), (e, id));
                    assert(index_entries(pre_index).contains((e, id)) <==> (id < i && e
                        == shift_env(self.groups@[id as int].env(), origin)));
                    assert(index_entries(index) == index_entries(pre_index).insert((env, i)));
                }
            }
            let mut found: Option<usize> = None;
            let mut a: usize = 0;
            while a < n && found.is_none()
                invariant
                    n == self.groups@.len(),
                    a <= n,
                    in_box(self.groups@, lo, hi, 1),
                    forall|k: int| 0 <= k < n ==> near(#[trigger] self.groups@[k], origin),
                    forall|e: Envelope, id: usize|
                        #[trigger] index_entries(index).contains((e, id)) <==> (id < n && e
                            == shift_env(self.groups@[id as int].env(), origin)),
                    found is None ==> forall|i: int, j: int|
                        0 <= i < a && 0 <= j < n && i != j ==> !smart(
                            &self.groups@[i],
                            &self.groups@[j],
                        ),
                    found matches Some(f) ==> f < n && exists|j: int|
                        0 <= j < n && j != f && smart(&self.groups@[f as int], &self.groups@[j]),
                decreases n - a,
            {
                let env = shifted_envelope(&self.groups[a], origin);
                let cands = index_query(&index, env);
                let mut c: usize = 0;
                while c < cands.len()
                    invariant
                        n == self.groups@.len(),
                        a < n,
                        c <= cands@.len(),
                        in_box(self.groups@, lo, hi, 1),
                        found is None ==> forall|k: int|
                            0 <= k < c ==> cands@[k] == a || cands@[k] >= n || !smart(
                                &self.groups@[a as int],
                                &self.groups@[cands@[k] as int],
                            ),
                        found matches Some(f) ==> f < n && exists|j: int|
                            0 <= j < n && j != f && smart(
                                &self.groups@[f as int],
                                &self.groups@[j],
                            ),
                        found is None || found == Some(a),
                    decreases cands@.len() - c,
                {
                    let j = cands[c];
                    if found.is_none() && j != a && j < n {
                        proof {
                            assert(self.groups@[j as int].within(lo, hi));
                        }
                        if self.groups[a].intersects_smart(&self.groups[j]) {
                            found = Some(a);
                        }
                    }
                    c = c + 1;
                }
                proof {
                    if found is None {
                        assert forall|i: int, j: int|
                            0 <= i < a + 1 && 0 <= j < n && i != j implies !smart(
                            &self.groups@[i],
                            &self.groups@[j],
                        ) by {
                            if i == a && smart(&self.groups@[i], &self.groups@[j]) {
                                lemma_smart_overlaps(&self.groups@[i], &self.groups@[j]);
                                lemma_shift_overlaps(self.groups@[i], self.groups@[j], origin);
                                assert(index_entries(index).contains(
                                    (shift_env(self.groups@[j].env(), origin), j as usize),
                                ));
                                assert(cands@.contains(j as usize));
                                let k = choose|k: int| 0 <= k < cands@.len() && cands@[k] == j;
                                assert(!smart(&self.groups@[a as int], &self.groups@[cands@[k] as int]));
                            }
                        }
                    }
                }
                a = a + 1;
            }
            let f = match found {
                None => {
                    break;
                },
                Some(f) => f,
            };
            // mark every group that smartly intersects the anchor
            let ghost partner = choose|j: int|
                0 <= j < n && j != f && smart(&self.groups@[f as int], &self.groups@[j]);
            // a separated field never gets here
            assert(!separate(orig));
            let mut marks: Vec<bool> = Vec::new();
            for i in 0..n
                invariant
                    marks@.len() == i,
                    forall|k: int| 0 <= k < i ==> !(#[trigger] marks@[k]),
            {
                marks.push(false);
            }
            let env = shifted_envelope(&self.groups[f], origin);
            let cands = index_query(&index, env);
            proof {
                lemma_smart_overlaps(&self.groups@[f as int], &self.groups@[partner]);
                lemma_shift_overlaps(self.groups@[f as int], self.groups@[partner], origin);
                assert(index_entries(index).contains(
                    (shift_env(self.groups@[partner].env(), origin), partner as usize),
                ));
                assert(cands@.contains(partner as usize));
            }
            let ghost pk = choose|k: int| 0 <= k < cands@.len() && cands@[k] == partner;
            let mut c: usize = 0;
            while c < cands.len()
                invariant
                    n == self.groups@.len(),
                    f < n,
                    0 <= partner < n,
                    partner != f,
                    smart(&self.groups@[f as int], &self.groups@[partner]),
                    0 <= pk < cands@.len(),
                    cands@[pk] == partner,
                    c <= cands@.len(),
                    marks@.len() == n,
                    in_box(self.groups@, lo, hi, 1),
                    !marks@[f as int],
                    pk < c ==> marks@[partner],
                decreases cands@.len() - c,
            {
                let j = cands[c];
                if j != f && j < n {
                    proof {
                        assert(self.groups@[j as int].within(lo, hi));
                    }
                    if self.groups[f].intersects_smart(&self.groups[j]) {
                        marks.set(j, true);
                    }
                }
                c = c + 1;
            }
            // take the marked groups and the anchor out, and merge them into one
            let ghost before = self.groups@;
            let mut rest: Vec<Group> = Vec::new();
            let mut merged: Option<Group> = None;
            let ghost mut count: int = 0;
            while self.groups.len() > 0
                invariant
                    n == before.len(),
                    f < n,
                    0 <= partner < n,
                    partner != f,
                    marks@.len() == n,
                    marks@[partner],
                    in_box(before, lo, hi, 1),
                    self.groups@ == before.subrange(0, self.groups@.len() as int),
                    rest@.len() + self.groups@.len() + count == n,
                    count >= (if f >= self.groups@.len() { 1int } else { 0 }) + (if partner
                        >= self.groups@.len() { 1int } else { 0 }),
                    merged is None <==> count == 0,
                    forall|i: int|
                        0 <= i < rest@.len() ==> {
                            &&& (#[trigger] rest@[i]).block.wf()
                            &&& rest@[i].block.x_size >= 3
                            &&& rest@[i].block.y_size >= 3
                            &&& rest@[i].within(lo, hi)
                        },
                    merged matches Some(m) ==> {
                        &&& m.block.wf()
                        &&& m.block.x_size >= 3
                        &&& m.block.y_size >= 3
                        &&& m.within(lo, hi)
                        &&& (all_finished(before) ==> m.finished())
                    },
                    all_finished(before) ==> all_finished(rest@),
                    forall|x: int, y: int|
                        field_alive(before, x, y) == (field_alive(self.groups@, x, y)
                            || field_alive(rest@, x, y) || (merged matches Some(m)
                            && m.alive_at(x, y))),
                decreases self.groups@.len(),
            {
                let ghost cur = self.groups@;
                let g = self.groups.pop().unwrap();
                let idx = self.groups.len();
                proof {
                    assert(cur == self.groups@.push(g));
                    assert(g == before[idx as int]);
                    assert(before[idx as int].within(lo, hi));
                }
                let ghost rest_before = rest@;
                if idx == f || marks[idx] {
                    merged = match merged {
                        None => Some(g),
                        Some(m) => {
                            proof {
                                lemma_box_merge_fits(&m, &g, lo, hi);
                            }
                            let ghost (m0, g0) = (m, g);
                            let r = m.merge(g);
                            proof {
                                super::group::lemma_merge_within(&m0, &g0, &r, lo, hi);
                                if all_finished(before) {
                                    assert(g0.finished());
                                    super::group::lemma_merge_finished(&m0, &g0, &r);
                                }
                            }
                            Some(r)
                        },
                    };
                    proof {
                        count = count + 1;
                    }
                } else {
                    rest.push(g);
                }
                proof {
                    assert forall|x: int, y: int|
                        field_alive(before, x, y) == (field_alive(self.groups@, x, y)
                            || field_alive(rest@, x, y) || (merged matches Some(m)
                            && m.alive_at(x, y))) by {
                        lemma_alive_push(self.groups@, g, x, y);
                        lemma_alive_push(rest_before, g, x, y);
                    }
                    assert forall|i: int| 0 <= i < rest@.len() implies {
                        &&& (#[trigger] rest@[i]).block.wf()
                        &&& rest@[i].block.x_size >= 3
                        &&& rest@[i].block.y_size >= 3
                        &&& rest@[i].within(lo, hi)
                    } by {
                        if i < rest_before.len() {
                            assert(rest@[i] == rest_before[i]);
                        }
                    }
                    if all_finished(before) {
                        assert forall|i: int| 0 <= i < rest@.len() implies (
                        #[trigger] rest@[i]).finished() by {
                            if i < rest_before.len() {
                                assert(rest@[i] == rest_before[i]);
                            }
                        }
                    }
                }
            }
            let ghost rest_before = rest@;
            match merged {
                Some(m) => {
                    rest.push(m);
                    proof {
                        assert forall|x: int, y: int|
                            field_alive(rest@, x, y) == field_alive(orig, x, y) by {
                            lemma_alive_push(rest_before, m, x, y);
                        }
                        assert forall|i: int| 0 <= i < rest@.len() implies {
                            &&& (#[trigger] rest@[i]).block.wf()
                            &&& rest@[i].block.x_size >= 3
                            &&& rest@[i].block.y_size >= 3
                            &&& rest@[i].within(lo, hi)
                        } by {
                            if i < rest_before.len() {
                                assert(rest@[i] == rest_before[i]);
                            }
                        }
                        if all_finished(orig) {
                            assert forall|i: int| 0 <= i < rest@.len() implies (
                            #[trigger] rest@[i]).finished() by {
                                if i < rest_before.len() {
                                    assert(rest@[i] == rest_before[i]);
                                }
                            }
                        }
                    }
                },
                None => {},
            }
            self.groups = rest;
        }
    }
}

/// The live cells of two lists joined are the live cells of either.
pub proof fn lemma_alive_concat(a: Seq<Group>, b: Seq<Group>, x: int, y: int)
    ensures
        field_alive(a + b, x, y) == (field_alive(a, x, y) || field_alive(b, x, y)),
{
    let s = a + b;
    if field_alive(a, x, y) {
        let i = choose|i: int| 0 <= i < a.len() && #[trigger] a[i].alive_at(x, y);
        assert(s[i] == a[i]);
    }
    if field_alive(b, x, y) {
        let i = choose|i: int| 0 <= i < b.len() && #[trigger] b[i].alive_at(x, y);
        assert(s[a.len() + i] == b[i]);
    }
    if field_alive(s, x, y) {
        let i = choose|i: int| 0 <= i < s.len() && #[trigger] s[i].alive_at(x, y);
        if i < a.len() {
            assert(s[i] == a[i]);
        } else {
            assert(s[i] == b[i - a.len()]);
        }
    }
}

impl Field {
    /// Advances each group one generation on its own and splits the results into
    /// independent groups, without merging them: the work of one worker of a parallel step.
    /// The live cells that come back are those of each group stepped alone.
    pub fn step_groups(groups: Vec<Group>) -> (r: Vec<Group>)
        requires
            exists|lo: (int, int), hi: (int, int)| in_box(groups@, lo, hi, 6),
        ensures
            all_finished(r@),
            forall|x: int, y: int| field_alive(r@, x, y) == field_next(groups@, x, y),
            forall|lo: (int, int), hi: (int, int)|
                #![trigger in_box(groups@, lo, hi, 6)]
                in_box(groups@, lo, hi, 6) ==> in_box(
                    r@,
                    (lo.0 - 1, lo.1 - 1),
                    (hi.0 + 1, hi.1 + 1),
                    1,
                ),
    {
        let ghost orig = groups@;
        let ghost (lo, hi) = choose|lo: (int, int), hi: (int, int)| in_box(orig, lo, hi, 6);
        let mut groups = groups;
        let mut next: Vec<Group> = Vec::new();
        while groups.len() > 0
            invariant
                in_box(orig, lo, hi, 6),
                groups@.len() <= orig.len(),
                groups@ == orig.subrange(0, groups@.len() as int),
                all_finished(next@),
                forall|i: int|
                    0 <= i < next@.len() ==> {
                        &&& (#[trigger] next@[i]).block.x_size >= 3
                        &&& next@[i].block.y_size >= 3
                        &&& forall|l: (int, int), h: (int, int)|
                            #![trigger in_box(orig, l, h, 6)]
                            in_box(orig, l, h, 6) ==> next@[i].within(
                                (l.0 - 1, l.1 - 1),
                                (h.0 + 1, h.1 + 1),
                            )
                    },
                forall|x: int, y: int|
                    field_next(orig, x, y) == (field_next(groups@, x, y) || field_alive(
                        next@,
                        x,
                        y,
                    )),
            decreases groups@.len(),
        {
            let ghost cur = groups@;
            let g = groups.pop().unwrap();
            let ghost g0 = g;
            let ghost gi = groups@.len() as int;
            proof {
                assert(cur == groups@.push(g));
                assert(g == cur[gi]);
                assert(g == orig[gi]);
                let (w, h) = (hi.0 - lo.0 + 1, hi.1 - lo.1 + 1);
                super::block::lemma_fits_mono(g.block.x_size + 4, g.block.y_size + 4, w + 6, h + 6);
            }
            let ghost next_before = next@;
            match g.step() {
                None => {
                    proof {
                        assert forall|x: int, y: int|
                            field_next(orig, x, y) == (field_next(groups@, x, y) || field_alive(
                                next@,
                                x,
                                y,
                            )) by {
                            lemma_next_push(groups@, g0, x, y);
                            if g0.next_alive_at(x, y) {
                                assert(exists|x: int, y: int| #[trigger] g0.next_alive_at(x, y));
                            }
                        }
                    }
                },
                Some(mut v) => {
                    let ghost vs = v@;
                    next.append(&mut v);
                    proof {
                        assert(next@ == next_before + vs);
                        assert forall|x: int, y: int|
                            field_next(orig, x, y) == (field_next(groups@, x, y) || field_alive(
                                next@,
                                x,
                                y,
                            )) by {
                            lemma_next_push(groups@, g0, x, y);
                            lemma_alive_concat(next_before, vs, x, y);
                            if g0.next_alive_at(x, y) {
                                let i = choose|i: int|
                                    0 <= i < vs.len() && #[trigger] vs[i].alive_at(x, y);
                            }
                            if field_alive(vs, x, y) {
                                let i = choose|i: int|
                                    0 <= i < vs.len() && #[trigger] vs[i].alive_at(x, y);
                                assert(vs[i].alive_at(x, y) ==> g0.next_alive_at(x, y));
                            }
                        }
                        assert forall|i: int| 0 <= i < next@.len() implies {
                            &&& (#[trigger] next@[i]).finished()
                            &&& next@[i].block.x_size >= 3
                            &&& next@[i].block.y_size >= 3
                            &&& forall|l: (int, int), h: (int, int)|
                                #![trigger in_box(orig, l, h, 6)]
                                in_box(orig, l, h, 6) ==> next@[i].within(
                                    (l.0 - 1, l.1 - 1),
                                    (h.0 + 1, h.1 + 1),
                                )
                        } by {
                            if i < next_before.len() {
                                assert(next@[i] == next_before[i]);
                            } else {
                                assert(next@[i] == vs[i - next_before.len()]);
                                super::block::lemma_finished_dims(vs[i - next_before.len()].block);
                                assert forall|l: (int, int), h: (int, int)|
                                    #![trigger in_box(orig, l, h, 6)]
                                    in_box(orig, l, h, 6) implies next@[i].within(
                                    (l.0 - 1, l.1 - 1),
                                    (h.0 + 1, h.1 + 1),
                                ) by {
                                    assert(orig[gi].within(l, h));
                                }
                            }
                        }
                    }
                },
            }
        }
        proof {
            assert forall|l: (int, int), h: (int, int)|
                #![trigger in_box(orig, l, h, 6)]
                in_box(orig, l, h, 6) implies in_box(
                next@,
                (l.0 - 1, l.1 - 1),
                (h.0 + 1, h.1 + 1),
                1,
            ) by {
                let (w, hh) = (h.0 - l.0 + 1, h.1 - l.1 + 1);
                super::block::lemma_fits_mono(w + 3, hh + 3, w + 6, hh + 6);
            }
        }
        next
    }

    /// Advances every group one generation, splits the results into independent groups
    /// and merges those that smartly intersect. The new live cells are those of each old
    /// group stepped alone.
    pub fn step(&mut self)
        requires
            exists|lo: (int, int), hi: (int, int)| in_box(old(self).groups@, lo, hi, 6),
        ensures
            all_finished(final(self).groups@),
            separate(final(self).groups@),
            forall|x: int, y: int|
                field_alive(final(self).groups@, x, y) == field_next(old(self).groups@, x, y),
    {
        let ghost (lo, hi) = choose|lo: (int, int), hi: (int, int)| in_box(self.groups@, lo, hi, 6);
        let mut groups: Vec<Group> = Vec::new();
        std::mem::swap(&mut groups, &mut self.groups);
        let next = Field::step_groups(groups);
        assert(in_box(next@, (lo.0 - 1, lo.1 - 1), (hi.0 + 1, hi.1 + 1), 1));
        self.groups = next;
        assert(in_box(self.groups@, (lo.0 - 1, lo.1 - 1), (hi.0 + 1, hi.1 + 1), 1));
        self.merge();
    }

    /// The lowest x and the lowest y over all groups' positions; `None` for an empty field.
    pub fn bottom_left(&self) -> (r: Option<Coord>)
        ensures
            r is None <==> self.groups@.len() == 0,
            r matches Some(c) ==> {
                &&& forall|i: int|
                    0 <= i < self.groups@.len() ==> c.x <= (#[trigger] self.groups@[i]).global_coord.x
                        && c.y <= self.groups@[i].global_coord.y
                &&& exists|i: int|
                    0 <= i < self.groups@.len() && c.x == (#[trigger] self.groups@[i]).global_coord.x
                &&& exists|i: int|
                    0 <= i < self.groups@.len() && c.y == (#[trigger] self.groups@[i]).global_coord.y
            },
    {
        if self.groups.len() == 0 {
            return None;
        }
        let mut bl = self.groups[0].global_coord;
        let mut i: usize = 1;
        let ghost mut ix: int = 0;
        let ghost mut iy: int = 0;
        while i < self.groups.len()
            invariant
                1 <= i <= self.groups@.len(),
                0 <= ix < self.groups@.len(),
                0 <= iy < self.groups@.len(),
                bl.x == self.groups@[ix].global_coord.x,
                bl.y == self.groups@[iy].global_coord.y,
                forall|k: int|
                    0 <= k < i ==> bl.x <= (#[trigger] self.groups@[k]).global_coord.x && bl.y
                        <= self.groups@[k].global_coord.y,
            decreases self.groups@.len() - i,
        {
            let c = self.groups[i].global_coord;
            if c.x < bl.x {
                bl.x = c.x;
                proof {
                    ix = i as int;
                }
            }
            if c.y < bl.y {
                bl.y = c.y;
                proof {
                    iy = i as int;
                }
            }
            i = i + 1;
        }
        Some(bl)
    }

    /// The highest x and the highest y over all groups' top-right corners; `None` for an
    /// empty field.
    pub fn top_right(&self) -> (r: Option<Coord>)
        requires
            forall|i: int| 0 <= i < self.groups@.len() ==> (#[trigger] self.groups@[i]).wf(),
        ensures
            r is None <==> self.groups@.len() == 0,
            r matches Some(c) ==> {
                &&& forall|i: int|
                    0 <= i < self.groups@.len() ==> (#[trigger] self.groups@[i]).env().upper.x
                        <= c.x && self.groups@[i].env().upper.y <= c.y
                &&& exists|i: int|
                    0 <= i < self.groups@.len() && c.x == (#[trigger] self.groups@[i]).env().upper.x
                &&& exists|i: int|
                    0 <= i < self.groups@.len() && c.y == (#[trigger] self.groups@[i]).env().upper.y
            },
    {
        if self.groups.len() == 0 {
            return None;
        }
        let mut tr = self.groups[0].top_right();
        let mut i: usize = 1;
        let ghost mut ix: int = 0;
        let ghost mut iy: int = 0;
        while i < self.groups.len()
            invariant
                1 <= i <= self.groups@.len(),
                forall|k: int| 0 <= k < self.groups@.len() ==> (#[trigger] self.groups@[k]).wf(),
                0 <= ix < self.groups@.len(),
                0 <= iy < self.groups@.len(),
                tr.x == self.groups@[ix].env().upper.x,
                tr.y == self.groups@[iy].env().upper.y,
                forall|k: int|
                    0 <= k < i ==> (#[trigger] self.groups@[k]).env().upper.x <= tr.x
                        && self.groups@[k].env().upper.y <= tr.y,
            decreases self.groups@.len() - i,
        {
            let c = self.groups[i].top_right();
            if c.x > tr.x {
                tr.x = c.x;
                proof {
                    ix = i as int;
                }
            }
            if c.y > tr.y {
                tr.y = c.y;
                proof {
                    iy = i as int;
                }
            }
            i = i + 1;
        }
        Some(tr)
    }

    /// Whether the field is small enough to step: every group is well formed and at least
    /// three cells wide and tall, and the box around all of them, grown by six lanes, fits
    /// the coordinate and size types and memory.
    pub fn has_room(&self) -> (r: bool)
        ensures
            r == exists|lo: (int, int), hi: (int, int)| in_box(self.groups@, lo, hi, 6),
    {
        let ghost gs = self.groups@;
        let mut i: usize = 0;
        while i < self.groups.len()
            invariant
                gs == self.groups@,
                i <= self.groups@.len(),
                forall|k: int|
                    0 <= k < i ==> {
                        &&& (#[trigger] self.groups@[k]).wf()
                        &&& self.groups@[k].block.x_size >= 3
                        &&& self.groups@[k].block.y_size >= 3
                    },
            decreases self.groups@.len() - i,
        {
            let g = &self.groups[i];
            if !g.block.is_valid() || g.block.x_size < 3 || g.block.y_size < 3
                || g.global_coord.x > i64::MAX - g.block.x_size as i64 || g.global_coord.y
                > i64::MAX - g.block.y_size as i64 {
                proof {
                    if exists|lo: (int, int), hi: (int, int)| in_box(gs, lo, hi, 6) {
                        let (lo, hi) = choose|lo: (int, int), hi: (int, int)| in_box(gs, lo, hi, 6);
                        assert(gs[i as int].within(lo, hi));
                    }
                }
                return false;
            }
            i = i + 1;
        }
        let bl = match self.bottom_left() {
            None => {
                assert(Block::fits(7, 7));
                assert(in_box(self.groups@, (0, 0), (0, 0), 6));
                return true;
            },
            Some(c) => c,
        };
        let tr = match self.top_right() {
            None => return true,
            Some(c) => c,
        };
        let ghost ix = choose|i: int| 0 <= i < gs.len() && bl.x == (#[trigger] gs[i]).global_coord.x;
        let ghost iy = choose|i: int| 0 <= i < gs.len() && bl.y == (#[trigger] gs[i]).global_coord.y;
        let ghost jx = choose|i: int| 0 <= i < gs.len() && tr.x == (#[trigger] gs[i]).env().upper.x;
        let ghost jy = choose|i: int| 0 <= i < gs.len() && tr.y == (#[trigger] gs[i]).env().upper.y;
        assert(bl.x <= gs[0].global_coord.x && gs[0].env().upper.x <= tr.x);
        assert(bl.y <= gs[0].global_coord.y && gs[0].env().upper.y <= tr.y);
        // any box that holds every group holds their extent
        let ghost fits_extent = exists|lo: (int, int), hi: (int, int)| in_box(gs, lo, hi, 6);
        proof {
            if fits_extent {
                let (lo, hi) = choose|lo: (int, int), hi: (int, int)| in_box(gs, lo, hi, 6);
                assert(gs[ix].within(lo, hi));
                assert(gs[iy].within(lo, hi));
                assert(gs[jx].within(lo, hi));
                assert(gs[jy].within(lo, hi));
                super::block::lemma_fits_mono(
                    tr.x - bl.x + 7,
                    tr.y - bl.y + 7,
                    hi.0 - lo.0 + 7,
                    hi.1 - lo.1 + 7,
                );
            }
        }
        if bl.x < i64::MIN + 6 || bl.y < i64::MIN + 6 || tr.x > i64::MAX - 6 || tr.y > i64::MAX
            - 6 {
            return false;
        }
        let w: i128 = tr.x as i128 - bl.x as i128 + 1 + 6;
        let h: i128 = tr.y as i128 - bl.y as i128 + 1 + 6;
        if w > u32::MAX as i128 || h > u32::MAX as i128 {
            return false;
        }
        assert((w as int) * (h as int) <= 0xffff_ffff * 0xffff_ffff) by (nonlinear_arith)
            requires
                0 <= w <= 0xffff_ffff,
                0 <= h <= 0xffff_ffff,
        ;
        let area: u128 = (w as u128) * (h as u128);
        if area > usize::MAX as u128 {
            return false;
        }
        let ghost lo = (bl.x as int, bl.y as int);
        let ghost hi = (tr.x as int, tr.y as int);
        assert forall|k: int| 0 <= k < self.groups@.len() implies {
            &&& (#[trigger] self.groups@[k]).block.wf()
            &&& self.groups@[k].block.x_size >= 3
            &&& self.groups@[k].block.y_size >= 3
            &&& self.groups@[k].within(lo, hi)
        } by {
            assert(self.groups@[k].wf());
        }
        assert(in_box(self.groups@, lo, hi, 6));
        true
    }
}

/// The size of chunk `k` when `n` groups are dealt out to `jobs` workers: `n / jobs`, plus
/// one for each of the first `n % jobs` workers.
pub open spec fn chunk_len(n: int, jobs: int, k: int) -> int {
    n / jobs + if k < n % jobs {
        1int
    } else {
        0
    }
}

/// The groups held by each chunk.
pub open spec fn views(cs: Seq<Vec<Group>>) -> Seq<Seq<Group>> {
    cs.map_values(|c: Vec<Group>| c@)
}

/// The live cells of chunks joined are the live cells of any chunk.
pub proof fn lemma_alive_flatten(gss: Seq<Seq<Group>>, x: int, y: int)
    ensures
        field_alive(gss.flatten(), x, y) == exists|k: int|
            0 <= k < gss.len() && #[trigger] field_alive(gss[k], x, y),
    decreases gss.len(),
{
    if gss.len() > 0 {
        let rest = gss.drop_first();
        lemma_alive_flatten(rest, x, y);
        lemma_alive_concat(gss.first(), rest.flatten(), x, y);
        if exists|k: int| 0 <= k < rest.len() && #[trigger] field_alive(rest[k], x, y) {
            let k = choose|k: int| 0 <= k < rest.len() && #[trigger] field_alive(rest[k], x, y);
            assert(gss[k + 1] == rest[k]);
        }
        if exists|k: int| 0 <= k < gss.len() && #[trigger] field_alive(gss[k], x, y) {
            let k = choose|k: int| 0 <= k < gss.len() && #[trigger] field_alive(gss[k], x, y);
            if k > 0 {
                assert(rest[k - 1] == gss[k]);
            }
        }
    }
}

/// The next cells of two lists joined are the next cells of either.
pub proof fn lemma_next_concat(a: Seq<Group>, b: Seq<Group>, x: int, y: int)
    ensures
        field_next(a + b, x, y) == (field_next(a, x, y) || field_next(b, x, y)),
{
    let s = a + b;
    if field_next(a, x, y) {
        let i = choose|i: int| 0 <= i < a.len() && #[trigger] a[i].next_alive_at(x, y);
        assert(s[i] == a[i]);
    }
    if field_next(b, x, y) {
        let i = choose|i: int| 0 <= i < b.len() && #[trigger] b[i].next_alive_at(x, y);
        assert(s[a.len() + i] == b[i]);
    }
    if field_next(s, x, y) {
        let i = choose|i: int| 0 <= i < s.len() && #[trigger] s[i].next_alive_at(x, y);
        if i < a.len() {
            assert(s[i] == a[i]);
        } else {
            assert(s[i] == b[i - a.len()]);
        }
    }
}

/// The next cells of chunks joined are the next cells of any chunk.
pub proof fn lemma_next_flatten(gss: Seq<Seq<Group>>, x: int, y: int)
    ensures
        field_next(gss.flatten(), x, y) == exists|k: int|
            0 <= k < gss.len() && #[trigger] field_next(gss[k], x, y),
    decreases gss.len(),
{
    if gss.len() > 0 {
        let rest = gss.drop_first();
        lemma_next_flatten(rest, x, y);
        lemma_next_concat(gss.first(), rest.flatten(), x, y);
        if exists|k: int| 0 <= k < rest.len() && #[trigger] field_next(rest[k], x, y) {
            let k = choose|k: int| 0 <= k < rest.len() && #[trigger] field_next(rest[k], x, y);
            assert(gss[k + 1] == rest[k]);
        }
        if exists|k: int| 0 <= k < gss.len() && #[trigger] field_next(gss[k], x, y) {
            let k = choose|k: int| 0 <= k < gss.len() && #[trigger] field_next(gss[k], x, y);
            if k > 0 {
                assert(rest[k - 1] == gss[k]);
            }
        }
    }
}

/// Stepping the groups chunk by chunk, each chunk on its own, and merging everything that
/// comes back gives the same live cells as stepping the whole field at once, however the
/// groups were dealt out.
pub proof fn lemma_parallel_step_same_cells(
    groups: Seq<Group>,
    chunks: Seq<Seq<Group>>,
    outs: Seq<Seq<Group>>,
    parallel: Seq<Group>,
    serial: Seq<Group>,
)
    requires
        chunks.flatten() == groups,
        outs.len() == chunks.len(),
        forall|k: int, x: int, y: int|
            0 <= k < chunks.len() ==> #[trigger] field_alive(outs[k], x, y) == field_next(
                chunks[k],
                x,
                y,
            ),
        forall|x: int, y: int| field_alive(parallel, x, y) == field_alive(outs.flatten(), x, y),
        forall|x: int, y: int| field_alive(serial, x, y) == field_next(groups, x, y),
    ensures
        field_cells(parallel) == field_cells(serial),
{
    assert forall|x: int, y: int| field_alive(parallel, x, y) == field_alive(serial, x, y) by {
        lemma_alive_flatten(outs, x, y);
        lemma_next_flatten(chunks, x, y);
        if exists|k: int| 0 <= k < outs.len() && #[trigger] field_alive(outs[k], x, y) {
            let k = choose|k: int| 0 <= k < outs.len() && #[trigger] field_alive(outs[k], x, y);
            assert(field_next(chunks[k], x, y));
        }
        if exists|k: int| 0 <= k < chunks.len() && #[trigger] field_next(chunks[k], x, y) {
            let k = choose|k: int| 0 <= k < chunks.len() && #[trigger] field_next(chunks[k], x, y);
            assert(field_alive(outs[k], x, y));
        }
    }
    assert(field_cells(parallel) =~= field_cells(serial));
}

/// The pieces that splitting a group returns hold exactly the group's cells, so merging
/// them all back, whose cells are the union of theirs, gives the group's cells again.
pub proof fn lemma_split_pieces_cells(g: &Group, pieces: Seq<Group>)
    requires
        group_split_post(g, pieces),
    ensures
        field_cells(pieces) == g.cells(),
{
    assert forall|p: (int, int)| field_cells(pieces).contains(p) == g.cells().contains(p) by {
        if field_alive(pieces, p.0, p.1) {
            let i = choose|i: int| 0 <= i < pieces.len() && #[trigger] pieces[i].alive_at(p.0, p.1);
            assert(pieces[i].alive_at(p.0, p.1) ==> g.alive_at(p.0, p.1));
        }
    }
    assert(field_cells(pieces) =~= g.cells());
}

impl Field {
    /// Deals `groups` out to `jobs` workers in order: chunk `k` takes `n / jobs` groups,
    /// plus one for each of the first `n % jobs` chunks. The chunks, one after another,
    /// are the groups as given.
    pub fn partition(groups: Vec<Group>, jobs: usize) -> (r: Vec<Vec<Group>>)
        requires
            jobs > 0,
        ensures
            r@.len() == jobs,
            views(r@).flatten() == groups@,
            forall|k: int|
                0 <= k < jobs ==> (#[trigger] r@[k])@.len() == chunk_len(
                    groups@.len() as int,
                    jobs as int,
                    k,
                ),
    {
        let ghost orig = groups@;
        let n = groups.len();
        let q = n / jobs;
        let rem = n % jobs;
        proof {
            vstd::arithmetic::div_mod::lemma_fundamental_div_mod(n as int, jobs as int);
            assert(n as int == jobs * q + rem);
        }
        let mut groups = groups;
        let mut chunks: Vec<Vec<Group>> = Vec::new();
        let mut k: usize = jobs;
        while k > 0
            invariant
                k <= jobs,
                n == orig.len(),
                q == n / jobs,
                rem == n % jobs,
                rem < jobs,
                n == jobs * q + rem,
                groups@.len() == k * q + vstd::math::min(k as int, rem as int),
                groups@.len() <= n,
                groups@ == orig.subrange(0, groups@.len() as int),
                views(chunks@).flatten() == orig.subrange(groups@.len() as int, n as int),
                chunks@.len() == jobs - k,
                forall|i: int|
                    0 <= i < chunks@.len() ==> (#[trigger] chunks@[i])@.len() == chunk_len(
                        n as int,
                        jobs as int,
                        k + i,
                    ),
            decreases k,
        {
            k = k - 1;
            assert(jobs * q >= q) by (nonlinear_arith)
                requires
                    jobs >= 1,
                    q >= 0,
            ;
            let size: usize = if k < rem {
                q + 1
            } else {
                q
            };
            proof {
                assert((k + 1) * q == k * q + q) by (nonlinear_arith);
                assert(0 <= k * q) by (nonlinear_arith)
                    requires
                        0 <= k,
                        0 <= q,
                ;
            }
            let at = groups.len() - size;
            let ghost before = groups@;
            let ghost chunks_before = chunks@;
            let tail = groups.split_off(at);
            chunks.insert(0, tail);
            proof {
                assert(views(chunks@).first() == tail@);
                assert(views(chunks@).drop_first() =~= views(chunks_before));
                assert(tail@ == orig.subrange(at as int, before.len() as int));
                assert(views(chunks@).flatten() == tail@ + views(chunks_before).flatten());
                assert(views(chunks@).flatten() =~= orig.subrange(at as int, n as int));
                assert(groups@ =~= orig.subrange(0, at as int));
                assert forall|i: int|
                    0 <= i < chunks@.len() implies (#[trigger] chunks@[i])@.len() == chunk_len(
                    n as int,
                    jobs as int,
                    k + i,
                ) by {
                    if i > 0 {
                        assert(chunks@[i] == chunks_before[i - 1]);
                    }
                }
            }
        }
        proof {
            assert(orig.subrange(0, n as int) =~= orig);
        }
        chunks
    }
}

} // verus!
