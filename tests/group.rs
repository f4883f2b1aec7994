use rust_cell::groups::block::Block;
use rust_cell::groups::group::Group;
use rust_cell::groups::{Coord, UCoord};

#[test]
fn group_merge() {
    let mut block_first = Block::new(6, 6);
    block_first.set(1, 2, 1);
    block_first.set(1, 3, 1);
    block_first.set(1, 4, 1);
    block_first.set(2, 1, 1);
    block_first.set(3, 1, 1);
    block_first.set(3, 4, 1);
    block_first.set(4, 2, 1);
    block_first.set(4, 3, 1);
    let group_first = Group {
        global_coord: Coord { x: 1, y: 1 },
        block: block_first,
    };

    let mut block_second = Block::new(6, 6);
    block_second.set(1, 2, 1);
    block_second.set(1, 3, 1);
    block_second.set(2, 4, 1);
    block_second.set(2, 1, 1);
    block_second.set(3, 4, 1);
    block_second.set(4, 1, 1);
    block_second.set(4, 2, 1);

    let group_second = Group {
        global_coord: Coord { x: 5, y: 1 },
        block: block_second,
    };

    let result = group_first.merge(group_second);

    let mut block_check = Block::new(10, 6);
    block_check.set(1, 2, 1);
    block_check.set(1, 3, 1);
    block_check.set(1, 4, 1);
    block_check.set(2, 1, 1);
    block_check.set(3, 1, 1);
    block_check.set(3, 4, 1);
    block_check.set(4, 2, 1);
    block_check.set(4, 3, 1);
    block_check.set(5, 2, 1);
    block_check.set(5, 3, 1);
    block_check.set(6, 1, 1);
    block_check.set(6, 4, 1);
    block_check.set(7, 4, 1);
    block_check.set(8, 1, 1);
    block_check.set(8, 2, 1);

    let check = Group {
        global_coord: Coord { x: 1, y: 1 },
        block: block_check,
    };
    assert_eq!(result, check);
}

#[test]
fn group_top_right() {
    let mut block = Block::new(5, 5);
    block.set(1, 1, 1);
    block.set(2, 1, 1);
    block.set(3, 1, 1);
    block.set(3, 2, 1);
    block.set(2, 3, 1);

    let group = Group {
        global_coord: Coord { x: 5, y: -10 },
        block,
    };

    assert_eq!(group.top_right(), Coord { x: 9, y: -6 });
}

#[test]
fn group_split() {
    let mut block = Block::new(1, 1);
    let mut b1 = Block::new(5, 6);
    b1.set(1, 2, 1);
    b1.set(1, 3, 1);
    b1.set(2, 1, 1);
    b1.set(2, 4, 1);
    b1.set(3, 2, 1);
    b1.set(3, 3, 1);

    let mut b2 = Block::new(5, 5);
    b2.set(1, 2, 1);
    b2.set(2, 1, 1);
    b2.set(2, 3, 1);
    b2.set(3, 1, 1);
    b2.set(3, 2, 1);

    block.insert(UCoord { x: 0, y: 16 }, &b1);
    block.insert(UCoord { x: 3, y: 0 }, &b2);
    let group = Group {
        global_coord: Coord { x: 0, y: 0 },
        block,
    };
    let g1 = Group {
        global_coord: Coord { x: 0, y: 16 },
        block: b1,
    };
    let g2 = Group {
        global_coord: Coord { x: 3, y: 0 },
        block: b2,
    };
    let new = group.split().unwrap();
    assert_eq!(new[1], g2);
    assert_eq!(new[0], g1);
    assert_eq!(new.len(), 2);
}

fn square_group(x: i64, y: i64) -> Group {
    let mut block = Block::new(4, 4);
    block.set(1, 1, 1);
    block.set(1, 2, 1);
    block.set(2, 1, 1);
    block.set(2, 2, 1);
    Group::new(Coord { x, y }, block)
}

#[test]
fn smart_intersection_corner_touch() {
    let a = square_group(0, 0);
    let b = square_group(3, 3);
    assert!(a.intersects(&b));
    assert!(!a.intersects_smart(&b));
    assert!(!b.intersects_smart(&a));
}

#[test]
fn smart_intersection_birth() {
    let mut lone = Block::new(3, 3);
    lone.set(1, 1, 1);
    let a = Group::new(Coord { x: 0, y: 0 }, lone);
    let mut ell = Block::new(4, 4);
    ell.set(1, 1, 1);
    ell.set(1, 2, 1);
    ell.set(2, 1, 1);
    let b = Group::new(Coord { x: 2, y: -2 }, ell);
    assert!(a.intersects_smart(&b));
    assert!(b.intersects_smart(&a));
}

#[test]
fn smart_intersection_needs_overlap() {
    let a = square_group(0, 0);
    let b = square_group(10, 0);
    assert!(!a.intersects(&b));
    assert!(!a.intersects_smart(&b));
}

#[test]
fn group_intersects_inclusive() {
    let a = square_group(0, 0);
    let b = square_group(3, 0);
    let c = square_group(4, 0);
    assert!(a.intersects(&b));
    assert!(!a.intersects(&c));
}

#[test]
fn group_merge_is_union_either_order() {
    let ab = square_group(0, 0).merge(square_group(5, 2));
    let ba = square_group(5, 2).merge(square_group(0, 0));
    assert_eq!(ab, ba);
    assert_eq!(ab.global_coord, Coord { x: 0, y: 0 });
    assert_eq!(ab.block.x_size, 9);
    assert_eq!(ab.block.y_size, 6);
    assert_eq!(ab.block.cell_at(1, 1), 1);
    assert_eq!(ab.block.cell_at(7, 4), 1);
    assert_eq!(ab.block.cell_at(4, 4), 0);
}

#[test]
fn group_merge_associative_cells() {
    let left = square_group(0, 0).merge(square_group(5, 0)).merge(square_group(0, 7));
    let right = square_group(0, 0).merge(square_group(5, 0).merge(square_group(0, 7)));
    assert_eq!(left, right);
}

#[test]
fn group_step_blinker() {
    let mut block = Block::new(5, 5);
    block.set(1, 2, 1);
    block.set(2, 2, 1);
    block.set(3, 2, 1);
    let g = Group::new(Coord { x: 0, y: 0 }, block);
    let next = g.step().unwrap();
    assert_eq!(next.len(), 1);
    let mut expected = Block::new(3, 5);
    expected.set(1, 1, 1);
    expected.set(1, 2, 1);
    expected.set(1, 3, 1);
    assert_eq!(next[0], Group::new(Coord { x: 1, y: 0 }, expected));
}

#[test]
fn group_step_dies() {
    let mut block = Block::new(3, 3);
    block.set(1, 1, 1);
    let g = Group::new(Coord { x: 0, y: 0 }, block);
    assert!(g.step().is_none());
}

#[test]
fn group_split_empty() {
    let g = Group::new(Coord { x: 4, y: 4 }, Block::new(5, 5));
    assert!(g.split().is_none());
}

#[test]
fn group_reverse_y() {
    let mut block = Block::new(3, 4);
    block.set(0, 0, 1);
    block.set(2, 3, 1);
    let mut g = Group::new(Coord { x: 2, y: 5 }, block);
    g.reverse_y();
    assert_eq!(g.global_coord, Coord { x: 2, y: -8 });
    assert_eq!(g.block.cell_at(0, 3), 1);
    assert_eq!(g.block.cell_at(2, 0), 1);
    assert_eq!(g.block.cell_at(0, 0), 0);
}

#[test]
fn group_envelope_corners() {
    let g = square_group(-3, 7);
    let env = g.envelope();
    assert_eq!(env.lower, Coord { x: -3, y: 7 });
    assert_eq!(env.upper, Coord { x: 0, y: 10 });
}

#[test]
fn smart_intersection_alien_neighbours() {
    let mut lone = Block::new(3, 3);
    lone.set(1, 1, 1);
    let a = Group::new(Coord { x: 0, y: 0 }, lone);
    let mut pair = Block::new(5, 5);
    pair.set(1, 1, 1);
    pair.set(3, 3, 1);
    let b = Group::new(Coord { x: -1, y: -1 }, pair);
    assert!(a.intersects_smart(&b));
    assert!(b.intersects_smart(&a));
}
