use rust_cell::groups::block::Block;
use rust_cell::groups::field::Field;
use rust_cell::groups::group::Group;
use rust_cell::groups::Coord;
use rust_cell::patterns::{lidka, r_pentomino};

fn live_cells(groups: &Vec<Group>) -> Vec<(i64, i64)> {
    let mut cells = Vec::new();
    for g in groups {
        for x in 0..g.block.x_size {
            for y in 0..g.block.y_size {
                if g.block.cell_at(x, y) == 1 {
                    cells.push((g.global_coord.x + x as i64, g.global_coord.y + y as i64));
                }
            }
        }
    }
    cells.sort();
    cells.dedup();
    cells
}

fn field_of(x_size: u32, y_size: u32, live: &[(u32, u32)]) -> Field {
    let mut block = Block::new(x_size, y_size);
    for &(x, y) in live {
        block.set(x, y, 1);
    }
    Field::new(vec![Group::new(Coord { x: 0, y: 0 }, block)])
}

fn sorted(mut v: Vec<(i64, i64)>) -> Vec<(i64, i64)> {
    v.sort();
    v
}

fn no_smart_pairs(groups: &Vec<Group>) -> bool {
    for i in 0..groups.len() {
        for j in 0..groups.len() {
            if i != j && groups[i].intersects_smart(&groups[j]) {
                return false;
            }
        }
    }
    true
}

fn borders_dead(groups: &Vec<Group>) -> bool {
    groups.iter().all(|g| !g.block.need_expand())
}

fn lidka_field() -> Field {
    Field::new(vec![Group::new(Coord { x: 0, y: 0 }, lidka())])
}

fn step_in_chunks(field: &mut Field, jobs: usize) {
    let groups = std::mem::take(&mut field.groups);
    let mut stepped = Vec::new();
    for chunk in Field::partition(groups, jobs) {
        stepped.append(&mut Field::step_groups(chunk));
    }
    field.groups = stepped;
    field.merge();
}

#[test]
fn blinker_oscillates() {
    let mut field = field_of(5, 5, &[(1, 2), (2, 2), (3, 2)]);
    field.step();
    assert_eq!(field.groups.len(), 1);
    assert_eq!(live_cells(&field.groups), vec![(2, 1), (2, 2), (2, 3)]);
    field.step();
    assert_eq!(live_cells(&field.groups), vec![(1, 2), (2, 2), (3, 2)]);
}

#[test]
fn still_block_stays() {
    let mut field = field_of(4, 4, &[(1, 1), (1, 2), (2, 1), (2, 2)]);
    for _ in 0..5 {
        field.step();
        assert_eq!(live_cells(&field.groups), vec![(1, 1), (1, 2), (2, 1), (2, 2)]);
    }
}

#[test]
fn glider_moves_diagonally() {
    let start = vec![(2, 3), (3, 2), (1, 1), (2, 1), (3, 1)];
    let mut field = field_of(5, 5, &[(2, 3), (3, 2), (1, 1), (2, 1), (3, 1)]);
    for _ in 0..4 {
        field.step();
    }
    let moved: Vec<(i64, i64)> = start.iter().map(|&(x, y)| (x + 1, y - 1)).collect();
    assert_eq!(live_cells(&field.groups), sorted(moved));
}

#[test]
fn r_pentomino_stabilises() {
    let mut field = Field::new(vec![Group::new(Coord { x: 0, y: 0 }, r_pentomino())]);
    for _ in 0..1103 {
        field.step();
    }
    assert_eq!(live_cells(&field.groups).len(), 116);
    assert!(no_smart_pairs(&field.groups));
    assert!(borders_dead(&field.groups));
}

#[test]
fn chunked_step_matches_serial() {
    for jobs in 1..5 {
        let mut serial = lidka_field();
        let mut chunked = lidka_field();
        for _ in 0..150 {
            serial.step();
            step_in_chunks(&mut chunked, jobs);
            assert_eq!(live_cells(&serial.groups), live_cells(&chunked.groups));
        }
    }
}

#[test]
fn step_leaves_separate_groups_with_dead_borders() {
    let mut field = lidka_field();
    for _ in 0..60 {
        field.step();
        assert!(no_smart_pairs(&field.groups));
        assert!(borders_dead(&field.groups));
    }
}

#[test]
fn merge_joins_interfering_groups() {
    let mut lone = Block::new(3, 3);
    lone.set(1, 1, 1);
    let mut ell = Block::new(4, 4);
    ell.set(1, 1, 1);
    ell.set(1, 2, 1);
    ell.set(2, 1, 1);
    let mut field = Field::new(vec![
        Group::new(Coord { x: 0, y: 0 }, lone),
        Group::new(Coord { x: 2, y: -2 }, ell),
    ]);
    field.merge();
    assert_eq!(field.groups.len(), 1);
    assert_eq!(field.groups[0].global_coord, Coord { x: 0, y: -2 });
    assert_eq!(live_cells(&field.groups), vec![(1, 1), (3, -1), (3, 0), (4, -1)]);
}

#[test]
fn merge_keeps_independent_groups() {
    let mut a = Block::new(4, 4);
    let mut b = Block::new(4, 4);
    for (x, y) in [(1, 1), (1, 2), (2, 1), (2, 2)] {
        a.set(x, y, 1);
        b.set(x, y, 1);
    }
    let mut field = Field::new(vec![
        Group::new(Coord { x: 0, y: 0 }, a),
        Group::new(Coord { x: 3, y: 3 }, b),
    ]);
    field.merge();
    assert_eq!(field.groups.len(), 2);
}

#[test]
fn partition_sizes() {
    let mut groups = Vec::new();
    for i in 0..7 {
        groups.push(Group::new(Coord { x: i * 10, y: 0 }, Block::new(3, 3)));
    }
    let chunks = Field::partition(groups, 3);
    let sizes: Vec<usize> = chunks.iter().map(|c| c.len()).collect();
    assert_eq!(sizes, vec![3, 2, 2]);
    assert_eq!(chunks[0][0].global_coord.x, 0);
    assert_eq!(chunks[1][0].global_coord.x, 30);
    assert_eq!(chunks[2][1].global_coord.x, 60);

    let few = vec![Group::new(Coord { x: 0, y: 0 }, Block::new(3, 3))];
    let chunks = Field::partition(few, 4);
    let sizes: Vec<usize> = chunks.iter().map(|c| c.len()).collect();
    assert_eq!(sizes, vec![1, 0, 0, 0]);
}

#[test]
fn field_corners() {
    let field = Field::new(vec![
        Group::new(Coord { x: -4, y: 2 }, Block::new(3, 5)),
        Group::new(Coord { x: 6, y: -3 }, Block::new(4, 3)),
    ]);
    assert_eq!(field.bottom_left(), Some(Coord { x: -4, y: -3 }));
    assert_eq!(field.top_right(), Some(Coord { x: 9, y: 6 }));
    let empty = Field::new(Vec::new());
    assert_eq!(empty.bottom_left(), None);
    assert_eq!(empty.top_right(), None);
}

#[test]
fn field_room() {
    assert!(lidka_field().has_room());
    assert!(Field::new(Vec::new()).has_room());
    let far = Field::new(vec![
        Group::new(Coord { x: i64::MIN + 10, y: 0 }, Block::new(3, 3)),
        Group::new(Coord { x: 0, y: 0 }, Block::new(3, 3)),
    ]);
    assert!(!far.has_room());
    let bad = Field::new(vec![Group::new(
        Coord { x: 0, y: 0 },
        Block { x_size: 3, y_size: 3, data: vec![0; 8] },
    )]);
    assert!(!bad.has_room());
}

#[test]
fn full_tree_spans_plane() {
    let env = Field::full_tree();
    assert_eq!(env.lower, Coord { x: i64::MIN, y: i64::MIN });
    assert_eq!(env.upper, Coord { x: i64::MAX, y: i64::MAX });
}

#[test]
fn empty_field_steps_to_empty() {
    let mut field = Field::new(Vec::new());
    field.step();
    assert!(field.groups.is_empty());
    let mut dying = field_of(3, 3, &[(1, 1)]);
    dying.step();
    assert!(dying.groups.is_empty());
}

#[test]
fn seed_patterns() {
    let l = lidka();
    assert_eq!((l.x_size, l.y_size), (11, 8));
    assert_eq!(l.data.iter().filter(|&&c| c == 1).count(), 13);
    assert_eq!(l.cell_at(9, 5), 1);
    assert_eq!(l.cell_at(8, 6), 0);
    let r = r_pentomino();
    assert_eq!((r.x_size, r.y_size), (5, 5));
    assert_eq!(r.data.iter().filter(|&&c| c == 1).count(), 5);
    assert_eq!(r.cell_at(3, 3), 1);
}
