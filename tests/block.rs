use rust_cell::groups::block::Block;
use rust_cell::groups::{Coord, UCoord};

#[test]
fn block_indexing() {
    let block = Block {
        x_size: 2,
        y_size: 2,
        data: vec![0, 1, 1, 0],
    };
    assert_eq!(block.cell_at(0, 0), 0);
    assert_eq!(block.cell_at(0, 1), 1);
    assert_eq!(block.cell_at(1, 0), 1);
    assert_eq!(block.cell_at(1, 1), 0);
}

#[test]
fn block_mutability() {
    let mut block = Block {
        x_size: 2,
        y_size: 2,
        data: vec![0, 1, 1, 0],
    };
    block.set(0, 1, 1);
    assert_eq!(block.cell_at(0, 1), 1);
}

#[test]
fn block_count_neighbours() {
    let block = Block {
        x_size: 3,
        y_size: 3,
        data: vec![1, 0, 1, 0, 0, 1, 1, 1, 0],
    };
    //1 1 0
    //0 0 1
    //1 0 1

    assert_eq!(block.neighbour_count(UCoord { x: 0, y: 0 }), 0, "Coord 0;0");
    assert_eq!(block.neighbour_count(UCoord { x: 1, y: 0 }), 3, "Coord 1;0");
    assert_eq!(block.neighbour_count(UCoord { x: 2, y: 0 }), 1, "Coord 2;0");
    assert_eq!(block.neighbour_count(UCoord { x: 0, y: 1 }), 3, "Coord 0;1");
    assert_eq!(block.neighbour_count(UCoord { x: 1, y: 1 }), 5, "Coord 2;1");
    assert_eq!(block.neighbour_count(UCoord { x: 2, y: 1 }), 2, "Coord 3;1");
    assert_eq!(block.neighbour_count(UCoord { x: 0, y: 2 }), 1, "Coord 0;2");
    assert_eq!(block.neighbour_count(UCoord { x: 1, y: 2 }), 2, "Coord 1;2");
    assert_eq!(block.neighbour_count(UCoord { x: 2, y: 2 }), 2, "Coord 2;2");
}

#[test]
fn block_step() {
    let mut block = Block {
        x_size: 3,
        y_size: 3,
        data: vec![1, 0, 1, 0, 0, 1, 1, 1, 0],
    };
    //1 1 0
    //0 0 1
    //1 0 1
    assert_eq!(block.neighbour_count(UCoord { x: 1, y: 0 }), 3);
    block.step();
    let next_block = Block {
        x_size: 3,
        y_size: 3,
        data: vec![0, 1, 0, 1, 0, 1, 0, 1, 0],
    };
    assert_eq!(block, next_block);
}

#[test]
fn block_line_count() {
    let block = Block {
        x_size: 3,
        y_size: 3,
        data: vec![1, 0, 1, 1, 0, 1, 1, 1, 0],
    };
    //1 1 0
    //1 0 1
    //1 0 1
    assert_eq!(block.row_alive(0), 2);
    assert_eq!(block.row_alive(1), 2);
    assert_eq!(block.row_alive(2), 2);

    assert_eq!(block.column_alive(0), 3);
    assert_eq!(block.column_alive(1), 1);
    assert_eq!(block.column_alive(2), 2);
}

#[test]
fn block_need_expand() {
    let block = Block {
        x_size: 3,
        y_size: 3,
        data: vec![1, 0, 1, 1, 0, 1, 1, 1, 0],
    };
    //1 1 0
    //1 0 1
    //1 0 1
    assert_eq!(block.need_expand(), true);

    let block_no_expand = Block {
        x_size: 3,
        y_size: 3,
        data: vec![0, 0, 0, 0, 1, 0, 0, 0, 0],
    };
    assert_eq!(block_no_expand.need_expand(), false)
}

#[test]
fn block_new() {
    let mut block = Block::new(3, 3);
    assert_eq!(
        block,
        Block {
            x_size: 3,
            y_size: 3,
            data: vec![0; 9]
        }
    );
    block.set(1, 1, 1);
    assert_eq!(
        block,
        Block {
            x_size: 3,
            y_size: 3,
            data: vec![0, 0, 0, 0, 1, 0, 0, 0, 0]
        }
    );
}

#[test]
fn block_insert() {
    let mut block = Block::new(5, 5);
    let insert = Block {
        x_size: 3,
        y_size: 4,
        data: vec![0, 1, 0, 1, 1, 0, 0, 0, 0, 0, 1, 1],
    };
    //0 1 1
    //0 0 0
    //1 1 0
    //0 1 0
    let place = UCoord { x: 1, y: 0 };
    block.insert(place, &insert);

    let mut result = Block::new(5, 5);
    result.set(2, 0, 1);
    result.set(1, 1, 1);
    result.set(2, 1, 1);
    result.set(2, 3, 1);
    result.set(3, 3, 1);
    assert_eq!(block, result);

    block.insert(UCoord { x: 5, y: 2 }, &insert);
    result = Block::new(8, 6);
    result.set(2, 0, 1);
    result.set(1, 1, 1);
    result.set(2, 1, 1);
    result.set(2, 3, 1);
    result.set(3, 3, 1);

    result.set(5, 3, 1);
    result.set(6, 2, 1);
    result.set(6, 3, 1);
    result.set(6, 5, 1);
    result.set(7, 5, 1);

    assert_eq!(block, result);
}

#[test]
fn block_cut_empty_empty() {
    let mut block = Block::new(5, 5);
    let result = block.cut_empty();
    assert_eq!(result, Option::None);
    assert_eq!(block, block);
}

#[test]
fn block_cut_empty() {
    let mut block = Block::new(8, 4);
    block.set(3, 0, 1);
    block.set(2, 1, 1);
    block.set(4, 1, 1);
    block.set(4, 3, 1);
    //0 0 0 0 1 0 0 0
    //0 0 0 0 0 0 0 0
    //0 0 1 0 1 0 0 0
    //0 0 0 1 0 0 0 0

    let mut result_block = Block::new(5, 4);
    result_block.set(2, 0, 1);
    result_block.set(1, 1, 1);
    result_block.set(3, 1, 1);
    result_block.set(3, 3, 1);

    assert_eq!(block.cut_empty(), Option::Some(UCoord { x: 1, y: 0 }));
    assert_eq!(block, result_block);
}

#[test]
fn block_borders() {
    let mut block = Block::new(3, 4);
    //0 0 0
    //0 0 0
    //1 0 0
    //1 1 0
    block.set(0, 0, 1);
    block.set(1, 0, 1);
    block.set(0, 1, 1);

    let result_offset = Coord { x: -1, y: -1 };
    let mut result_block = Block::new(4, 5);
    result_block.set(1, 1, 1);
    result_block.set(2, 1, 1);
    result_block.set(1, 2, 1);

    assert_eq!(block.add_border(), result_offset);
    assert_eq!(block, result_block);
}

#[test]
fn block_resize() {
    let mut block = Block::new(8, 4);
    block.set(3, 0, 1);
    block.set(2, 1, 1);
    block.set(4, 1, 1);
    block.set(4, 3, 1);

    let mut result_block = Block::new(5, 6);
    result_block.set(2, 1, 1);
    result_block.set(1, 2, 1);
    result_block.set(3, 2, 1);
    result_block.set(3, 4, 1);

    let coord = Coord { x: 1, y: -1 };
    assert_eq!(block.resize(), Option::Some(coord));
    assert_eq!(block, result_block);
}

#[test]
fn block_cut_top() {
    let mut block = Block::new(3, 5);
    //1 1 1
    //0 1 0
    //1 0 0
    //1 0 0
    //0 0 0
    block.set(0, 1, 1);
    block.set(0, 2, 1);
    block.set(0, 4, 1);
    block.set(1, 3, 1);
    block.set(1, 4, 1);
    block.set(2, 4, 1);

    let mut piece_result = Block::new(3, 2);
    piece_result.set(1, 0, 1);
    piece_result.set(0, 1, 1);
    piece_result.set(1, 1, 1);
    piece_result.set(2, 1, 1);

    let mut block_result = Block::new(3, 3);
    block_result.set(0, 1, 1);
    block_result.set(0, 2, 1);

    assert_eq!(block.cut_block_top(3), piece_result);
    assert_eq!(block, block_result);
}

#[test]
fn block_split() {
    let mut block = Block::new(6, 5);
    //0 0 0 0 1 1
    //1 0 0 0 1 0
    //1 0 0 0 0 0
    //1 0 0 0 0 0
    //0 0 0 0 1 1
    block.set(4, 0, 1);
    block.set(5, 0, 1);
    block.set(0, 1, 1);
    block.set(0, 2, 1);
    block.set(0, 3, 1);
    block.set(4, 3, 1);
    block.set(4, 4, 1);
    block.set(5, 4, 1);

    let mut b1 = Block::new(3, 5);
    b1.set(1, 1, 1);
    b1.set(1, 2, 1);
    b1.set(1, 3, 1);
    let c1 = Coord { x: -1, y: 0 };

    let mut b2 = Block::new(4, 3);
    b2.set(1, 1, 1);
    b2.set(2, 1, 1);
    let c2 = Coord { x: 3, y: -1 };

    let mut b3 = Block::new(4, 4);
    b3.set(1, 1, 1);
    b3.set(1, 2, 1);
    b3.set(2, 2, 1);
    let c3 = Coord { x: 3, y: 2 };

    let pieces = block.split().unwrap();
    assert_eq!(pieces[0], (b3, c3));
    assert_eq!(pieces[1], (b2, c2));
    assert_eq!(pieces[2], (b1, c1));

    let mut block = Block::new(2, 5);
    //1 1
    //1 0
    //0 0
    //0 0
    //1 1
    block.set(0, 0, 1);
    block.set(0, 3, 1);
    block.set(0, 4, 1);
    block.set(1, 0, 1);
    block.set(1, 4, 1);

    let mut b2 = Block::new(4, 3);
    b2.set(1, 1, 1);
    b2.set(2, 1, 1);
    let c2 = Coord { x: -1, y: -1 };

    let mut b3 = Block::new(4, 4);
    b3.set(1, 1, 1);
    b3.set(1, 2, 1);
    b3.set(2, 2, 1);
    let c3 = Coord { x: -1, y: 2 };
    let pieces = block.split().unwrap();
    assert_eq!(pieces[0], (b3, c3));
    assert_eq!(pieces[1], (b2, c2));
    assert_eq!(pieces.len(), 2);

    let mut block = Block::new(1, 1);
    let mut b1 = Block::new(5, 6);
    b1.set(1, 2, 1);
    b1.set(1, 3, 1);
    b1.set(2, 1, 1);
    b1.set(2, 4, 1);
    b1.set(3, 2, 1);
    b1.set(3, 3, 1);

    let mut b2 = Block::new(5, 5);
    b2.set(1, 2, 1);
    b2.set(2, 1, 1);
    b2.set(2, 3, 1);
    b2.set(3, 1, 1);
    b2.set(3, 2, 1);

    block.insert(UCoord { x: 0, y: 16 }, &b1);
    block.insert(UCoord { x: 3, y: 0 }, &b2);
    let pieces = block.split().unwrap();
    assert_eq!(pieces[1], (b2, Coord { x: 3, y: 0 }));
    assert_eq!(pieces[0], (b1, Coord { x: 0, y: 16 }));
    assert_eq!(pieces.len(), 2);
}

#[test]
fn block_new_pads_to_three() {
    let block = Block::new(1, 2);
    assert_eq!(block.x_size, 3);
    assert_eq!(block.y_size, 3);
    assert_eq!(block.data, vec![0; 9]);
}

#[test]
fn block_step_keeps_dimensions() {
    let mut block = Block::new(7, 4);
    block.set(2, 1, 1);
    block.set(3, 1, 1);
    block.set(4, 1, 1);
    block.step();
    assert_eq!((block.x_size, block.y_size), (7, 4));
    assert_eq!(block.cell_at(3, 0), 1);
    assert_eq!(block.cell_at(3, 1), 1);
    assert_eq!(block.cell_at(3, 2), 1);
    assert_eq!(block.cell_at(2, 1), 0);
}

#[test]
fn block_resize_twice_is_noop() {
    let mut block = Block::new(8, 4);
    block.set(3, 0, 1);
    block.set(2, 1, 1);
    block.set(4, 3, 1);
    assert!(block.resize().is_some());
    let once = Block { x_size: block.x_size, y_size: block.y_size, data: block.data.clone() };
    assert_eq!(block.resize(), Some(Coord { x: 0, y: 0 }));
    assert_eq!(block, once);
}

#[test]
fn block_resize_single_cell() {
    let mut block = Block { x_size: 1, y_size: 1, data: vec![1] };
    assert_eq!(block.resize(), Some(Coord { x: -1, y: -1 }));
    assert_eq!(block, Block { x_size: 3, y_size: 3, data: vec![0, 0, 0, 0, 1, 0, 0, 0, 0] });
}

#[test]
fn block_resize_dead() {
    let mut block = Block::new(4, 4);
    assert_eq!(block.resize(), None);
    assert_eq!(block, Block::new(4, 4));
}

#[test]
fn block_cut_right() {
    let mut block = Block::new(6, 3);
    block.set(0, 1, 1);
    block.set(4, 1, 1);
    let piece = block.cut_block_right(3);
    assert_eq!(piece.x_size, 3);
    assert_eq!(piece.cell_at(1, 1), 1);
    assert_eq!(block.x_size, 3);
    assert_eq!(block.cell_at(0, 1), 1);
}

#[test]
fn block_get_bounds() {
    let block = Block { x_size: 2, y_size: 2, data: vec![0, 1, 1, 0] };
    assert_eq!(block.get(UCoord { x: 1, y: 0 }), Some(1));
    assert_eq!(block.get(UCoord { x: 1, y: 1 }), Some(0));
    assert_eq!(block.get(UCoord { x: 0, y: 2 }), None);
}

#[test]
fn block_validity() {
    assert!(Block::new(3, 3).is_valid());
    assert!(!Block { x_size: 2, y_size: 2, data: vec![0, 2, 0, 0] }.is_valid());
    assert!(!Block { x_size: 2, y_size: 2, data: vec![0, 0, 0] }.is_valid());
}
