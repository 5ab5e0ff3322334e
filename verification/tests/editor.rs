//! The scene editor: blocks, drags and the obstacle set they make.

use hightower::editor::{Block, Board, Drag, Hover, SIZE};
use hightower::{Point, route};

fn p(x: i64, y: i64) -> Point {
    Point::new(x, y)
}

#[test]
fn blocks_are_normalized_boxes() {
    let b = Block::new(p(30, 5), p(10, 20));
    assert_eq!((b.min, b.max), (p(10, 5), p(30, 20)));
    assert_eq!(b.corners(), [p(10, 5), p(30, 5), p(30, 20), p(10, 20)]);
    assert_eq!(b.opposite(p(30, 5)), p(10, 20));
    assert_eq!(b.opposite(p(10, 20)), p(30, 5));
    assert!(b.contains(p(10, 20)) && !b.contains(p(31, 10)));
    assert!(!b.is_degenerate());
    assert!(Block::new(p(3, 3), p(3, 9)).is_degenerate());
    let s = b.shifted(-10, 5);
    assert_eq!((s.min, s.max), (p(0, 10), p(20, 25)));
}

#[test]
fn the_article_scene_routes() {
    let board = Board::article_scene();
    assert_eq!(board.blocks.len(), 8);
    assert_eq!((board.a, board.b), (p(38, 46), p(63, 20)));
    let o = board.obstacles();
    assert_eq!(o.rects().len(), 8);
    assert_eq!(o.bounds().max, p(SIZE, SIZE));
    assert!(route(&o, board.a, board.b).is_some());
}

#[test]
fn dragging_moves_resizes_and_creates() {
    let mut board = Board::article_scene();
    board.begin_drag(Hover::EndpointA, p(38, 46));
    board.update_drag(p(1, 1));
    board.end_drag();
    assert_eq!(board.a, p(1, 1));
    assert_eq!(board.drag, None);

    // move block 0 (5,2)-(34,19), grabbed 5 units right of its corner, far to the right: it stays on the board
    board.begin_drag(Hover::Block(0), p(10, 2));
    assert_eq!(board.drag, Some(Drag::Move { index: 0, grab: p(5, 0) }));
    board.update_drag(p(100, 50));
    assert_eq!((board.blocks[0].min, board.blocks[0].max), (p(71, 50), p(100, 67)));
    board.end_drag();

    // resize block 1 (13,12)-(42,23) from the corner nearest to (40, 22): its lower-left stays
    board.begin_drag(Hover::Corner(1), p(40, 22));
    assert_eq!(board.drag, Some(Drag::Resize { index: 1, anchor: p(13, 12) }));
    board.update_drag(p(20, 30));
    assert_eq!((board.blocks[1].min, board.blocks[1].max), (p(13, 12), p(20, 30)));
    // shrunk to a line it disappears
    board.update_drag(p(13, 40));
    board.end_drag();
    assert_eq!(board.blocks.len(), 7);

    // a rubber band with an area becomes a block, a flat one does not
    board.begin_drag(Hover::Empty, p(90, 90));
    board.update_drag(p(80, 95));
    board.end_drag();
    assert_eq!(board.blocks.len(), 8);
    assert_eq!((board.blocks[7].min, board.blocks[7].max), (p(80, 90), p(90, 95)));
    board.begin_drag(Hover::Empty, p(50, 99));
    board.update_drag(p(60, 99));
    board.end_drag();
    assert_eq!(board.blocks.len(), 8);
}

#[test]
fn deleting_and_clearing() {
    let mut board = Board::article_scene();
    board.delete_hovered(Hover::Block(2));
    assert_eq!(board.blocks.len(), 7);
    board.delete_hovered(Hover::Empty);
    assert_eq!(board.blocks.len(), 7);
    board.begin_drag(Hover::Corner(0), p(5, 2));
    board.delete_hovered(Hover::Corner(0));
    assert_eq!(board.blocks.len(), 7);
    board.clear_blocks();
    assert!(board.blocks.is_empty());
    // the resize in progress is left alone, and now names a block that is gone
    assert_eq!(board.drag, Some(Drag::Resize { index: 0, anchor: p(34, 19) }));
    assert!(!board.drag_names_a_block());
}

#[test]
fn deleting_during_a_drag_does_nothing() {
    let mut board = Board::article_scene();
    board.begin_drag(Hover::Empty, p(90, 90));
    board.delete_hovered(Hover::Block(42));
    board.delete_hovered(Hover::Corner(3));
    assert_eq!(board.blocks.len(), 8);
}
