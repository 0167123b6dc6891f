use maze::block::Block;
use maze::constants::DIRECTION;

#[test]
fn new_block_is_unvisited_with_all_walls() {
    let b = Block::new(3, 7);
    assert_eq!(b.x, 3);
    assert_eq!(b.y, 7);
    assert!(!b.visited);
    assert_eq!(b.walls, [true; 4]);
    assert!(b.has_wall(DIRECTION::UP));
    assert!(b.has_wall(DIRECTION::RIGHT));
    assert!(b.has_wall(DIRECTION::DOWN));
    assert!(b.has_wall(DIRECTION::LEFT));
}

#[test]
fn render_ops_of_an_untouched_cell() {
    let b = Block::new(1, 2);
    let (fill, segs) = b.render_ops(10, 10);
    assert!(fill.is_none());
    // top-left corner at (1*10+10, 2*10+10)
    assert_eq!(segs.len(), 4);
    let up = segs[0];
    assert_eq!((up.x1, up.y1, up.x2, up.y2), (20, 30, 30, 30));
    let right = segs[1];
    assert_eq!((right.x1, right.y1, right.x2, right.y2), (30, 30, 30, 40));
    let down = segs[2];
    assert_eq!((down.x1, down.y1, down.x2, down.y2), (20, 40, 30, 40));
    let left = segs[3];
    assert_eq!((left.x1, left.y1, left.x2, left.y2), (20, 30, 20, 40));
}

#[test]
fn render_ops_of_a_visited_cell_fills_its_square() {
    let mut b = Block::new(0, 0);
    b.visited = true;
    let (fill, segs) = b.render_ops(10, 10);
    let rect = fill.expect("a visited cell is painted");
    assert_eq!((rect.x, rect.y, rect.w, rect.h), (10, 10, 10, 10));
    assert_eq!(segs.len(), 4);
}

#[test]
fn render_ops_skips_carved_walls() {
    let mut b = Block::new(0, 0);
    b.walls[1] = false;
    b.walls[2] = false;
    let (_, segs) = b.render_ops(10, 10);
    assert_eq!(segs.len(), 2);
    // only the up and left edges remain
    let up = segs[0];
    assert_eq!((up.x1, up.y1, up.x2, up.y2), (10, 10, 20, 10));
    let left = segs[1];
    assert_eq!((left.x1, left.y1, left.x2, left.y2), (10, 10, 10, 20));
}
