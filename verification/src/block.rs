//! A single grid cell and the translation of its state into drawing
//! primitives for an external rendering surface.

use vstd::prelude::*;
use crate::constants::DIRECTION;

verus! {

/// One cell of the grid: its position, whether the generator has reached it,
/// and which of its four walls still stand (up, right, down, left).
#[derive(Clone, Copy, Debug)]
pub struct Block {
    pub x: usize,
    pub y: usize,
    pub visited: bool,
    pub walls: [bool; 4],
}

impl Block {
    /// The wall flag of this cell toward direction `d`.
    pub open spec fn wall(self, d: DIRECTION) -> bool {
        self.walls[d.spec_wall_index()]
    }

    pub fn new(x: usize, y: usize) -> (b: Block)
        ensures
            b.x == x,
            b.y == y,
            !b.visited,
            forall|d: DIRECTION| b.wall(d),
    {
        let b = Block { x, y, visited: false, walls: [true, true, true, true] };
        proof {
            assert(forall|d: DIRECTION| #[trigger] d.spec_wall_index() == 0
                || d.spec_wall_index() == 1 || d.spec_wall_index() == 2
                || d.spec_wall_index() == 3);
        }
        b
    }

    /// Reads the wall flag toward `d`.
    pub fn has_wall(&self, d: DIRECTION) -> (r: bool)
        ensures
            r == self.wall(d),
    {
        self.walls[d.wall_index()]
    }
}

/// An axis-aligned rectangle in pixel space, for a fill call.
#[derive(Clone, Copy, Debug)]
pub struct Rect {
    pub x: usize,
    pub y: usize,
    pub w: usize,
    pub h: usize,
}

/// A line segment in pixel space, for a stroke call.
#[derive(Clone, Copy, Debug)]
pub struct Segment {
    pub x1: usize,
    pub y1: usize,
    pub x2: usize,
    pub y2: usize,
}

/// The segments that draw the standing walls of `b`, in up, right, down,
/// left order, for cells `size` pixels wide with the grid offset by `margin`.
pub open spec fn spec_wall_segments(b: Block, size: usize, margin: usize) -> Seq<Segment> {
    let l = (b.x * size + margin) as usize;
    let t = (b.y * size + margin) as usize;
    let r = (b.x * size + margin + size) as usize;
    let d = (b.y * size + margin + size) as usize;
    (if b.wall(DIRECTION::UP) { seq![(Segment { x1: l, y1: t, x2: r, y2: t })] } else { seq![] })
        + (if b.wall(DIRECTION::RIGHT) { seq![(Segment { x1: r, y1: t, x2: r, y2: d })] } else { seq![] })
        + (if b.wall(DIRECTION::DOWN) { seq![(Segment { x1: l, y1: d, x2: r, y2: d })] } else { seq![] })
        + (if b.wall(DIRECTION::LEFT) { seq![(Segment { x1: l, y1: t, x2: l, y2: d })] } else { seq![] })
}

impl Block {
    /// The drawing calls for this cell: a fill rectangle when the cell has
    /// been reached by the generator, and one line segment per standing wall.
    pub fn render_ops(&self, size: usize, margin: usize) -> (ops: (Option<Rect>, Vec<Segment>))
        requires
            self.x * size + size + margin <= usize::MAX,
            self.y * size + size + margin <= usize::MAX,
        ensures
            ops.0 is Some <==> self.visited,
            self.visited ==> ops.0 == Some(
                Rect {
                    x: (self.x * size + margin) as usize,
                    y: (self.y * size + margin) as usize,
                    w: size,
                    h: size,
                },
            ),
            ops.1@ == spec_wall_segments(*self, size, margin),
    {
        let l = self.x * size + margin;
        let t = self.y * size + margin;
        let r = l + size;
        let d = t + size;
        let fill = if self.visited {
            Some(Rect { x: l, y: t, w: size, h: size })
        } else {
            None
        };
        let mut segs: Vec<Segment> = Vec::new();
        if self.has_wall(DIRECTION::UP) {
            segs.push(Segment { x1: l, y1: t, x2: r, y2: t });
        }
        if self.has_wall(DIRECTION::RIGHT) {
            segs.push(Segment { x1: r, y1: t, x2: r, y2: d });
        }
        if self.has_wall(DIRECTION::DOWN) {
            segs.push(Segment { x1: l, y1: d, x2: r, y2: d });
        }
        if self.has_wall(DIRECTION::LEFT) {
            segs.push(Segment { x1: l, y1: t, x2: l, y2: d });
        }
        proof {
            assert(segs@ =~= spec_wall_segments(*self, size, margin));
        }
        (fill, segs)
    }
}

} // verus!
