//! The scene editor behind the interactive demo: a square board of `SIZE` x
//! `SIZE` units with axis-parallel boxes and the two endpoints A and B, edited
//! by dragging. The window decides what the pointer hovers and where it is on
//! the board; this module decides what a drag does to the scene.

use vstd::prelude::*;
use vstd::multiset::Multiset;

use crate::geometry::{Bounds, Coord, Point, dist2_spec, max_int, min_int};
use crate::obstacles::{ObstacleSet, Span, inserted_sorted, lemma_inserted_multiset};

verus! {

/// Side length of the board in routing units (the article's running scene).
pub const SIZE: Coord = 100;

/// The point lies on the board.
pub open spec fn on_board(p: Point) -> bool {
    0 <= p.x <= SIZE && 0 <= p.y <= SIZE
}

/// The horizontal sides of the blocks, bottom and top of each, as `(y, x_from, x_to)` spans.
pub open spec fn horizontal_sides(blocks: Seq<Block>) -> Multiset<Span>
    decreases blocks.len(),
{
    if blocks.len() == 0 {
        Multiset::empty()
    } else {
        let b = blocks.last();
        horizontal_sides(blocks.drop_last()).insert((b.min.y, b.min.x, b.max.x)).insert((b.max.y, b.min.x, b.max.x))
    }
}

/// The vertical sides of the blocks, left and right of each, as `(x, y_from, y_to)` spans.
pub open spec fn vertical_sides(blocks: Seq<Block>) -> Multiset<Span>
    decreases blocks.len(),
{
    if blocks.len() == 0 {
        Multiset::empty()
    } else {
        let b = blocks.last();
        vertical_sides(blocks.drop_last()).insert((b.min.x, b.min.y, b.max.y)).insert((b.max.x, b.min.y, b.max.y))
    }
}

/// The sides of the blocks are two horizontal and two vertical spans per
/// block, and each block's four sides are among them: its bottom and top
/// rows and its left and right columns, each over the block's whole extent.
pub proof fn lemma_block_sides(blocks: Seq<Block>)
    ensures
        horizontal_sides(blocks).len() == 2 * blocks.len(),
        vertical_sides(blocks).len() == 2 * blocks.len(),
        forall|i: int| 0 <= i < blocks.len() ==> {
            let b = #[trigger] blocks[i];
            &&& horizontal_sides(blocks).contains((b.min.y, b.min.x, b.max.x))
            &&& horizontal_sides(blocks).contains((b.max.y, b.min.x, b.max.x))
            &&& vertical_sides(blocks).contains((b.min.x, b.min.y, b.max.y))
            &&& vertical_sides(blocks).contains((b.max.x, b.min.y, b.max.y))
        },
    decreases blocks.len(),
{
    if blocks.len() > 0 {
        let rest = blocks.drop_last();
        lemma_block_sides(rest);
        assert forall|i: int| 0 <= i < blocks.len() implies {
            let b = #[trigger] blocks[i];
            &&& horizontal_sides(blocks).contains((b.min.y, b.min.x, b.max.x))
            &&& horizontal_sides(blocks).contains((b.max.y, b.min.x, b.max.x))
            &&& vertical_sides(blocks).contains((b.min.x, b.min.y, b.max.y))
            &&& vertical_sides(blocks).contains((b.max.x, b.min.y, b.max.y))
        } by {
            if i < blocks.len() - 1 {
                assert(blocks[i] == rest[i]);
            }
        }
    }
}

/// An axis-parallel box with normalized corners.
#[derive(Clone, Copy, PartialEq, Eq, Structural, Debug)]
pub struct Block {
    /// Lower-left corner.
    pub min: Point,
    /// Upper-right corner.
    pub max: Point,
}

impl Block {
    /// The corners are normalized and on the board.
    pub open spec fn wf(self) -> bool {
        &&& self.min.x <= self.max.x
        &&& self.min.y <= self.max.y
        &&& on_board(self.min)
        &&& on_board(self.max)
    }

    /// The box spanned by two corners.
    pub fn new(a: Point, b: Point) -> (r: Block)
        ensures
            r == block_spec(a, b),
            on_board(a) && on_board(b) ==> r.wf(),
    {
        let min = Point::new(if a.x <= b.x { a.x } else { b.x }, if a.y <= b.y { a.y } else { b.y });
        let max = Point::new(if a.x >= b.x { a.x } else { b.x }, if a.y >= b.y { a.y } else { b.y });
        Block { min, max }
    }

    /// The four corners, counter-clockwise from the lower left.
    pub fn corners(&self) -> (r: [Point; 4])
        ensures
            r@ == self.corners_spec(),
    {
        let r = [self.min, Point::new(self.max.x, self.min.y), self.max, Point::new(self.min.x, self.max.y)];
        assert(r@ =~= seq![r[0], r[1], r[2], r[3]]);
        r
    }

    /// The corner diagonally opposite to `corner`.
    pub fn opposite(&self, corner: Point) -> (r: Point)
        ensures
            r == self.opposite_spec(corner),
    {
        Point::new(
            if corner.x == self.min.x {
                self.max.x
            } else {
                self.min.x
            },
            if corner.y == self.min.y {
                self.max.y
            } else {
                self.min.y
            },
        )
    }

    /// Is the point inside the box or on its border?
    pub fn contains(&self, p: Point) -> (r: bool)
        ensures
            r == (self.min.x <= p.x <= self.max.x && self.min.y <= p.y <= self.max.y),
    {
        self.min.x <= p.x && p.x <= self.max.x && self.min.y <= p.y && p.y <= self.max.y
    }

    /// Has the box no area?
    pub fn is_degenerate(&self) -> (r: bool)
        ensures
            r == (self.min.x == self.max.x || self.min.y == self.max.y),
    {
        self.min.x == self.max.x || self.min.y == self.max.y
    }

    /// The box moved by `(dx, dy)`.
    pub fn shifted(&self, dx: Coord, dy: Coord) -> (r: Block)
        requires
            i64::MIN <= self.min.x + dx <= i64::MAX,
            i64::MIN <= self.min.y + dy <= i64::MAX,
            i64::MIN <= self.max.x + dx <= i64::MAX,
            i64::MIN <= self.max.y + dy <= i64::MAX,
        ensures
            r.min == (Point { x: (self.min.x + dx) as i64, y: (self.min.y + dy) as i64 }),
            r.max == (Point { x: (self.max.x + dx) as i64, y: (self.max.y + dy) as i64 }),
    {
        Block {
            min: Point::new(self.min.x + dx, self.min.y + dy),
            max: Point::new(self.max.x + dx, self.max.y + dy),
        }
    }
}

/// What the pointer is currently dragging.
#[derive(Clone, Copy, PartialEq, Eq, Structural, Debug)]
pub enum Drag {
    /// The start point.
    EndpointA,
    /// The target point.
    EndpointB,
    /// Moving a whole block; `grab` is the pointer offset from its `min`.
    Move {
        /// The block.
        index: usize,
        /// Pointer offset from the block's lower-left corner.
        grab: Point,
    },
    /// Dragging one corner, the opposite corner stays put.
    Resize {
        /// The block.
        index: usize,
        /// The corner that stays.
        anchor: Point,
    },
    /// Rubber band for a new block.
    Create {
        /// Where the drag began.
        start: Point,
        /// Where the pointer is now.
        current: Point,
    },
}

/// What the pointer is hovering, decides the cursor, the highlight and what a drag grabs.
#[derive(Clone, Copy, PartialEq, Eq, Structural, Debug)]
pub enum Hover {
    /// The start point.
    EndpointA,
    /// The target point.
    EndpointB,
    /// A corner of the block with this index.
    Corner(usize),
    /// The inside of the block with this index.
    Block(usize),
    /// Empty ground.
    Empty,
}

/// The edited scene: the blocks, the endpoints and the drag in progress.
#[derive(Clone, Debug)]
pub struct Board {
    /// The obstacle boxes; later ones are drawn on top.
    pub blocks: Vec<Block>,
    /// The start point.
    pub a: Point,
    /// The target point.
    pub b: Point,
    /// The drag in progress, if any.
    pub drag: Option<Drag>,
}

/// The index of the corner of `corners` nearest to `p` (the first of equally near ones).
pub open spec fn nearest_corner(corners: Seq<Point>, p: Point, k: int) -> bool {
    &&& 0 <= k < corners.len()
    &&& forall|j: int| 0 <= j < corners.len() ==> dist2_spec(corners[k], p) <= dist2_spec(#[trigger] corners[j], p)
    &&& forall|j: int| 0 <= j < k ==> dist2_spec(corners[k], p) < dist2_spec(#[trigger] corners[j], p)
}

impl Board {
    /// Every block is normalized and on the board, the endpoints are on the
    /// board, and so are the points a drag holds.
    pub open spec fn wf(&self) -> bool {
        &&& forall|i: int| 0 <= i < self.blocks@.len() ==> (#[trigger] self.blocks@[i]).wf()
        &&& on_board(self.a)
        &&& on_board(self.b)
        &&& match self.drag {
            Some(Drag::Move { grab, .. }) => -SIZE <= grab.x <= SIZE && -SIZE <= grab.y <= SIZE,
            Some(Drag::Resize { anchor, .. }) => on_board(anchor),
            Some(Drag::Create { start, current }) => on_board(start) && on_board(current),
            _ => true,
        }
    }

    /// A drag of a block names an existing block. (Removing all blocks
    /// leaves the drag as it is, naming a block that is gone.)
    pub open spec fn drag_ok(&self) -> bool {
        match self.drag {
            Some(Drag::Move { index, .. }) => index < self.blocks@.len(),
            Some(Drag::Resize { index, .. }) => index < self.blocks@.len(),
            _ => true,
        }
    }

    /// Whether a drag of a block names an existing block.
    pub fn drag_names_a_block(&self) -> (r: bool)
        ensures
            r == self.drag_ok(),
    {
        match self.drag {
            Some(Drag::Move { index, .. }) => index < self.blocks.len(),
            Some(Drag::Resize { index, .. }) => index < self.blocks.len(),
            _ => true,
        }
    }

    /// The running example of the article: eight boxes on a 100 x 100 board.
    pub fn article_scene() -> (r: Board)
        ensures
            r.wf(),
            r.blocks@ == seq![
                Block { min: Point { x: 5, y: 2 }, max: Point { x: 34, y: 19 } },
                Block { min: Point { x: 13, y: 12 }, max: Point { x: 42, y: 23 } },
                Block { min: Point { x: 41, y: 33 }, max: Point { x: 55, y: 56 } },
                Block { min: Point { x: 30, y: 47 }, max: Point { x: 62, y: 67 } },
                Block { min: Point { x: 78, y: 53 }, max: Point { x: 87, y: 75 } },
                Block { min: Point { x: 72, y: 56 }, max: Point { x: 98, y: 76 } },
                Block { min: Point { x: 1, y: 76 }, max: Point { x: 31, y: 97 } },
                Block { min: Point { x: 59, y: 84 }, max: Point { x: 70, y: 96 } },
            ],
            r.a == (Point { x: 38, y: 46 }),
            r.b == (Point { x: 63, y: 20 }),
            r.drag is None,
    {
        let mut blocks: Vec<Block> = Vec::new();
        blocks.push(Block::new(Point::new(5, 2), Point::new(34, 19)));
        blocks.push(Block::new(Point::new(13, 12), Point::new(42, 23)));
        blocks.push(Block::new(Point::new(41, 33), Point::new(55, 56)));
        blocks.push(Block::new(Point::new(30, 47), Point::new(62, 67)));
        blocks.push(Block::new(Point::new(78, 53), Point::new(87, 75)));
        blocks.push(Block::new(Point::new(72, 56), Point::new(98, 76)));
        blocks.push(Block::new(Point::new(1, 76), Point::new(31, 97)));
        blocks.push(Block::new(Point::new(59, 84), Point::new(70, 96)));
        let r = Board { blocks, a: Point::new(38, 46), b: Point::new(63, 20), drag: None };
        assert forall|i: int| 0 <= i < r.blocks@.len() implies (#[trigger] r.blocks@[i]).wf() by {}
        r
    }

    /// The obstacle set of the board: the bounds `0..=SIZE` in both axes and
    /// every block as a rectangle, whose four sides are the only obstacles.
    pub fn obstacles(&self) -> (r: ObstacleSet)
        requires
            self.wf(),
        ensures
            r@.bounds == (Bounds { min: Point { x: 0, y: 0 }, max: Point { x: SIZE, y: SIZE } }),
            r@.rects == self.blocks@.map_values(|b: Block| (b.min, b.max)),
            r@.horizontal.to_multiset() == horizontal_sides(self.blocks@),
            r@.vertical.to_multiset() == vertical_sides(self.blocks@),
    {
        let mut o = ObstacleSet::new(Bounds::new(Point::new(0, 0), Point::new(SIZE, SIZE)));
        proof {
            broadcast use vstd::seq_lib::group_to_multiset_ensures;
            assert(self.blocks@.take(0) =~= Seq::<Block>::empty());
            assert(o@.horizontal.to_multiset() =~= Multiset::<Span>::empty());
            assert(o@.vertical.to_multiset() =~= Multiset::<Span>::empty());
        }
        let mut i: usize = 0;
        while i < self.blocks.len()
            invariant
                self.wf(),
                i <= self.blocks@.len(),
                o@.bounds == (Bounds { min: Point { x: 0, y: 0 }, max: Point { x: SIZE, y: SIZE } }),
                o@.rects == self.blocks@.take(i as int).map_values(|b: Block| (b.min, b.max)),
                o@.horizontal.to_multiset() == horizontal_sides(self.blocks@.take(i as int)),
                o@.vertical.to_multiset() == vertical_sides(self.blocks@.take(i as int)),
            decreases self.blocks@.len() - i,
        {
            let blk = self.blocks[i];
            assert(blk.wf());
            let ghost o0 = o@;
            o.add_rect(blk.min, blk.max);
            proof {
                let hm = choose|mid: Seq<Span>| inserted_sorted(o0.horizontal, mid, (blk.min.y, blk.min.x, blk.max.x))
                    && inserted_sorted(mid, o@.horizontal, (blk.max.y, blk.min.x, blk.max.x));
                lemma_inserted_multiset(o0.horizontal, hm, (blk.min.y, blk.min.x, blk.max.x));
                lemma_inserted_multiset(hm, o@.horizontal, (blk.max.y, blk.min.x, blk.max.x));
                let vm = choose|mid: Seq<Span>| inserted_sorted(o0.vertical, mid, (blk.min.x, blk.min.y, blk.max.y))
                    && inserted_sorted(mid, o@.vertical, (blk.max.x, blk.min.y, blk.max.y));
                lemma_inserted_multiset(o0.vertical, vm, (blk.min.x, blk.min.y, blk.max.y));
                lemma_inserted_multiset(vm, o@.vertical, (blk.max.x, blk.min.y, blk.max.y));
                assert(self.blocks@.take(i + 1).drop_last() =~= self.blocks@.take(i as int));
            }
            assert(self.blocks@.take(i + 1) =~= self.blocks@.take(i as int).push(blk));
            assert(o@.rects =~= self.blocks@.take(i + 1).map_values(|b: Block| (b.min, b.max)));
            i = i + 1;
        }
        assert(self.blocks@.take(i as int) =~= self.blocks@);
        o
    }

    /// Starts a drag of whatever `hover` names, with the pointer at `board`:
    /// an endpoint, the nearest corner of a block (its opposite corner stays),
    /// a whole block, or a rubber band from empty ground.
    pub fn begin_drag(&mut self, hover: Hover, board: Point)
        requires
            old(self).wf(),
            on_board(board),
            hover matches Hover::Corner(i) ==> i < old(self).blocks@.len(),
            hover matches Hover::Block(i) ==> i < old(self).blocks@.len(),
        ensures
            final(self).wf(),
            final(self).drag_ok(),
            final(self).blocks@ == old(self).blocks@,
            final(self).a == old(self).a,
            final(self).b == old(self).b,
            hover is EndpointA ==> final(self).drag == Some(Drag::EndpointA),
            hover is EndpointB ==> final(self).drag == Some(Drag::EndpointB),
            hover matches Hover::Block(index) ==> final(self).drag == Some(
                Drag::Move {
                    index,
                    grab: Point {
                        x: (board.x - old(self).blocks@[index as int].min.x) as i64,
                        y: (board.y - old(self).blocks@[index as int].min.y) as i64,
                    },
                },
            ),
            hover is Empty ==> final(self).drag == Some(Drag::Create { start: board, current: board }),
            hover matches Hover::Corner(index) ==> exists|k: int|
                #![trigger nearest_corner(old(self).blocks@[index as int].corners_spec(), board, k)]
                nearest_corner(old(self).blocks@[index as int].corners_spec(), board, k) && final(self).drag
                    == Some(Drag::Resize {
                    index,
                    anchor: old(self).blocks@[index as int].opposite_spec(
                        old(self).blocks@[index as int].corners_spec()[k],
                    ),
                }),
    {
        let ghost mut witness: int = 0;
        let d = match hover {
            Hover::EndpointA => Drag::EndpointA,
            Hover::EndpointB => Drag::EndpointB,
            Hover::Corner(index) => {
                let block = self.blocks[index];
                let corners = block.corners();
                let mut best: usize = 0;
                let mut k: usize = 1;
                while k < 4
                    invariant
                        corners@ == block.corners_spec(),
                        on_board(board),
                        block.wf(),
                        1 <= k <= 4,
                        best < k,
                        forall|j: int| 0 <= j < k ==> dist2_spec(corners@[best as int], board) <= dist2_spec(
                            #[trigger] corners@[j],
                            board,
                        ),
                        forall|j: int| 0 <= j < best ==> dist2_spec(corners@[best as int], board) < dist2_spec(
                            #[trigger] corners@[j],
                            board,
                        ),
                    decreases 4 - k,
                {
                    proof {
                        assert(dist2_spec(corners@[k as int], board) <= 2 * SIZE * SIZE) by (nonlinear_arith)
                            requires
                                on_board(corners@[k as int]),
                                on_board(board),
                        ;
                        assert(dist2_spec(corners@[best as int], board) <= 2 * SIZE * SIZE) by (nonlinear_arith)
                            requires
                                on_board(corners@[best as int]),
                                on_board(board),
                        ;
                    }
                    if corners[k].dist2(board) < corners[best].dist2(board) {
                        best = k;
                    }
                    k = k + 1;
                }
                proof {
                    witness = best as int;
                    assert(nearest_corner(block.corners_spec(), board, witness));
                }
                Drag::Resize { index, anchor: block.opposite(corners[best]) }
            },
            Hover::Block(index) => Drag::Move {
                index,
                grab: Point::new(board.x - self.blocks[index].min.x, board.y - self.blocks[index].min.y),
            },
            Hover::Empty => Drag::Create { start: board, current: board },
        };
        self.drag = Some(d);
        proof {
            assert forall|i: int| 0 <= i < self.blocks@.len() implies (#[trigger] self.blocks@[i]).wf() by {
                assert(old(self).blocks@[i].wf());
            }
            if let Hover::Corner(index) = hover {
                assert(nearest_corner(old(self).blocks@[index as int].corners_spec(), board, witness));
            }
        }
    }
}

impl Block {
    /// The four corners, counter-clockwise from the lower left.
    pub open spec fn corners_spec(self) -> Seq<Point> {
        seq![self.min, Point { x: self.max.x, y: self.min.y }, self.max, Point { x: self.min.x, y: self.max.y }]
    }

    /// The corner diagonally opposite to `corner`.
    pub open spec fn opposite_spec(self, corner: Point) -> Point {
        Point {
            x: if corner.x == self.min.x { self.max.x } else { self.min.x },
            y: if corner.y == self.min.y { self.max.y } else { self.min.y },
        }
    }
}

/// The box spanned by two corners.
pub open spec fn block_spec(a: Point, b: Point) -> Block {
    Block {
        min: Point { x: min_int(a.x as int, b.x as int) as i64, y: min_int(a.y as int, b.y as int) as i64 },
        max: Point { x: max_int(a.x as int, b.x as int) as i64, y: max_int(a.y as int, b.y as int) as i64 },
    }
}

/// Moving a block keeps its size and keeps it on the board. Where the
/// pointer at `board`, less the grab offset `grab`, leaves room for the block,
/// the block's lower-left corner lands exactly there, so the pointer keeps
/// its offset from that corner; otherwise the block stops at the board's
/// edge on that side.
pub proof fn lemma_move_follows_pointer(b: Block, board: Point, grab: Point)
    requires
        b.wf(),
        -SIZE <= grab.x <= SIZE,
        -SIZE <= grab.y <= SIZE,
        on_board(board),
    ensures
        moved_block(b, board, grab).max.x - moved_block(b, board, grab).min.x == b.max.x - b.min.x,
        moved_block(b, board, grab).max.y - moved_block(b, board, grab).min.y == b.max.y - b.min.y,
        moved_block(b, board, grab).wf(),
        0 <= board.x - grab.x <= SIZE - (b.max.x - b.min.x) ==> moved_block(b, board, grab).min.x == board.x - grab.x,
        0 <= board.y - grab.y <= SIZE - (b.max.y - b.min.y) ==> moved_block(b, board, grab).min.y == board.y - grab.y,
        board.x - grab.x < 0 ==> moved_block(b, board, grab).min.x == 0,
        board.y - grab.y < 0 ==> moved_block(b, board, grab).min.y == 0,
        board.x - grab.x > SIZE - (b.max.x - b.min.x) ==> moved_block(b, board, grab).max.x == SIZE,
        board.y - grab.y > SIZE - (b.max.y - b.min.y) ==> moved_block(b, board, grab).max.y == SIZE,
{
}

/// The box spanned by two points has them as opposite corners: its limits
/// in each axis are the two points' coordinates, the smaller one first.
pub proof fn lemma_block_spans_its_corners(a: Point, b: Point)
    ensures
        block_spec(a, b).min.x <= block_spec(a, b).max.x,
        block_spec(a, b).min.y <= block_spec(a, b).max.y,
        (block_spec(a, b).min.x == a.x && block_spec(a, b).max.x == b.x) || (block_spec(a, b).min.x == b.x
            && block_spec(a, b).max.x == a.x),
        (block_spec(a, b).min.y == a.y && block_spec(a, b).max.y == b.y) || (block_spec(a, b).min.y == b.y
            && block_spec(a, b).max.y == a.y),
{
}

/// The corners of a box with an area are its four distinct limit
/// combinations, counter-clockwise from the lower left, and the corner
/// opposite to each lies two places further on, with the other limit in
/// both axes.
pub proof fn lemma_corners_and_opposites(b: Block)
    requires
        b.wf(),
        b.min.x < b.max.x,
        b.min.y < b.max.y,
    ensures
        forall|k: int| 0 <= k < 4 ==> (#[trigger] b.corners_spec()[k].x == b.min.x || b.corners_spec()[k].x == b.max.x)
            && (b.corners_spec()[k].y == b.min.y || b.corners_spec()[k].y == b.max.y),
        forall|k: int, j: int| 0 <= k < j < 4 ==> #[trigger] b.corners_spec()[k] != #[trigger] b.corners_spec()[j],
        b.corners_spec()[0] == b.min,
        b.corners_spec()[1].x == b.max.x && b.corners_spec()[1].y == b.min.y,
        b.corners_spec()[2] == b.max,
        forall|k: int| 0 <= k < 4 ==> {
            let c = #[trigger] b.corners_spec()[k];
            &&& b.opposite_spec(c).x == b.min.x + b.max.x - c.x
            &&& b.opposite_spec(c).y == b.min.y + b.max.y - c.y
            &&& b.opposite_spec(c) == b.corners_spec()[(k + 2) % 4]
        },
{
}

/// `v` limited to `[lo, hi]`.
pub open spec fn clamp_spec(v: int, lo: int, hi: int) -> int {
    if v < lo {
        lo
    } else if v > hi {
        hi
    } else {
        v
    }
}

/// The block `b` moved so that its lower-left corner follows the pointer at
/// `board` minus the grab offset, kept on the board.
pub open spec fn moved_block(b: Block, board: Point, grab: Point) -> Block {
    let w = b.max.x - b.min.x;
    let h = b.max.y - b.min.y;
    let mx = clamp_spec(board.x - grab.x, 0, SIZE - w);
    let my = clamp_spec(board.y - grab.y, 0, SIZE - h);
    Block { min: Point { x: mx as i64, y: my as i64 }, max: Point { x: (mx + w) as i64, y: (my + h) as i64 } }
}

/// `v` limited to `[lo, hi]`.
fn clamp_coord(v: Coord, lo: Coord, hi: Coord) -> (r: Coord)
    requires
        lo <= hi,
    ensures
        r == clamp_spec(v as int, lo as int, hi as int),
{
    if v < lo {
        lo
    } else if v > hi {
        hi
    } else {
        v
    }
}

impl Board {
    /// Follows the pointer at `board` with the drag in progress: an endpoint
    /// moves there, a moved block follows (kept on the board), a resized block
    /// spans from its fixed corner to the pointer, a rubber band stretches.
    pub fn update_drag(&mut self, board: Point)
        requires
            old(self).wf(),
            old(self).drag_ok(),
            on_board(board),
        ensures
            final(self).wf(),
            final(self).drag_ok(),
            match old(self).drag {
                Some(Drag::EndpointA) => final(self).a == board && final(self).b == old(self).b
                    && final(self).blocks@ == old(self).blocks@ && final(self).drag == old(self).drag,
                Some(Drag::EndpointB) => final(self).b == board && final(self).a == old(self).a
                    && final(self).blocks@ == old(self).blocks@ && final(self).drag == old(self).drag,
                Some(Drag::Move { index, grab }) => final(self).blocks@ == old(self).blocks@.update(
                    index as int,
                    moved_block(old(self).blocks@[index as int], board, grab),
                ) && final(self).a == old(self).a && final(self).b == old(self).b && final(self).drag
                    == old(self).drag,
                Some(Drag::Resize { index, anchor }) => final(self).blocks@ == old(self).blocks@.update(
                    index as int,
                    block_spec(anchor, board),
                ) && final(self).a == old(self).a && final(self).b == old(self).b && final(self).drag
                    == old(self).drag,
                Some(Drag::Create { start, .. }) => final(self).drag == Some(
                    Drag::Create { start, current: board },
                ) && final(self).blocks@ == old(self).blocks@ && final(self).a == old(self).a
                    && final(self).b == old(self).b,
                None => *final(self) == *old(self),
            },
            old(self).drag matches Some(Drag::Move { index, grab }) ==> {
                let b = old(self).blocks@[index as int];
                let nb = final(self).blocks@[index as int];
                &&& nb.max.x - nb.min.x == b.max.x - b.min.x
                &&& nb.max.y - nb.min.y == b.max.y - b.min.y
                &&& 0 <= board.x - grab.x <= SIZE - (b.max.x - b.min.x) ==> nb.min.x == board.x - grab.x
                &&& 0 <= board.y - grab.y <= SIZE - (b.max.y - b.min.y) ==> nb.min.y == board.y - grab.y
                &&& board.x - grab.x < 0 ==> nb.min.x == 0
                &&& board.y - grab.y < 0 ==> nb.min.y == 0
                &&& board.x - grab.x > SIZE - (b.max.x - b.min.x) ==> nb.max.x == SIZE
                &&& board.y - grab.y > SIZE - (b.max.y - b.min.y) ==> nb.max.y == SIZE
            },
            old(self).drag matches Some(Drag::Resize { index, anchor }) ==> {
                let nb = final(self).blocks@[index as int];
                &&& nb.min.x <= nb.max.x && nb.min.y <= nb.max.y
                &&& (nb.min.x == anchor.x && nb.max.x == board.x) || (nb.min.x == board.x && nb.max.x == anchor.x)
                &&& (nb.min.y == anchor.y && nb.max.y == board.y) || (nb.min.y == board.y && nb.max.y == anchor.y)
            },
    {
        let ghost b0 = self.blocks@;
        match self.drag {
            Some(Drag::EndpointA) => {
                self.a = board;
            },
            Some(Drag::EndpointB) => {
                self.b = board;
            },
            Some(Drag::Move { index, grab }) => {
                let block = self.blocks[index];
                assert(block.wf());
                let w = block.max.x - block.min.x;
                let h = block.max.y - block.min.y;
                let min_x = clamp_coord(board.x - grab.x, 0, SIZE - w);
                let min_y = clamp_coord(board.y - grab.y, 0, SIZE - h);
                let moved = block.shifted(min_x - block.min.x, min_y - block.min.y);
                self.blocks.set(index, moved);
                proof {
                    assert(moved == moved_block(block, board, grab));
                    lemma_move_follows_pointer(block, board, grab);
                    assert forall|i: int| 0 <= i < self.blocks@.len() implies (#[trigger] self.blocks@[i]).wf() by {
                        if i != index {
                            assert(b0[i].wf());
                        }
                    }
                }
            },
            Some(Drag::Resize { index, anchor }) => {
                let nb = Block::new(anchor, board);
                self.blocks.set(index, nb);
                proof {
                    lemma_block_spans_its_corners(anchor, board);
                    assert forall|i: int| 0 <= i < self.blocks@.len() implies (#[trigger] self.blocks@[i]).wf() by {
                        if i != index {
                            assert(b0[i].wf());
                        }
                    }
                }
            },
            Some(Drag::Create { start, .. }) => {
                self.drag = Some(Drag::Create { start, current: board });
            },
            None => {},
        }
    }

    /// Ends the drag in progress: a rubber band with an area becomes a new
    /// block, a block resized to no area is removed.
    pub fn end_drag(&mut self)
        requires
            old(self).wf(),
            old(self).drag matches Some(Drag::Resize { index, .. }) ==> index < old(self).blocks@.len(),
        ensures
            final(self).wf(),
            final(self).drag is None,
            final(self).a == old(self).a,
            final(self).b == old(self).b,
            match old(self).drag {
                Some(Drag::Create { start, current }) => final(self).blocks@ == if block_spec(
                    start,
                    current,
                ).min.x == block_spec(start, current).max.x || block_spec(start, current).min.y
                    == block_spec(start, current).max.y {
                    old(self).blocks@
                } else {
                    old(self).blocks@.push(block_spec(start, current))
                },
                Some(Drag::Resize { index, .. }) => final(self).blocks@ == if old(self).blocks@[index as int].min.x
                    == old(self).blocks@[index as int].max.x || old(self).blocks@[index as int].min.y == old(
                    self,
                ).blocks@[index as int].max.y {
                    old(self).blocks@.remove(index as int)
                } else {
                    old(self).blocks@
                },
                _ => final(self).blocks@ == old(self).blocks@,
            },
    {
        let ghost b0 = self.blocks@;
        let d = self.drag;
        self.drag = None;
        match d {
            Some(Drag::Create { start, current }) => {
                let block = Block::new(start, current);
                if !block.is_degenerate() {
                    self.blocks.push(block);
                }
                proof {
                    assert forall|i: int| 0 <= i < self.blocks@.len() implies (#[trigger] self.blocks@[i]).wf() by {
                        if i < b0.len() {
                            assert(b0[i].wf());
                        }
                    }
                }
            },
            Some(Drag::Resize { index, .. }) => {
                if self.blocks[index].is_degenerate() {
                    self.blocks.remove(index);
                    proof {
                        assert forall|i: int| 0 <= i < self.blocks@.len() implies (#[trigger] self.blocks@[i]).wf() by {
                            if i < index {
                                assert(b0[i].wf());
                            } else {
                                assert(b0[i + 1].wf());
                            }
                        }
                    }
                }
            },
            _ => {},
        }
    }

    /// Deletes the hovered block, unless a drag is in progress.
    pub fn delete_hovered(&mut self, hover: Hover)
        requires
            old(self).wf(),
            old(self).drag is None ==> (hover matches Hover::Corner(i) ==> i < old(self).blocks@.len()),
            old(self).drag is None ==> (hover matches Hover::Block(i) ==> i < old(self).blocks@.len()),
        ensures
            final(self).wf(),
            final(self).a == old(self).a,
            final(self).b == old(self).b,
            final(self).drag == old(self).drag,
            old(self).drag_ok() ==> final(self).drag_ok(),
            final(self).blocks@ == match hover {
                Hover::Block(i) | Hover::Corner(i) => if old(self).drag is None {
                    old(self).blocks@.remove(i as int)
                } else {
                    old(self).blocks@
                },
                _ => old(self).blocks@,
            },
    {
        let ghost b0 = self.blocks@;
        match hover {
            Hover::Block(i) | Hover::Corner(i) => {
                if self.drag.is_none() {
                    self.blocks.remove(i);
                    proof {
                        assert forall|k: int| 0 <= k < self.blocks@.len() implies (#[trigger] self.blocks@[k]).wf() by {
                            if k < i {
                                assert(b0[k].wf());
                            } else {
                                assert(b0[k + 1].wf());
                            }
                        }
                    }
                }
            },
            _ => {},
        }
    }

    /// Removes every block. A drag in progress is left as it is.
    pub fn clear_blocks(&mut self)
        requires
            old(self).wf(),
        ensures
            final(self).wf(),
            final(self).blocks@.len() == 0,
            final(self).a == old(self).a,
            final(self).b == old(self).b,
            final(self).drag == old(self).drag,
    {
        self.blocks = Vec::new();
    }
}

} // verus!
