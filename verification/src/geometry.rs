//! Axis-aligned rectangles on the integer grid: containment, overlap and
//! subdivision into quadrants.

use vstd::prelude::*;

verus! {

/// A rectangle given by its centre `(x, y)` and its half-extents `w`
/// (horizontal) and `h` (vertical).
#[derive(Debug, Clone, Copy, PartialEq, Eq, Structural)]
pub struct BoundingBox {
    pub x: i64,
    pub y: i64,
    pub w: i64,
    pub h: i64,
}

/// A single grid position; as an item its extent is the rectangle with that
/// centre and no width or height.
#[derive(Debug, Clone, Copy, PartialEq, Eq, Structural)]
pub struct Point {
    pub x: i64,
    pub y: i64,
}

/// What a value must offer to be filed in the index: its extent.
///
/// The centre of the extent is the value's representative point, the only
/// thing that containment tests look at.  The extent of a value never
/// changes: `bounds` computes what `extent` names.  An implementation in
/// code that is not verified writes `extent` with the body of `bounds`.
pub trait Spacial {
    /// The extent of the value.
    spec fn extent(&self) -> BoundingBox;

    /// Computes the extent.
    fn bounds(&self) -> (b: BoundingBox)
        ensures
            b == self.extent(),
    ;
}

impl Spacial for Point {
    open spec fn extent(&self) -> BoundingBox {
        BoundingBox { x: self.x, y: self.y, w: 0, h: 0 }
    }

    fn bounds(&self) -> (b: BoundingBox) {
        BoundingBox { x: self.x, y: self.y, w: 0, h: 0 }
    }
}

impl Spacial for BoundingBox {
    open spec fn extent(&self) -> BoundingBox {
        *self
    }

    fn bounds(&self) -> (b: BoundingBox) {
        *self
    }
}

impl BoundingBox {
    /// Left edge.
    pub open spec fn left(&self) -> int {
        self.x - self.w
    }

    /// Right edge.
    pub open spec fn right(&self) -> int {
        self.x + self.w
    }

    /// Lower edge.
    pub open spec fn bottom(&self) -> int {
        self.y - self.h
    }

    /// Upper edge.
    pub open spec fn top(&self) -> int {
        self.y + self.h
    }

    /// The half-extents are not negative and all four edges are
    /// representable coordinates.
    pub open spec fn wf(&self) -> bool {
        &&& self.w >= 0
        &&& self.h >= 0
        &&& i64::MIN <= self.left()
        &&& self.right() <= i64::MAX
        &&& i64::MIN <= self.bottom()
        &&& self.top() <= i64::MAX
    }

    /// The grid position `(px, py)` lies in the rectangle, edges included.
    pub open spec fn covers(&self, px: int, py: int) -> bool {
        &&& self.left() <= px <= self.right()
        &&& self.bottom() <= py <= self.top()
    }

    /// The grid position `(px, py)` lies in the rectangle and on none of its
    /// edges.
    pub open spec fn covers_strictly(&self, px: int, py: int) -> bool {
        &&& self.left() < px < self.right()
        &&& self.bottom() < py < self.top()
    }

    /// The grid position `(px, py)` lies on an edge of the rectangle.
    pub open spec fn on_edge(&self, px: int, py: int) -> bool {
        self.covers(px, py) && !self.covers_strictly(px, py)
    }

    /// The rectangle covers the representative point of `item`.
    pub open spec fn contains_spec<T: Spacial>(&self, item: &T) -> bool {
        self.covers(item.extent().x as int, item.extent().y as int)
    }

    /// `other` lies inside the rectangle and touches none of its edges.
    pub open spec fn contains_completely_spec(&self, other: &BoundingBox) -> bool {
        &&& self.left() < other.left()
        &&& other.right() < self.right()
        &&& self.bottom() < other.bottom()
        &&& other.top() < self.top()
    }

    /// The two rectangles overlap or touch.
    pub open spec fn intersects_spec(&self, other: &BoundingBox) -> bool {
        &&& self.left() <= other.right()
        &&& other.left() <= self.right()
        &&& self.bottom() <= other.top()
        &&& other.bottom() <= self.top()
    }

    /// The quadrant with index `k`: 0 is top-left, 1 top-right, 2
    /// bottom-left, and every other index bottom-right.  Its half-extents are
    /// half the rectangle's, rounded down; its centre is moved from the
    /// rectangle's by that much along each axis.
    pub open spec fn quadrant(&self, k: int) -> BoundingBox {
        let dx = if k == 0 || k == 2 { -(self.w / 2) } else { self.w / 2 };
        let dy = if k == 0 || k == 1 { self.h / 2 } else { -(self.h / 2) };
        BoundingBox {
            x: (self.x + dx) as i64,
            y: (self.y + dy) as i64,
            w: (self.w / 2) as i64,
            h: (self.h / 2) as i64,
        }
    }

    /// Whether the rectangle is well-formed.
    pub fn is_well_formed(&self) -> (r: bool)
        ensures
            r == self.wf(),
    {
        let x: i128 = self.x as i128;
        let y: i128 = self.y as i128;
        let w: i128 = self.w as i128;
        let h: i128 = self.h as i128;
        let lo: i128 = i64::MIN as i128;
        let hi: i128 = i64::MAX as i128;
        w >= 0 && h >= 0 && lo <= x - w && x + w <= hi && lo <= y - h && y + h <= hi
    }

    /// Whether the representative point of `item` lies in the rectangle,
    /// edges included.  The extent of `item` beyond its centre plays no part.
    #[verifier::when_used_as_spec(contains_spec)]
    pub fn contains<T: Spacial>(&self, item: &T) -> (r: bool)
        ensures
            r == self.contains_spec(item),
    {
        let b = item.bounds();
        let px: i128 = b.x as i128;
        let py: i128 = b.y as i128;
        let x: i128 = self.x as i128;
        let y: i128 = self.y as i128;
        let w: i128 = self.w as i128;
        let h: i128 = self.h as i128;
        !(px < x - w || px > x + w || py > y + h || py < y - h)
    }

    /// Whether `other` lies strictly inside the rectangle on all four sides.
    #[verifier::when_used_as_spec(contains_completely_spec)]
    pub fn contains_completely(&self, other: &BoundingBox) -> (r: bool)
        ensures
            r == self.contains_completely_spec(other),
    {
        let x: i128 = self.x as i128;
        let y: i128 = self.y as i128;
        let w: i128 = self.w as i128;
        let h: i128 = self.h as i128;
        let ox: i128 = other.x as i128;
        let oy: i128 = other.y as i128;
        let ow: i128 = other.w as i128;
        let oh: i128 = other.h as i128;
        ox - ow > x - w && ox + ow < x + w && oy - oh > y - h && oy + oh < y + h
    }

    /// Whether the two rectangles overlap; touching edges count.
    #[verifier::when_used_as_spec(intersects_spec)]
    pub fn intersects(&self, other: &BoundingBox) -> (r: bool)
        ensures
            r == self.intersects_spec(other),
    {
        let x: i128 = self.x as i128;
        let y: i128 = self.y as i128;
        let w: i128 = self.w as i128;
        let h: i128 = self.h as i128;
        let ox: i128 = other.x as i128;
        let oy: i128 = other.y as i128;
        let ow: i128 = other.w as i128;
        let oh: i128 = other.h as i128;
        !(x + w < ox - ow || x - w > ox + ow || y + h < oy - oh || y - h > oy + oh)
    }

    /// The top-left quadrant.
    pub fn tl(&self) -> (q: BoundingBox)
        requires
            self.wf(),
        ensures
            q == self.quadrant(0),
            q.wf(),
    {
        BoundingBox {
            x: self.x - self.w / 2,
            y: self.y + self.h / 2,
            w: self.w / 2,
            h: self.h / 2,
        }
    }

    /// The top-right quadrant.
    pub fn tr(&self) -> (q: BoundingBox)
        requires
            self.wf(),
        ensures
            q == self.quadrant(1),
            q.wf(),
    {
        BoundingBox {
            x: self.x + self.w / 2,
            y: self.y + self.h / 2,
            w: self.w / 2,
            h: self.h / 2,
        }
    }

    /// The bottom-left quadrant.
    pub fn bl(&self) -> (q: BoundingBox)
        requires
            self.wf(),
        ensures
            q == self.quadrant(2),
            q.wf(),
    {
        BoundingBox {
            x: self.x - self.w / 2,
            y: self.y - self.h / 2,
            w: self.w / 2,
            h: self.h / 2,
        }
    }

    /// The bottom-right quadrant.
    pub fn br(&self) -> (q: BoundingBox)
        requires
            self.wf(),
        ensures
            q == self.quadrant(3),
            q.wf(),
    {
        BoundingBox {
            x: self.x + self.w / 2,
            y: self.y - self.h / 2,
            w: self.w / 2,
            h: self.h / 2,
        }
    }

    /// Every quadrant of a well-formed rectangle is well-formed, has half
    /// the rectangle's half-extents (rounded down), and lies inside the
    /// rectangle.
    pub proof fn lemma_quadrant_inside(&self, k: int)
        requires
            self.wf(),
        ensures
            self.quadrant(k).wf(),
            self.quadrant(k).w == self.w / 2,
            self.quadrant(k).h == self.h / 2,
            self.left() <= self.quadrant(k).left(),
            self.quadrant(k).right() <= self.right(),
            self.bottom() <= self.quadrant(k).bottom(),
            self.quadrant(k).top() <= self.top(),
            forall|px: int, py: int| #[trigger]
                self.quadrant(k).covers(px, py) ==> self.covers(px, py),
    {
    }

    /// The four quadrants leave no gap inside the rectangle: a position
    /// that the rectangle covers strictly is covered by one of them.  Where
    /// both half-extents are even, this holds for the edges too.
    pub proof fn lemma_quadrants_cover(&self, px: int, py: int)
        requires
            self.wf(),
            self.covers_strictly(px, py) || (self.covers(px, py) && self.w % 2 == 0 && self.h
                % 2 == 0),
        ensures
            exists|k: int| 0 <= k < 4 && #[trigger] self.quadrant(k).covers(px, py),
    {
        let k: int = if px <= self.x {
            if py >= self.y { 0 } else { 2 }
        } else {
            if py >= self.y { 1 } else { 3 }
        };
        assert(self.quadrant(k).covers(px, py));
    }

    /// Two different quadrants share edges at most: no position is covered
    /// strictly by both.
    pub proof fn lemma_quadrants_disjoint(&self, j: int, k: int, px: int, py: int)
        requires
            self.wf(),
            0 <= j < k < 4,
        ensures
            !(self.quadrant(j).covers_strictly(px, py) && self.quadrant(k).covers_strictly(
                px,
                py,
            )),
    {
    }

    /// Two well-formed rectangles intersect exactly when some grid position
    /// lies in both.
    pub proof fn lemma_intersects_shares_point(&self, other: &BoundingBox)
        requires
            self.wf(),
            other.wf(),
        ensures
            self.intersects_spec(other) <==> exists|px: int, py: int|
                #[trigger] self.covers(px, py) && other.covers(px, py),
    {
        if self.intersects_spec(other) {
            let px = if self.left() >= other.left() { self.left() } else { other.left() };
            let py = if self.bottom() >= other.bottom() { self.bottom() } else { other.bottom() };
            assert(self.covers(px, py) && other.covers(px, py));
        }
    }

    /// A rectangle that lies strictly inside another covers only positions
    /// that the other covers strictly.
    pub proof fn lemma_contains_completely_covers(&self, other: &BoundingBox, px: int, py: int)
        requires
            self.contains_completely_spec(other),
            other.covers(px, py),
        ensures
            self.covers_strictly(px, py),
    {
    }
}

} // verus!
