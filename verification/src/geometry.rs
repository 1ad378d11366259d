//! Plane primitives: fixed-point 2-D vectors, agent states, and
//! axis-aligned rectangles given by centre and half-extent.
//!
//! Containment policy: a rectangle is closed on all four edges, so a
//! point on an edge lies in every rectangle whose edge it touches. The
//! quadtree resolves the resulting overlap between sibling quadrants by
//! always routing a point to the first quadrant (in NW, NE, SW, SE
//! order) that contains it.

use vstd::prelude::*;

verus! {

/// A two-dimensional vector with fixed-point integer coordinates.
#[derive(Clone, Copy, PartialEq, Eq, Structural, Debug)]
pub struct Vec2I {
    pub x: i64,
    pub y: i64,
}

/// Position and velocity of one simulated agent.
#[derive(Clone, Copy, PartialEq, Eq, Structural, Debug)]
pub struct AgentState {
    pub position: Vec2I,
    pub velocity: Vec2I,
}

/// An axis-aligned rectangle: `position` is its centre, `size` the
/// half-extent along each axis.
#[derive(Clone, Copy, PartialEq, Eq, Structural, Debug)]
pub struct Rectangle {
    pub position: Vec2I,
    pub size: Vec2I,
}

impl Rectangle {
    /// Leftmost x coordinate covered by the rectangle.
    pub open spec fn x_lo(self) -> int {
        self.position.x - self.size.x
    }

    /// Rightmost x coordinate covered by the rectangle.
    pub open spec fn x_hi(self) -> int {
        self.position.x + self.size.x
    }

    /// Lowest y coordinate covered by the rectangle.
    pub open spec fn y_lo(self) -> int {
        self.position.y - self.size.y
    }

    /// Highest y coordinate covered by the rectangle.
    pub open spec fn y_hi(self) -> int {
        self.position.y + self.size.y
    }

    /// Well-formed: non-negative half-extents, and both corners
    /// representable as `i64` so edge coordinates can be computed.
    pub open spec fn wf(self) -> bool {
        &&& self.size.x >= 0
        &&& self.size.y >= 0
        &&& self.x_lo() >= i64::MIN
        &&& self.x_hi() <= i64::MAX
        &&& self.y_lo() >= i64::MIN
        &&& self.y_hi() <= i64::MAX
    }

    /// Closed-bounds containment of a point.
    pub open spec fn contains_pt(self, p: Vec2I) -> bool {
        &&& self.x_lo() <= p.x <= self.x_hi()
        &&& self.y_lo() <= p.y <= self.y_hi()
    }

    /// Two rectangles overlap unless one lies entirely outside the
    /// other along some axis (closed bounds: touching edges overlap).
    pub open spec fn overlaps(self, other: Rectangle) -> bool {
        &&& other.x_lo() <= self.x_hi()
        &&& self.x_lo() <= other.x_hi()
        &&& other.y_lo() <= self.y_hi()
        &&& self.y_lo() <= other.y_hi()
    }

    /// Whether `point` lies within the rectangle (AABB test, closed bounds).
    pub fn contains(&self, point: &Vec2I) -> (r: bool)
        requires
            self.wf(),
        ensures
            r == self.contains_pt(*point),
    {
        point.x >= self.position.x - self.size.x && point.x <= self.position.x + self.size.x
            && point.y >= self.position.y - self.size.y
            && point.y <= self.position.y + self.size.y
    }

    /// Separating-axis overlap test for two rectangles.
    pub fn intersects(&self, region: &Rectangle) -> (r: bool)
        requires
            self.wf(),
            region.wf(),
        ensures
            r == self.overlaps(*region),
    {
        !(region.position.x - region.size.x > self.position.x + self.size.x
            || region.position.x + region.size.x < self.position.x - self.size.x
            || region.position.y - region.size.y > self.position.y + self.size.y
            || region.position.y + region.size.y < self.position.y - self.size.y)
    }

    /// Offset of a quadrant centre from this rectangle's centre, per axis.
    pub open spec fn x_off(self) -> int {
        self.size.x / 2
    }

    pub open spec fn y_off(self) -> int {
        self.size.y / 2
    }

    /// Half-extent of a quadrant, per axis (the rounding remainder goes
    /// to the quadrant so that the four quadrants cover the whole
    /// rectangle).
    pub open spec fn child_half_x(self) -> int {
        self.size.x - self.size.x / 2
    }

    pub open spec fn child_half_y(self) -> int {
        self.size.y - self.size.y / 2
    }

    /// Quadrant towards positive x and positive y.
    pub open spec fn nw_rect(self) -> Rectangle {
        Rectangle {
            position: Vec2I {
                x: (self.position.x + self.x_off()) as i64,
                y: (self.position.y + self.y_off()) as i64,
            },
            size: Vec2I { x: self.child_half_x() as i64, y: self.child_half_y() as i64 },
        }
    }

    /// Quadrant towards negative x, positive y.
    pub open spec fn ne_rect(self) -> Rectangle {
        Rectangle {
            position: Vec2I {
                x: (self.position.x - self.x_off()) as i64,
                y: (self.position.y + self.y_off()) as i64,
            },
            size: Vec2I { x: self.child_half_x() as i64, y: self.child_half_y() as i64 },
        }
    }

    /// Quadrant towards positive x, negative y.
    pub open spec fn sw_rect(self) -> Rectangle {
        Rectangle {
            position: Vec2I {
                x: (self.position.x + self.x_off()) as i64,
                y: (self.position.y - self.y_off()) as i64,
            },
            size: Vec2I { x: self.child_half_x() as i64, y: self.child_half_y() as i64 },
        }
    }

    /// Half of a non-negative length, rounded down.
    fn half_down(v: i64) -> (r: i64)
        requires
            v >= 0,
        ensures
            r == v as int / 2,
    {
        ((v as u64) / 2u64) as i64
    }

    /// Computes the four quadrant rectangles, in NW, NE, SW, SE order.
    pub fn quadrants(&self) -> (qs: (Rectangle, Rectangle, Rectangle, Rectangle))
        requires
            self.wf(),
        ensures
            qs.0 == self.nw_rect(),
            qs.1 == self.ne_rect(),
            qs.2 == self.sw_rect(),
            qs.3 == self.se_rect(),
    {
        proof {
            lemma_half_facts(self.size.x as int);
            lemma_half_facts(self.size.y as int);
        }
        let off_x = Self::half_down(self.size.x);
        let off_y = Self::half_down(self.size.y);
        let size = Vec2I { x: self.size.x - off_x, y: self.size.y - off_y };
        (
            Rectangle {
                position: Vec2I { x: self.position.x + off_x, y: self.position.y + off_y },
                size,
            },
            Rectangle {
                position: Vec2I { x: self.position.x - off_x, y: self.position.y + off_y },
                size,
            },
            Rectangle {
                position: Vec2I { x: self.position.x + off_x, y: self.position.y - off_y },
                size,
            },
            Rectangle {
                position: Vec2I { x: self.position.x - off_x, y: self.position.y - off_y },
                size,
            },
        )
    }

    /// Quadrant towards negative x, negative y.
    pub open spec fn se_rect(self) -> Rectangle {
        Rectangle {
            position: Vec2I {
                x: (self.position.x - self.x_off()) as i64,
                y: (self.position.y - self.y_off()) as i64,
            },
            size: Vec2I { x: self.child_half_x() as i64, y: self.child_half_y() as i64 },
        }
    }
}

/// Basic facts about halving a non-negative length.
proof fn lemma_half_facts(s: int)
    requires
        s >= 0,
    ensures
        0 <= s / 2,
        2 * (s / 2) <= s,
        s <= 2 * (s / 2) + 1,
        s / 2 <= s - s / 2,
        s - s / 2 <= s,
{
    assert(s == 2 * (s / 2) + s % 2) by {
        vstd::arithmetic::div_mod::lemma_fundamental_div_mod(s, 2);
    }
}

/// The four quadrants of a well-formed rectangle are well formed and lie
/// within it: every point of a quadrant is a point of the rectangle.
pub proof fn lemma_quadrants_wf(r: Rectangle)
    requires
        r.wf(),
    ensures
        r.nw_rect().wf(),
        r.ne_rect().wf(),
        r.sw_rect().wf(),
        r.se_rect().wf(),
        forall|p: Vec2I| r.nw_rect().contains_pt(p) ==> r.contains_pt(p),
        forall|p: Vec2I| r.ne_rect().contains_pt(p) ==> r.contains_pt(p),
        forall|p: Vec2I| r.sw_rect().contains_pt(p) ==> r.contains_pt(p),
        forall|p: Vec2I| r.se_rect().contains_pt(p) ==> r.contains_pt(p),
{
    lemma_half_facts(r.size.x as int);
    lemma_half_facts(r.size.y as int);
}

/// The four quadrants together cover the rectangle: every contained
/// point lies in at least one quadrant.
pub proof fn lemma_quadrants_cover(r: Rectangle, p: Vec2I)
    requires
        r.wf(),
        r.contains_pt(p),
    ensures
        r.nw_rect().contains_pt(p) || r.ne_rect().contains_pt(p) || r.sw_rect().contains_pt(p)
            || r.se_rect().contains_pt(p),
{
    lemma_half_facts(r.size.x as int);
    lemma_half_facts(r.size.y as int);
}

/// A point contained in both of two rectangles witnesses their overlap.
pub proof fn lemma_common_point_overlaps(a: Rectangle, b: Rectangle, p: Vec2I)
    requires
        a.contains_pt(p),
        b.contains_pt(p),
    ensures
        a.overlaps(b),
        b.overlaps(a),
{
}

} // verus!
