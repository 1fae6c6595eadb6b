use vstd::prelude::*;

verus! {

/// A point of the plane with integer coordinates; the objects stored in the tree.
#[derive(Clone, Copy, Debug, PartialEq, Eq, Structural)]
pub struct Point {
    pub x: i32,
    pub y: i32,
}

impl Point {
    /// The squared Euclidean distance between two points.
    pub open spec fn distance_2_spec(self, o: Point) -> int {
        (self.x - o.x) * (self.x - o.x) + (self.y - o.y) * (self.y - o.y)
    }

    pub fn distance_2(&self, o: &Point) -> (r: u128)
        ensures
            r as int == self.distance_2_spec(*o),
    {
        let dx: i64 = self.x as i64 - o.x as i64;
        let dy: i64 = self.y as i64 - o.y as i64;
        let ax: u128 = if dx < 0 { (-dx) as u128 } else { dx as u128 };
        let ay: u128 = if dy < 0 { (-dy) as u128 } else { dy as u128 };
        assert(ax * ax + ay * ay < 0x4_0000_0000_0000_0000) by (nonlinear_arith)
            requires
                ax <= 0x1_0000_0000,
                ay <= 0x1_0000_0000,
        ;
        assert(ax * ax == dx * dx) by (nonlinear_arith)
            requires
                ax == dx || ax == -dx,
        ;
        assert(ay * ay == dy * dy) by (nonlinear_arith)
            requires
                ay == dy || ay == -dy,
        ;
        ax * ax + ay * ay
    }
}

/// An axis-aligned bounding box. It is empty when `lower` exceeds `upper` on some axis.
#[derive(Clone, Copy, Debug, PartialEq, Eq, Structural)]
pub struct Envelope {
    pub lower: Point,
    pub upper: Point,
}

pub open spec fn min32(a: i32, b: i32) -> i32 {
    if a <= b { a } else { b }
}

pub open spec fn max32(a: i32, b: i32) -> i32 {
    if a >= b { a } else { b }
}

/// The neutral envelope: it covers nothing and merges as the identity.
pub open spec fn neutral_envelope() -> Envelope {
    Envelope {
        lower: Point { x: i32::MAX, y: i32::MAX },
        upper: Point { x: i32::MIN, y: i32::MIN },
    }
}

/// The degenerate envelope of a single point.
pub open spec fn point_envelope(p: Point) -> Envelope {
    Envelope { lower: p, upper: p }
}

impl Envelope {
    pub open spec fn is_empty_spec(self) -> bool {
        self.lower.x > self.upper.x || self.lower.y > self.upper.y
    }

    pub open spec fn width_spec(self) -> int {
        self.upper.x - self.lower.x
    }

    pub open spec fn height_spec(self) -> int {
        self.upper.y - self.lower.y
    }

    pub open spec fn area_spec(self) -> int {
        if self.is_empty_spec() { 0 } else { self.width_spec() * self.height_spec() }
    }

    pub open spec fn margin_spec(self) -> int {
        if self.is_empty_spec() { 0 } else { self.width_spec() + self.height_spec() }
    }

    /// The smallest envelope covering both.
    pub open spec fn merged_spec(self, o: Envelope) -> Envelope {
        Envelope {
            lower: Point { x: min32(self.lower.x, o.lower.x), y: min32(self.lower.y, o.lower.y) },
            upper: Point { x: max32(self.upper.x, o.upper.x), y: max32(self.upper.y, o.upper.y) },
        }
    }

    /// The common part of both; empty when they are disjoint.
    pub open spec fn intersection_spec(self, o: Envelope) -> Envelope {
        Envelope {
            lower: Point { x: max32(self.lower.x, o.lower.x), y: max32(self.lower.y, o.lower.y) },
            upper: Point { x: min32(self.upper.x, o.upper.x), y: min32(self.upper.y, o.upper.y) },
        }
    }

    pub open spec fn intersection_area_spec(self, o: Envelope) -> int {
        self.intersection_spec(o).area_spec()
    }

    pub open spec fn contains_spec(self, o: Envelope) -> bool {
        self.lower.x <= o.lower.x && self.lower.y <= o.lower.y && o.upper.x <= self.upper.x
            && o.upper.y <= self.upper.y
    }

    /// Twice the center, on each axis, so that it stays integral.
    pub open spec fn center2_x(self) -> int {
        self.lower.x + self.upper.x
    }

    pub open spec fn center2_y(self) -> int {
        self.lower.y + self.upper.y
    }

    /// Four times the squared distance between the two centers.
    pub open spec fn center_distance_spec(self, o: Envelope) -> int {
        let dx = self.center2_x() - o.center2_x();
        let dy = self.center2_y() - o.center2_y();
        dx * dx + dy * dy
    }

    /// The lower bound of the envelope on `axis` (0 for x, otherwise y).
    pub open spec fn lower_on_spec(self, axis: usize) -> int {
        if axis == 0 { self.lower.x as int } else { self.lower.y as int }
    }

    pub fn new_empty() -> (r: Envelope)
        ensures
            r == neutral_envelope(),
    {
        Envelope {
            lower: Point { x: i32::MAX, y: i32::MAX },
            upper: Point { x: i32::MIN, y: i32::MIN },
        }
    }

    pub fn from_point(p: &Point) -> (r: Envelope)
        ensures
            r == point_envelope(*p),
    {
        Envelope { lower: *p, upper: *p }
    }

    pub fn merged(&self, o: &Envelope) -> (r: Envelope)
        ensures
            r == self.merged_spec(*o),
    {
        Envelope {
            lower: Point {
                x: if self.lower.x <= o.lower.x { self.lower.x } else { o.lower.x },
                y: if self.lower.y <= o.lower.y { self.lower.y } else { o.lower.y },
            },
            upper: Point {
                x: if self.upper.x >= o.upper.x { self.upper.x } else { o.upper.x },
                y: if self.upper.y >= o.upper.y { self.upper.y } else { o.upper.y },
            },
        }
    }

    pub fn merge(&mut self, o: &Envelope)
        ensures
            *final(self) == old(self).merged_spec(*o),
    {
        *self = self.merged(o);
    }

    pub fn contains_envelope(&self, o: &Envelope) -> (r: bool)
        ensures
            r == self.contains_spec(*o),
    {
        self.lower.x <= o.lower.x && self.lower.y <= o.lower.y && o.upper.x <= self.upper.x
            && o.upper.y <= self.upper.y
    }

    pub fn area(&self) -> (r: u128)
        ensures
            r as int == self.area_spec(),
            r < 0x1_0000_0000_0000_0000,
    {
        if self.lower.x > self.upper.x || self.lower.y > self.upper.y {
            0
        } else {
            let w: u128 = (self.upper.x as i64 - self.lower.x as i64) as u128;
            let h: u128 = (self.upper.y as i64 - self.lower.y as i64) as u128;
            assert(w * h < 0x1_0000_0000_0000_0000) by (nonlinear_arith)
                requires
                    w < 0x1_0000_0000,
                    h < 0x1_0000_0000,
            ;
            w * h
        }
    }

    pub fn intersection_area(&self, o: &Envelope) -> (r: u128)
        ensures
            r as int == self.intersection_area_spec(*o),
            r < 0x1_0000_0000_0000_0000,
    {
        let i = Envelope {
            lower: Point {
                x: if self.lower.x >= o.lower.x { self.lower.x } else { o.lower.x },
                y: if self.lower.y >= o.lower.y { self.lower.y } else { o.lower.y },
            },
            upper: Point {
                x: if self.upper.x <= o.upper.x { self.upper.x } else { o.upper.x },
                y: if self.upper.y <= o.upper.y { self.upper.y } else { o.upper.y },
            },
        };
        i.area()
    }

    pub fn margin_value(&self) -> (r: u128)
        ensures
            r as int == self.margin_spec(),
            r < 0x2_0000_0000,
    {
        if self.lower.x > self.upper.x || self.lower.y > self.upper.y {
            0
        } else {
            (self.upper.x as i64 - self.lower.x as i64) as u128 + (self.upper.y as i64
                - self.lower.y as i64) as u128
        }
    }

    pub fn center_distance_2(&self, o: &Envelope) -> (r: u128)
        ensures
            r as int == self.center_distance_spec(*o),
            r < 0x40_0000_0000_0000_0000,
    {
        let dx: i128 = (self.lower.x as i128 + self.upper.x as i128) - (o.lower.x as i128
            + o.upper.x as i128);
        let dy: i128 = (self.lower.y as i128 + self.upper.y as i128) - (o.lower.y as i128
            + o.upper.y as i128);
        let ax: u128 = if dx < 0 { (-dx) as u128 } else { dx as u128 };
        let ay: u128 = if dy < 0 { (-dy) as u128 } else { dy as u128 };
        assert(ax * ax + ay * ay < 0x40_0000_0000_0000_0000) by (nonlinear_arith)
            requires
                ax <= 0x4_0000_0000,
                ay <= 0x4_0000_0000,
        ;
        assert(ax * ax == dx * dx) by (nonlinear_arith)
            requires
                ax == dx || ax == -dx,
        ;
        assert(ay * ay == dy * dy) by (nonlinear_arith)
            requires
                ay == dy || ay == -dy,
        ;
        ax * ax + ay * ay
    }

    /// The envelopes share at least one point.
    pub fn intersects(&self, o: &Envelope) -> (r: bool)
        ensures
            r == !self.intersection_spec(*o).is_empty_spec(),
    {
        let lx = if self.lower.x >= o.lower.x { self.lower.x } else { o.lower.x };
        let ly = if self.lower.y >= o.lower.y { self.lower.y } else { o.lower.y };
        let ux = if self.upper.x <= o.upper.x { self.upper.x } else { o.upper.x };
        let uy = if self.upper.y <= o.upper.y { self.upper.y } else { o.upper.y };
        lx <= ux && ly <= uy
    }

    pub fn lower_on(&self, axis: usize) -> (r: i32)
        ensures
            r as int == self.lower_on_spec(axis),
    {
        if axis == 0 { self.lower.x } else { self.lower.y }
    }
}

/// Growing an envelope never shrinks its area.
pub proof fn lemma_area_monotone(a: Envelope, b: Envelope)
    requires
        b.contains_spec(a),
    ensures
        a.area_spec() <= b.area_spec(),
{
    if !a.is_empty_spec() {
        let (w, h, w2, h2) = (a.width_spec(), a.height_spec(), b.width_spec(), b.height_spec());
        assert(w * h <= w2 * h2) by (nonlinear_arith)
            requires
                0 <= w <= w2,
                0 <= h <= h2,
        ;
    }
}

/// Growing an envelope never shrinks its intersection with another.
pub proof fn lemma_intersection_monotone(a: Envelope, b: Envelope, c: Envelope)
    requires
        b.contains_spec(a),
    ensures
        a.intersection_area_spec(c) <= b.intersection_area_spec(c),
{
    lemma_area_monotone(a.intersection_spec(c), b.intersection_spec(c));
}

pub proof fn lemma_merged_contains(a: Envelope, b: Envelope)
    ensures
        a.merged_spec(b).contains_spec(a),
        a.merged_spec(b).contains_spec(b),
{
}

} // verus!
