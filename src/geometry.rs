use vstd::prelude::*;

verus! {

/// Largest absolute coordinate of a segment end that the intersection solver takes.
pub const COORD_LIMIT: i64 = 4294967296;

/// A point of the plane, in whole scene units.
#[derive(Clone, Copy, Debug, PartialEq, Eq, Structural)]
pub struct Point {
    pub x: i64,
    pub y: i64,
}

impl Point {
    pub fn new(x: i64, y: i64) -> (r: Point)
        ensures
            r.x == x,
            r.y == y,
    {
        Point { x, y }
    }

    pub open spec fn within(self, limit: int) -> bool {
        -limit <= self.x <= limit && -limit <= self.y <= limit
    }

    /// The squared Euclidean distance to `other`, exact.
    pub fn distance_sq_to(&self, other: &Point) -> (r: i128)
        requires
            self.within(COORD_LIMIT as int),
            other.within(COORD_LIMIT as int),
        ensures
            r == (other.x - self.x) * (other.x - self.x) + (other.y - self.y) * (other.y - self.y),
    {
        let dx = other.x as i128 - self.x as i128;
        let dy = other.y as i128 - self.y as i128;
        proof {
            lemma_mul_bound(dx as int, dx as int, 0x2_0000_0000, 0x2_0000_0000);
            lemma_mul_bound(dy as int, dy as int, 0x2_0000_0000, 0x2_0000_0000);
        }
        dx * dx + dy * dy
    }
}

/// A point with rational coordinates `(x / den, y / den)`, where `den > 0`.
#[derive(Clone, Copy, Debug, PartialEq, Eq, Structural)]
pub struct RatPoint {
    pub x: i128,
    pub y: i128,
    pub den: i128,
}

impl RatPoint {
    pub open spec fn view(&self) -> (int, int, int) {
        (self.x as int, self.y as int, self.den as int)
    }

    /// The point `p` itself, over the denominator one.
    pub fn from_point(p: Point) -> (r: RatPoint)
        ensures
            r@ == point_rat(p),
    {
        RatPoint { x: p.x as i128, y: p.y as i128, den: 1 }
    }

    /// Whether this point is exactly `(x, y)`.
    pub fn is_at(&self, x: i64, y: i64) -> (r: bool)
        requires
            -COORD_LIMIT <= x <= COORD_LIMIT,
            -COORD_LIMIT <= y <= COORD_LIMIT,
            self.den > 0,
            -COORD_LIMIT * COORD_LIMIT <= self.x <= COORD_LIMIT * COORD_LIMIT,
            -COORD_LIMIT * COORD_LIMIT <= self.y <= COORD_LIMIT * COORD_LIMIT,
            self.den <= COORD_LIMIT * COORD_LIMIT,
        ensures
            r == (self.x == x * self.den && self.y == y * self.den),
    {
        proof {
            lemma_mul_bound(x as int, self.den as int, COORD_LIMIT as int, COORD_LIMIT * COORD_LIMIT);
            lemma_mul_bound(y as int, self.den as int, COORD_LIMIT as int, COORD_LIMIT * COORD_LIMIT);
        }
        self.x == (x as i128) * self.den && self.y == (y as i128) * self.den
    }
}

pub open spec fn point_rat(p: Point) -> (int, int, int) {
    (p.x as int, p.y as int, 1)
}

/// A directed piece of line from `start` to `end`.
#[derive(Clone, Copy, Debug, PartialEq, Eq, Structural)]
pub struct Segment {
    pub start: Point,
    pub end: Point,
}

impl Segment {
    /// The segment from `p1` to `p2`.
    pub fn new(p1: Point, p2: Point) -> (r: Segment)
        ensures
            r.start == p1,
            r.end == p2,
    {
        Segment { start: p1, end: p2 }
    }

    pub open spec fn within(self, limit: int) -> bool {
        self.start.within(limit) && self.end.within(limit)
    }

    pub open spec fn dx(self) -> int {
        self.end.x - self.start.x
    }

    pub open spec fn dy(self) -> int {
        self.end.y - self.start.y
    }
}

/// The cross product of the vectors `(ax, ay)` and `(vx, vy)`.
pub open spec fn cross(ax: int, ay: int, vx: int, vy: int) -> int {
    ax * vy - ay * vx
}

/// Whether `num / den` lies in `[0, 1]`, for `den > 0`.
pub open spec fn unit_fraction(num: int, den: int) -> bool {
    0 <= num <= den
}

/// Where `a` and `b` cross, as `(t, u, den)`: the point is `a.start + (t / den) * (a.end - a.start)`,
/// which is also `b.start + (u / den) * (b.end - b.start)`. `den` is positive. `None` where the
/// segments are parallel (the cross product of their directions is zero) or do not meet.
pub open spec fn crossing_spec(a: Segment, b: Segment) -> Option<(int, int, int)> {
    let d = cross(a.dx(), a.dy(), b.dx(), b.dy());
    let wx = b.start.x - a.start.x;
    let wy = b.start.y - a.start.y;
    let t = cross(wx, wy, b.dx(), b.dy());
    let u = cross(wx, wy, a.dx(), a.dy());
    if d == 0 {
        None
    } else {
        let (t, u, d) = if d > 0 { (t, u, d) } else { (-t, -u, -d) };
        if unit_fraction(t, d) && unit_fraction(u, d) {
            Some((t, u, d))
        } else {
            None
        }
    }
}

/// The point at parameter `t / den` on `a`, over the denominator `den`.
pub open spec fn point_on(a: Segment, t: int, den: int) -> (int, int, int) {
    (a.start.x * den + t * a.dx(), a.start.y * den + t * a.dy(), den)
}

/// The point where `a` and `b` meet, if they do and are not parallel.
pub open spec fn intersect_spec(a: Segment, b: Segment) -> Option<(int, int, int)> {
    match crossing_spec(a, b) {
        None => None,
        Some(c) => Some(point_on(a, c.0, c.2)),
    }
}

/// The parameters of a crossing of two segments; see `crossing_spec`.
#[derive(Clone, Copy, Debug, PartialEq, Eq, Structural)]
pub struct Crossing {
    pub t: i128,
    pub u: i128,
    pub den: i128,
}

impl Crossing {
    pub open spec fn view(&self) -> (int, int, int) {
        (self.t as int, self.u as int, self.den as int)
    }
}

pub open spec fn crossing_view(c: Option<Crossing>) -> Option<(int, int, int)> {
    match c {
        None => None,
        Some(c) => Some(c@),
    }
}

pub open spec fn rat_view(p: Option<RatPoint>) -> Option<(int, int, int)> {
    match p {
        None => None,
        Some(p) => Some(p@),
    }
}

/// A product of bounded factors is bounded by the product of the bounds.
pub proof fn lemma_mul_bound(a: int, b: int, ka: int, kb: int)
    requires
        -ka <= a <= ka,
        -kb <= b <= kb,
    ensures
        -(ka * kb) <= a * b <= ka * kb,
{
    assert(-(ka * kb) <= a * b <= ka * kb) by (nonlinear_arith)
        requires
            -ka <= a <= ka,
            -kb <= b <= kb,
    ;
}

/// A cross product of bounded vectors is bounded by twice the product of the bounds.
pub proof fn lemma_cross_bound(ax: int, ay: int, vx: int, vy: int, ka: int, kb: int)
    requires
        -ka <= ax <= ka,
        -ka <= ay <= ka,
        -kb <= vx <= kb,
        -kb <= vy <= kb,
    ensures
        -(ka * kb) <= ax * vy <= ka * kb,
        -(ka * kb) <= ay * vx <= ka * kb,
        -(ka * kb) - ka * kb <= cross(ax, ay, vx, vy) <= ka * kb + ka * kb,
{
    lemma_mul_bound(ax, vy, ka, kb);
    lemma_mul_bound(ay, vx, ka, kb);
}

/// The parameters at which `a` and `b` cross, or `None` where they are parallel or do not meet.
pub fn crossing(a: &Segment, b: &Segment) -> (r: Option<Crossing>)
    requires
        a.within(COORD_LIMIT as int),
        b.within(COORD_LIMIT as int),
    ensures
        crossing_view(r) == crossing_spec(*a, *b),
        r matches Some(c) ==> 0 <= c.t <= c.den <= 8 * COORD_LIMIT * COORD_LIMIT && 0 <= c.u <= c.den,
{
    let s1x = a.end.x as i128 - a.start.x as i128;
    let s1y = a.end.y as i128 - a.start.y as i128;
    let s2x = b.end.x as i128 - b.start.x as i128;
    let s2y = b.end.y as i128 - b.start.y as i128;
    let wx = b.start.x as i128 - a.start.x as i128;
    let wy = b.start.y as i128 - a.start.y as i128;
    let ghost k: int = 2 * COORD_LIMIT;
    proof {
        lemma_cross_bound(s1x as int, s1y as int, s2x as int, s2y as int, k, k);
        lemma_cross_bound(wx as int, wy as int, s2x as int, s2y as int, k, k);
        lemma_cross_bound(wx as int, wy as int, s1x as int, s1y as int, k, k);
    }
    let den = s1x * s2y - s1y * s2x;
    let t = wx * s2y - wy * s2x;
    let u = wx * s1y - wy * s1x;
    if den == 0 {
        return None;
    }
    let (t, u, den) = if den > 0 {
        (t, u, den)
    } else {
        (-t, -u, -den)
    };
    if 0 <= t && t <= den && 0 <= u && u <= den {
        Some(Crossing { t, u, den })
    } else {
        None
    }
}

/// The point where `a` and `b` meet, or `None` where they are parallel or do not meet.
pub fn intersect(a: &Segment, b: &Segment) -> (r: Option<RatPoint>)
    requires
        a.within(COORD_LIMIT as int),
        b.within(COORD_LIMIT as int),
    ensures
        rat_view(r) == intersect_spec(*a, *b),
{
    match crossing(a, b) {
        None => None,
        Some(c) => Some(point_at(a, &c)),
    }
}

/// The point at parameter `c.t / c.den` on `a`.
pub fn point_at(a: &Segment, c: &Crossing) -> (r: RatPoint)
    requires
        a.within(COORD_LIMIT as int),
        0 <= c.t <= c.den,
        c.den <= 8 * COORD_LIMIT * COORD_LIMIT,
    ensures
        r@ == point_on(*a, c.t as int, c.den as int),
{
    let s1x = a.end.x as i128 - a.start.x as i128;
    let s1y = a.end.y as i128 - a.start.y as i128;
    let ghost kd: int = 8 * COORD_LIMIT * COORD_LIMIT;
    proof {
        lemma_mul_bound(a.start.x as int, c.den as int, COORD_LIMIT as int, kd);
        lemma_mul_bound(a.start.y as int, c.den as int, COORD_LIMIT as int, kd);
        lemma_mul_bound(c.t as int, s1x as int, kd, 2 * COORD_LIMIT);
        lemma_mul_bound(c.t as int, s1y as int, kd, 2 * COORD_LIMIT);
    }
    RatPoint {
        x: (a.start.x as i128) * c.den + c.t * s1x,
        y: (a.start.y as i128) * c.den + c.t * s1y,
        den: c.den,
    }
}

/// Cramer's rule for two segments, and how the cross products change sign.
proof fn lemma_cramer(wx: int, wy: int, ax: int, ay: int, bx: int, by_: int)
    ensures
        cross(wx, wy, bx, by_) * ax - cross(wx, wy, ax, ay) * bx == cross(ax, ay, bx, by_) * wx,
        cross(wx, wy, bx, by_) * ay - cross(wx, wy, ax, ay) * by_ == cross(ax, ay, bx, by_) * wy,
        cross(-wx, -wy, ax, ay) == -cross(wx, wy, ax, ay),
        cross(-wx, -wy, bx, by_) == -cross(wx, wy, bx, by_),
        cross(bx, by_, ax, ay) == -cross(ax, ay, bx, by_),
{
    assert((wx * by_ - wy * bx) * ax - (wx * ay - wy * ax) * bx == (ax * by_ - ay * bx) * wx)
        by (nonlinear_arith);
    assert((wx * by_ - wy * bx) * ay - (wx * ay - wy * ax) * by_ == (ax * by_ - ay * bx) * wy)
        by (nonlinear_arith);
    assert((-wx) * ay - (-wy) * ax == -(wx * ay - wy * ax)) by (nonlinear_arith);
    assert((-wx) * by_ - (-wy) * bx == -(wx * by_ - wy * bx)) by (nonlinear_arith);
}

/// Where two segments cross, the point at the crossing's parameter on the first is the point at
/// its parameter on the second, over the same denominator.
pub proof fn lemma_crossing_on_both(a: Segment, b: Segment)
    ensures
        crossing_spec(a, b) matches Some(c) ==> point_on(a, c.0, c.2) == point_on(b, c.1, c.2),
{
    let wx = b.start.x - a.start.x;
    let wy = b.start.y - a.start.y;
    lemma_cramer(wx, wy, a.dx(), a.dy(), b.dx(), b.dy());
    let d = cross(a.dx(), a.dy(), b.dx(), b.dy());
    let t = cross(wx, wy, b.dx(), b.dy());
    let u = cross(wx, wy, a.dx(), a.dy());
    let (p0x, p0y, p2x, p2y) = (a.start.x as int, a.start.y as int, b.start.x as int, b.start.y as int);
    let (s1x, s1y, s2x, s2y) = (a.dx(), a.dy(), b.dx(), b.dy());
    assert(p0x * d + t * s1x == p2x * d + u * s2x) by (nonlinear_arith)
        requires
            t * s1x - u * s2x == d * wx,
            wx == p2x - p0x,
    ;
    assert(p0y * d + t * s1y == p2y * d + u * s2y) by (nonlinear_arith)
        requires
            t * s1y - u * s2y == d * wy,
            wy == p2y - p0y,
    ;
    assert(p0x * (-d) + (-t) * s1x == -(p0x * d + t * s1x)) by (nonlinear_arith);
    assert(p0y * (-d) + (-t) * s1y == -(p0y * d + t * s1y)) by (nonlinear_arith);
    assert(p2x * (-d) + (-u) * s2x == -(p2x * d + u * s2x)) by (nonlinear_arith);
    assert(p2y * (-d) + (-u) * s2y == -(p2y * d + u * s2y)) by (nonlinear_arith);
}

/// Intersection does not depend on the order of its arguments: `a` meets `b` exactly where `b`
/// meets `a`, and where one has no intersection point neither has the other.
pub proof fn lemma_intersect_symmetric(a: Segment, b: Segment)
    ensures
        intersect_spec(a, b) == intersect_spec(b, a),
{
    let wx = b.start.x - a.start.x;
    let wy = b.start.y - a.start.y;
    lemma_cramer(wx, wy, a.dx(), a.dy(), b.dx(), b.dy());
    assert(a.start.x - b.start.x == -wx);
    assert(a.start.y - b.start.y == -wy);
    lemma_crossing_on_both(a, b);
}

/// Two parallel segments that do not lie on one line never meet.
pub proof fn lemma_parallel_disjoint(a: Segment, b: Segment)
    requires
        cross(a.dx(), a.dy(), b.dx(), b.dy()) == 0,
        cross(b.start.x - a.start.x, b.start.y - a.start.y, a.dx(), a.dy()) != 0,
    ensures
        intersect_spec(a, b) is None,
        intersect_spec(b, a) is None,
{
    lemma_intersect_symmetric(a, b);
}

/// Largest absolute coordinate of a corner of an occluder, or of a light: a scene of this size
/// lies far inside the reach of every ray (about `2^31`), and the exact products the tracing
/// forms for it (at most about `2^110`) fit in `i128`.
pub const SCENE_LIMIT: i64 = 1048576;

/// An axis-aligned rectangle: position `(x, y)` and size `(w, h)`.
#[derive(Clone, Copy, Debug, PartialEq, Eq, Structural)]
pub struct Rect {
    pub x: i64,
    pub y: i64,
    pub w: i64,
    pub h: i64,
}

impl Rect {
    /// A rectangle that occludes: positive size, all corners in the scene.
    pub open spec fn wf(self) -> bool {
        &&& self.w > 0
        &&& self.h > 0
        &&& -SCENE_LIMIT <= self.x && self.x + self.w <= SCENE_LIMIT
        &&& -SCENE_LIMIT <= self.y && self.y + self.h <= SCENE_LIMIT
    }

    pub fn new(x: i64, y: i64, w: i64, h: i64) -> (r: Rect)
        ensures
            r == (Rect { x, y, w, h }),
    {
        Rect { x, y, w, h }
    }

    /// The corners, clockwise from the position (with `y` growing downwards).
    pub open spec fn corners(self) -> Seq<Point> {
        seq![
            Point { x: self.x, y: self.y },
            Point { x: (self.x + self.w) as i64, y: self.y },
            Point { x: (self.x + self.w) as i64, y: (self.y + self.h) as i64 },
            Point { x: self.x, y: (self.y + self.h) as i64 },
        ]
    }

    /// The sides, each from one corner to the next, the last back to the first.
    pub open spec fn sides(self) -> Seq<Segment> {
        let c = self.corners();
        seq![
            Segment { start: c[0], end: c[1] },
            Segment { start: c[1], end: c[2] },
            Segment { start: c[2], end: c[3] },
            Segment { start: c[3], end: c[0] },
        ]
    }

    /// Whether `(px / den, py / den)` lies strictly inside this rectangle, for `den > 0`.
    pub open spec fn strictly_contains(self, p: (int, int, int)) -> bool {
        &&& self.x * p.2 < p.0 < (self.x + self.w) * p.2
        &&& self.y * p.2 < p.1 < (self.y + self.h) * p.2
    }

    pub fn vertices(&self) -> (r: [Point; 4])
        requires
            self.wf(),
        ensures
            r@ == self.corners(),
    {
        let r = [
            Point { x: self.x, y: self.y },
            Point { x: self.x + self.w, y: self.y },
            Point { x: self.x + self.w, y: self.y + self.h },
            Point { x: self.x, y: self.y + self.h },
        ];
        assert(r@ =~= self.corners());
        r
    }

    pub fn edges(&self) -> (r: [Segment; 4])
        requires
            self.wf(),
        ensures
            r@ == self.sides(),
    {
        let p = self.vertices();
        let r = [
            Segment::new(p[0], p[1]),
            Segment::new(p[1], p[2]),
            Segment::new(p[2], p[3]),
            Segment::new(p[3], p[0]),
        ];
        assert(r@ =~= self.sides());
        r
    }
}

} // verus!
