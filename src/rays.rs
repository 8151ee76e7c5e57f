use vstd::prelude::*;
use vstd::seq_lib::to_multiset_insert;

use crate::geometry::{
    Point, Rect, Segment, cross, lemma_cross_bound, COORD_LIMIT, SCENE_LIMIT,
};

verus! {

/// How far every ray reaches from its start: `2^31 - 1` units, rounded to whole units.
pub const RAY_LENGTH: i64 = 2147483647;

/// The fan around a vertex turns by the angle whose tangent is `1 / FAN_SCALE` (about 0.01 rad).
pub const FAN_SCALE: i64 = 100;

/// Largest absolute component of a ray direction.
pub const DIR_LIMIT: i64 = 268435456;

/// `4 * RAY_LENGTH^2 * c^2`: four times the square of `RAY_LENGTH * c`.
pub open spec fn reach_sq4(c: int) -> int {
    4 * (RAY_LENGTH * RAY_LENGTH) * (c * c)
}

/// Whether `r` is `RAY_LENGTH * c / sqrt(n)` rounded to the nearest whole number (halves
/// upwards), for `c >= 0` and `n > 0`: `r - 1/2 <= RAY_LENGTH * c / sqrt(n) < r + 1/2`, squared
/// and multiplied through by `4 * n`.
pub open spec fn rounds_reach(r: int, c: int, n: int) -> bool {
    &&& r >= 0
    &&& r == 0 || n * ((2 * r - 1) * (2 * r - 1)) <= reach_sq4(c)
    &&& reach_sq4(c) < n * ((2 * r + 1) * (2 * r + 1))
}

/// `RAY_LENGTH * c / sqrt(n)`, rounded to the nearest whole number.
pub open spec fn reach(c: int, n: int) -> int {
    choose|r: int| rounds_reach(r, c, n)
}

/// The component of the far end's offset along a direction component `d`, where `n` is the
/// squared length of the direction: `RAY_LENGTH * d / sqrt(n)`, rounded, with the sign of `d`.
pub open spec fn reach_offset(d: int, n: int) -> int {
    if d >= 0 {
        reach(d, n)
    } else {
        -reach(-d, n)
    }
}

/// The ray from `o` along `(dx, dy)`: a segment whose far end lies `RAY_LENGTH` away along the
/// direction, each coordinate rounded to a whole unit.
pub open spec fn ray_spec(o: Point, dx: int, dy: int) -> Segment {
    let n = dx * dx + dy * dy;
    Segment {
        start: o,
        end: Point { x: (o.x + reach_offset(dx, n)) as i64, y: (o.y + reach_offset(dy, n)) as i64 },
    }
}

/// Whether `r` is small enough that the rounded reach is at least `r`.
spec fn reach_at_least(r: int, c: int, n: int) -> bool {
    r == 0 || n * ((2 * r - 1) * (2 * r - 1)) <= reach_sq4(c)
}

proof fn lemma_reach_search(lo: int, hi: int, c: int, n: int)
    requires
        0 <= lo < hi,
        reach_at_least(lo, c, n),
        !reach_at_least(hi, c, n),
    ensures
        exists|r: int| rounds_reach(r, c, n),
    decreases hi - lo,
{
    if hi == lo + 1 {
        assert(rounds_reach(lo, c, n));
    } else {
        let mid = lo + (hi - lo) / 2;
        if reach_at_least(mid, c, n) {
            lemma_reach_search(mid, hi, c, n);
        } else {
            lemma_reach_search(lo, mid, c, n);
        }
    }
}

/// The rounded reach exists and is unique.
pub proof fn lemma_reach(c: int, n: int)
    requires
        0 <= c,
        c * c <= n,
        n > 0,
    ensures
        rounds_reach(reach(c, n), c, n),
        forall|r: int| #[trigger] rounds_reach(r, c, n) ==> r == reach(c, n),
        reach(c, n) <= RAY_LENGTH + 1,
{
    let l = RAY_LENGTH as int;
    assert(!reach_at_least(l + 2, c, n)) by {
        assert(reach_sq4(c) < n * ((2 * (l + 2) - 1) * (2 * (l + 2) - 1))) by (nonlinear_arith)
            requires
                c * c <= n,
                n > 0,
                l == 2147483647,
        ;
    }
    lemma_reach_search(0, l + 2, c, n);
    let r0 = reach(c, n);
    assert forall|r: int| #[trigger] rounds_reach(r, c, n) implies r == r0 by {
        lemma_rounds_unique(r, r0, c, n);
    }
    if r0 > l + 1 {
        let x = reach_sq4(c);
        let (a, b) = (2 * (l + 2) - 1, 2 * r0 - 1);
        assert(a * a <= b * b) by (nonlinear_arith)
            requires
                0 <= a <= b,
        ;
        assert(n * (a * a) <= n * (b * b)) by (nonlinear_arith)
            requires
                a * a <= b * b,
                n > 0,
        ;
        assert(reach_at_least(l + 2, c, n));
    }
}

proof fn lemma_rounds_unique(r1: int, r2: int, c: int, n: int)
    requires
        n > 0,
        rounds_reach(r1, c, n),
        rounds_reach(r2, c, n),
    ensures
        r1 == r2,
{
    if r1 < r2 {
        assert(n * ((2 * r1 + 1) * (2 * r1 + 1)) <= n * ((2 * r2 - 1) * (2 * r2 - 1))) by (nonlinear_arith)
            requires
                0 <= r1 < r2,
                n > 0,
        ;
    } else if r2 < r1 {
        assert(n * ((2 * r2 + 1) * (2 * r2 + 1)) <= n * ((2 * r1 - 1) * (2 * r1 - 1))) by (nonlinear_arith)
            requires
                0 <= r2 < r1,
                n > 0,
        ;
    }
}

/// A ray from a point of the scene along a nonzero direction within the limits: it starts at
/// the point, its far end lies within one unit of `RAY_LENGTH` away and outside the scene, and
/// all its coordinates are within the solver's range.
pub proof fn lemma_ray_spec(o: Point, dx: int, dy: int)
    requires
        o.within(SCENE_LIMIT as int),
        -DIR_LIMIT <= dx <= DIR_LIMIT,
        -DIR_LIMIT <= dy <= DIR_LIMIT,
        dx != 0 || dy != 0,
    ensures
        ({
            let r = ray_spec(o, dx, dy);
            &&& r.start == o
            &&& r.dx() == reach_offset(dx, dx * dx + dy * dy)
            &&& r.dy() == reach_offset(dy, dx * dx + dy * dy)
            &&& (RAY_LENGTH - 1) * (RAY_LENGTH - 1) <= r.dx() * r.dx() + r.dy() * r.dy()
            &&& r.dx() * r.dx() + r.dy() * r.dy() <= (RAY_LENGTH + 1) * (RAY_LENGTH + 1)
            &&& r.within(COORD_LIMIT as int)
            &&& !r.end.within(SCENE_LIMIT as int)
            &&& dir_of(r) != (0int, 0int)
        }),
{
    let n = dx * dx + dy * dy;
    let (cx, cy) = (if dx >= 0 { dx } else { -dx }, if dy >= 0 { dy } else { -dy });
    assert(cx * cx == dx * dx && cy * cy == dy * dy) by (nonlinear_arith)
        requires
            cx == dx || cx == -dx,
            cy == dy || cy == -dy,
    ;
    assert(cx * cx <= n && cy * cy <= n && n > 0) by (nonlinear_arith)
        requires
            n == cx * cx + cy * cy,
            cx != 0 || cy != 0,
    ;
    lemma_reach(cx, n);
    lemma_reach(cy, n);
    let (rx, ry) = (reach(cx, n), reach(cy, n));
    lemma_reach_length(rx, ry, cx, cy, n);
    let ex = reach_offset(dx, n);
    let ey = reach_offset(dy, n);
    assert(ex * ex == rx * rx && ey * ey == ry * ry) by (nonlinear_arith)
        requires
            ex == rx || ex == -rx,
            ey == ry || ey == -ry,
    ;
    let l = RAY_LENGTH as int;
    if -0x20_0000 <= ex <= 0x20_0000 && -0x20_0000 <= ey <= 0x20_0000 {
        assert(ex * ex + ey * ey <= 0x800_0000_0000) by (nonlinear_arith)
            requires
                -0x20_0000 <= ex <= 0x20_0000,
                -0x20_0000 <= ey <= 0x20_0000,
        ;
    }
    if ex == 0 && ey == 0 {
        assert(ex * ex + ey * ey == 0);
    }
}

/// The far end of a ray lies within one unit of `RAY_LENGTH` from its start: from the rounding
/// of each coordinate, `(L - 1)^2 <= rx^2 + ry^2 <= (L + 1)^2`.
proof fn lemma_reach_length(rx: int, ry: int, cx: int, cy: int, n: int)
    requires
        n == cx * cx + cy * cy,
        n > 0,
        rounds_reach(rx, cx, n),
        rounds_reach(ry, cy, n),
    ensures
        (RAY_LENGTH - 1) * (RAY_LENGTH - 1) <= rx * rx + ry * ry <= (RAY_LENGTH + 1) * (RAY_LENGTH
            + 1),
{
    let l = RAY_LENGTH as int;
    let xx = reach_sq4(cx);
    let yy = reach_sq4(cy);
    assert(xx >= 0 && yy >= 0) by (nonlinear_arith)
        requires
            xx == 4 * (l * l) * (cx * cx),
            yy == 4 * (l * l) * (cy * cy),
    ;
    // Each coordinate: n * (4r^2 - 4r) <= 4 L^2 c^2 < n * (4r^2 + 4r + 1).
    assert(n * (4 * (rx * rx) - 4 * rx) <= xx && xx < n * (4 * (rx * rx) + 4 * rx + 1)) by (nonlinear_arith)
        requires
            rx >= 0,
            rx == 0 || n * ((2 * rx - 1) * (2 * rx - 1)) <= xx,
            xx < n * ((2 * rx + 1) * (2 * rx + 1)),
            xx >= 0,
            n > 0,
    ;
    assert(n * (4 * (ry * ry) - 4 * ry) <= yy && yy < n * (4 * (ry * ry) + 4 * ry + 1)) by (nonlinear_arith)
        requires
            ry >= 0,
            ry == 0 || n * ((2 * ry - 1) * (2 * ry - 1)) <= yy,
            yy < n * ((2 * ry + 1) * (2 * ry + 1)),
            yy >= 0,
            n > 0,
    ;
    assert(xx + yy == 4 * (l * l) * n) by (nonlinear_arith)
        requires
            xx == 4 * (l * l) * (cx * cx),
            yy == 4 * (l * l) * (cy * cy),
            n == cx * cx + cy * cy,
    ;
    let sq = rx * rx + ry * ry;
    let t = rx + ry;
    assert(sq - t <= l * l && 2 * (l * l) <= 2 * sq + 2 * t) by (nonlinear_arith)
        requires
            n * (4 * (rx * rx) - 4 * rx) + n * (4 * (ry * ry) - 4 * ry) <= 4 * (l * l) * n,
            4 * (l * l) * n < n * (4 * (rx * rx) + 4 * rx + 1) + n * (4 * (ry * ry) + 4 * ry + 1),
            sq == rx * rx + ry * ry,
            t == rx + ry,
            n > 0,
    ;
    assert(t * t <= 2 * sq) by (nonlinear_arith)
        requires
            sq == rx * rx + ry * ry,
            t == rx + ry,
    ;
    assert(sq <= (l + 1) * (l + 1)) by (nonlinear_arith)
        requires
            sq - t <= l * l,
            t * t <= 2 * sq,
            t >= 0,
            l == 2147483647,
    ;
    assert((l - 1) * (l - 1) <= sq) by (nonlinear_arith)
        requires
            2 * (l * l) <= 2 * sq + 2 * t,
            t * t <= 2 * sq,
            t >= 0,
            l == 2147483647,
    ;
}

/// The directions of the three rays cast past a vertex at offset `(dx, dy)` from the light:
/// turned clockwise by the fan angle, straight at the vertex (scaled by `FAN_SCALE`), and turned
/// counterclockwise by the fan angle. The turned ones are the straight one minus and plus its
/// perpendicular `(-dy, dx)`, which is `1 / FAN_SCALE` as long.
pub open spec fn fan(dx: int, dy: int) -> Seq<(int, int)> {
    seq![
        (FAN_SCALE * dx + dy, FAN_SCALE * dy - dx),
        (FAN_SCALE * dx, FAN_SCALE * dy),
        (FAN_SCALE * dx - dy, FAN_SCALE * dy + dx),
    ]
}

/// The direction from `light` toward `v`. Where `v` is the light itself the offset is zero, whose
/// angle `atan2` takes as 0; the direction toward the light from there, the angle pi, is `(-1, 0)`.
pub open spec fn toward(light: Point, v: Point) -> (int, int) {
    if v == light {
        (-1, 0)
    } else {
        (v.x - light.x, v.y - light.y)
    }
}

/// The ray directions cast past vertex `v`.
pub open spec fn vertex_dirs(light: Point, v: Point) -> Seq<(int, int)> {
    fan(toward(light, v).0, toward(light, v).1)
}

/// The ray directions cast past the corners of `r`, corner by corner.
pub open spec fn occluder_dirs(light: Point, r: Rect) -> Seq<(int, int)> {
    let c = r.corners();
    vertex_dirs(light, c[0]) + vertex_dirs(light, c[1]) + vertex_dirs(light, c[2])
        + vertex_dirs(light, c[3])
}

/// The ray directions cast past every occluder, in the order of the occluders.
pub open spec fn scene_dirs(light: Point, occs: Seq<Rect>) -> Seq<(int, int)>
    decreases occs.len(),
{
    if occs.len() == 0 {
        seq![]
    } else {
        scene_dirs(light, occs.drop_last()) + occluder_dirs(light, occs.last())
    }
}

/// The rays from `light` along `dirs`.
pub open spec fn rays_spec(light: Point, dirs: Seq<(int, int)>) -> Seq<Segment> {
    dirs.map_values(|d: (int, int)| ray_spec(light, d.0, d.1))
}

/// The rays cast from `light` past every occluder.
pub open spec fn scene_rays(light: Point, occs: Seq<Rect>) -> Seq<Segment> {
    rays_spec(light, scene_dirs(light, occs))
}

/// Whether the direction `(dx, dy)` points into the upper half plane, angles in `(0, pi]`.
pub open spec fn upper(dx: int, dy: int) -> bool {
    dy > 0 || (dy == 0 && dx < 0)
}

/// Whether the angle of `(ax, ay)` is at least that of `(bx, by)`, angles taken in `(-pi, pi]`
/// as `atan2` gives them.
pub open spec fn angle_ge(ax: int, ay: int, bx: int, by_: int) -> bool {
    if upper(ax, ay) != upper(bx, by_) {
        upper(ax, ay)
    } else {
        cross(bx, by_, ax, ay) >= 0
    }
}

/// Whether the direction of `a` has an angle at least that of the direction of `b`.
pub open spec fn dir_ge(a: Segment, b: Segment) -> bool {
    angle_ge(a.dx(), a.dy(), b.dx(), b.dy())
}

/// Whether the directions of `s` never increase from one segment to the next.
pub open spec fn descending(s: Seq<Segment>) -> bool {
    forall|i: int| 0 <= i < s.len() - 1 ==> dir_ge(#[trigger] s[i], s[i + 1])
}

/// How many segments at the front of `s` have a direction at least that of `x`.
pub open spec fn lead(s: Seq<Segment>, x: Segment) -> nat
    decreases s.len(),
{
    if s.len() == 0 {
        0
    } else if dir_ge(s[0], x) {
        1 + lead(s.drop_first(), x)
    } else {
        0
    }
}

/// `x` put into `s` after the segments at the front whose direction is at least its own.
pub open spec fn insert_desc(s: Seq<Segment>, x: Segment) -> Seq<Segment> {
    s.insert(lead(s, x) as int, x)
}

/// `s` sorted by direction, descending; segments of equal angle keep their order.
pub open spec fn sort_desc(s: Seq<Segment>) -> Seq<Segment>
    decreases s.len(),
{
    if s.len() == 0 {
        s
    } else {
        insert_desc(sort_desc(s.drop_last()), s.last())
    }
}

pub proof fn lemma_angle_total(ax: int, ay: int, bx: int, by_: int)
    ensures
        angle_ge(ax, ay, bx, by_) || angle_ge(bx, by_, ax, ay),
{
    assert(cross(bx, by_, ax, ay) == -cross(ax, ay, bx, by_)) by (nonlinear_arith);
}

proof fn lemma_lead(s: Seq<Segment>, x: Segment)
    ensures
        lead(s, x) <= s.len(),
        forall|j: int| 0 <= j < lead(s, x) ==> dir_ge(#[trigger] s[j], x),
        lead(s, x) < s.len() ==> !dir_ge(s[lead(s, x) as int], x),
    decreases s.len(),
{
    if s.len() > 0 && dir_ge(s[0], x) {
        let t = s.drop_first();
        lemma_lead(t, x);
        assert forall|j: int| 0 <= j < lead(s, x) implies dir_ge(#[trigger] s[j], x) by {
            if j > 0 {
                assert(s[j] == t[j - 1]);
            }
        }
    }
}

proof fn lemma_lead_unique(s: Seq<Segment>, x: Segment, p: int)
    requires
        0 <= p <= s.len(),
        forall|j: int| 0 <= j < p ==> dir_ge(#[trigger] s[j], x),
        p < s.len() ==> !dir_ge(s[p], x),
    ensures
        lead(s, x) == p,
    decreases s.len(),
{
    if p > 0 {
        let t = s.drop_first();
        assert forall|j: int| 0 <= j < p - 1 implies dir_ge(#[trigger] t[j], x) by {
            assert(t[j] == s[j + 1]);
        }
        if p - 1 < t.len() {
            assert(t[p - 1] == s[p]);
        }
        assert(dir_ge(s[0], x));
        lemma_lead_unique(t, x, p - 1);
    }
}

/// Putting a segment into a descending sequence by `insert_desc` keeps it descending.
pub proof fn lemma_insert_desc(s: Seq<Segment>, x: Segment)
    requires
        descending(s),
    ensures
        descending(insert_desc(s, x)),
        insert_desc(s, x).to_multiset() == s.to_multiset().insert(x),
{
    lemma_lead(s, x);
    let p = lead(s, x) as int;
    let n = insert_desc(s, x);
    to_multiset_insert(s, p, x);
    assert forall|i: int| 0 <= i < n.len() - 1 implies dir_ge(#[trigger] n[i], n[i + 1]) by {
        if i + 1 < p {
            assert(n[i] == s[i] && n[i + 1] == s[i + 1]);
        } else if i + 1 == p {
            assert(n[i] == s[i] && n[i + 1] == x);
        } else if i == p {
            assert(n[i] == x && n[i + 1] == s[p]);
            lemma_angle_total(s[p].dx(), s[p].dy(), x.dx(), x.dy());
        } else {
            assert(n[i] == s[i - 1] && n[i + 1] == s[i]);
        }
    }
}

/// `sort_desc` sorts: its result is descending and holds the same segments.
pub proof fn lemma_sort_desc(s: Seq<Segment>)
    ensures
        descending(sort_desc(s)),
        sort_desc(s).to_multiset() == s.to_multiset(),
    decreases s.len(),
{
    broadcast use vstd::seq_lib::group_to_multiset_ensures;

    if s.len() > 0 {
        lemma_sort_desc(s.drop_last());
        lemma_insert_desc(sort_desc(s.drop_last()), s.last());
        assert(s == s.drop_last().push(s.last()));
    }
}

/// Whether the direction of `a` has an angle at least that of the direction of `b`.
pub fn direction_ge(a: &Segment, b: &Segment) -> (r: bool)
    requires
        a.within(COORD_LIMIT as int),
        b.within(COORD_LIMIT as int),
    ensures
        r == dir_ge(*a, *b),
{
    let ax = a.end.x as i128 - a.start.x as i128;
    let ay = a.end.y as i128 - a.start.y as i128;
    let bx = b.end.x as i128 - b.start.x as i128;
    let by_ = b.end.y as i128 - b.start.y as i128;
    let au = ay > 0 || (ay == 0 && ax < 0);
    let bu = by_ > 0 || (by_ == 0 && bx < 0);
    if au != bu {
        au
    } else {
        proof {
            lemma_cross_bound(bx as int, by_ as int, ax as int, ay as int, 2 * COORD_LIMIT, 2 * COORD_LIMIT);
        }
        bx * ay - by_ * ax >= 0
    }
}

/// Sorts `rays` by direction, descending, keeping rays of equal angle in their order.
pub fn sort_rays(rays: &mut Vec<Segment>)
    requires
        forall|i: int| 0 <= i < old(rays).len() ==> (#[trigger] old(rays)[i]).within(COORD_LIMIT as int),
    ensures
        final(rays)@ == sort_desc(old(rays)@),
{
    let mut out: Vec<Segment> = Vec::new();
    let mut i: usize = 0;
    while i < rays.len()
        invariant
            i <= rays.len(),
            forall|k: int| 0 <= k < rays.len() ==> (#[trigger] rays[k]).within(COORD_LIMIT as int),
            out@ == sort_desc(rays@.take(i as int)),
            forall|k: int| 0 <= k < out.len() ==> (#[trigger] out[k]).within(COORD_LIMIT as int),
        decreases rays.len() - i,
    {
        let x = rays[i];
        let mut p: usize = 0;
        while p < out.len()
            invariant
                p <= out.len(),
                x.within(COORD_LIMIT as int),
                forall|k: int| 0 <= k < out.len() ==> (#[trigger] out[k]).within(COORD_LIMIT as int),
                forall|j: int| 0 <= j < p ==> dir_ge(#[trigger] out[j], x),
            ensures
                p <= out.len(),
                forall|j: int| 0 <= j < p ==> dir_ge(#[trigger] out[j], x),
                p < out.len() ==> !dir_ge(out[p as int], x),
            decreases out.len() - p,
        {
            if !direction_ge(&out[p], &x) {
                break;
            }
            p = p + 1;
        }
        proof {
            lemma_lead_unique(out@, x, p as int);
            assert(rays@.take(i + 1 as int).drop_last() == rays@.take(i as int));
        }
        out.insert(p, x);
        i = i + 1;
    }
    proof {
        assert(rays@.take(i as int) == rays@);
    }
    *rays = out;
}

/// `RAY_LENGTH * c / sqrt(n)`, rounded to the nearest whole number.
fn reach_of(c: i128, n: i128) -> (r: i128)
    requires
        0 <= c <= DIR_LIMIT,
        c * c <= n,
        0 < n <= 2 * DIR_LIMIT * DIR_LIMIT,
    ensures
        r == reach(c as int, n as int),
        0 <= r <= RAY_LENGTH + 1,
{
    proof {
        lemma_reach(c as int, n as int);
        crate::geometry::lemma_mul_bound(c as int, c as int, DIR_LIMIT as int, DIR_LIMIT as int);
    }
    let l = RAY_LENGTH as i128;
    proof {
        crate::geometry::lemma_mul_bound(4 * (l * l), c * c, 0x1_0000_0000_0000_0000, 0x100_0000_0000_0000);
    }
    let target = 4 * (l * l) * (c * c);
    let mut lo: i128 = 0;
    let mut hi: i128 = l + 2;
    proof {
        assert(!reach_at_least(hi as int, c as int, n as int)) by (nonlinear_arith)
            requires
                c * c <= n,
                n > 0,
                hi == RAY_LENGTH + 2,
        ;
    }
    while hi - lo > 1
        invariant
            0 <= lo < hi <= RAY_LENGTH + 2,
            0 < n <= 2 * DIR_LIMIT * DIR_LIMIT,
            target == reach_sq4(c as int),
            reach_at_least(lo as int, c as int, n as int),
            !reach_at_least(hi as int, c as int, n as int),
        decreases hi - lo,
    {
        let mid = lo + (hi - lo) / 2;
        proof {
            let k: int = 0x1_0000_0004;
            let sq = (2 * mid - 1) * (2 * mid - 1);
            crate::geometry::lemma_mul_bound(2 * mid - 1, 2 * mid - 1, k, k);
            assert(0 <= sq) by (nonlinear_arith)
                requires
                    sq == (2 * mid - 1) * (2 * mid - 1),
            ;
            crate::geometry::lemma_mul_bound(n as int, sq, 0x2_0000_0000_0000_00, k * k);
            assert(0x2_0000_0000_0000_00 * (k * k) < 0x7fff_ffff_ffff_ffff_ffff_ffff_ffff_ffff);
        }
        if mid == 0 || n * ((2 * mid - 1) * (2 * mid - 1)) <= target {
            lo = mid;
        } else {
            hi = mid;
        }
    }
    proof {
        assert(rounds_reach(lo as int, c as int, n as int));
    }
    lo
}

impl Segment {
    /// The ray from `origin` along `(dx, dy)`: a segment whose far end lies `RAY_LENGTH` away
    /// along the direction, each coordinate rounded to a whole unit, which is outside the scene.
    pub fn ray(origin: Point, dx: i64, dy: i64) -> (r: Segment)
        requires
            origin.within(SCENE_LIMIT as int),
            -DIR_LIMIT <= dx <= DIR_LIMIT,
            -DIR_LIMIT <= dy <= DIR_LIMIT,
            dx != 0 || dy != 0,
        ensures
            r == ray_spec(origin, dx as int, dy as int),
            (RAY_LENGTH - 1) * (RAY_LENGTH - 1) <= r.dx() * r.dx() + r.dy() * r.dy(),
            r.dx() * r.dx() + r.dy() * r.dy() <= (RAY_LENGTH + 1) * (RAY_LENGTH + 1),
            r.within(COORD_LIMIT as int),
            !r.end.within(SCENE_LIMIT as int),
    {
        proof {
            lemma_ray_spec(origin, dx as int, dy as int);
            crate::geometry::lemma_mul_bound(dx as int, dx as int, DIR_LIMIT as int, DIR_LIMIT as int);
            crate::geometry::lemma_mul_bound(dy as int, dy as int, DIR_LIMIT as int, DIR_LIMIT as int);
            assert(dx * dx >= 0 && dy * dy >= 0) by (nonlinear_arith);
        }
        let (wx, wy) = (dx as i128, dy as i128);
        let n = wx * wx + wy * wy;
        let cx = if wx >= 0 { wx } else { -wx };
        let cy = if wy >= 0 { wy } else { -wy };
        proof {
            assert(cx * cx == wx * wx && cy * cy == wy * wy) by (nonlinear_arith)
                requires
                    cx == wx || cx == -wx,
                    cy == wy || cy == -wy,
            ;
            assert(n > 0) by (nonlinear_arith)
                requires
                    n == wx * wx + wy * wy,
                    wx != 0 || wy != 0,
            ;
        }
        let rx = reach_of(cx, n);
        let ry = reach_of(cy, n);
        let ex = if wx >= 0 { rx } else { -rx };
        let ey = if wy >= 0 { ry } else { -ry };
        let end = Point { x: origin.x + ex as i64, y: origin.y + ey as i64 };
        Segment { start: origin, end }
    }
}

proof fn lemma_rays_append(light: Point, a: Seq<(int, int)>, b: Seq<(int, int)>)
    ensures
        rays_spec(light, a + b) == rays_spec(light, a) + rays_spec(light, b),
{
    assert(rays_spec(light, a + b) =~= rays_spec(light, a) + rays_spec(light, b));
}

/// Appends to `rays` the three rays cast from `light` past the vertex `v`.
fn cast_fan(rays: &mut Vec<Segment>, light: Point, v: Point)
    requires
        light.within(SCENE_LIMIT as int),
        v.within(SCENE_LIMIT as int),
    ensures
        final(rays)@ == old(rays)@ + rays_spec(light, vertex_dirs(light, v)),
{
    let (dx, dy) = if v == light {
        (-1i64, 0i64)
    } else {
        (v.x - light.x, v.y - light.y)
    };
    rays.push(Segment::ray(light, FAN_SCALE * dx + dy, FAN_SCALE * dy - dx));
    rays.push(Segment::ray(light, FAN_SCALE * dx, FAN_SCALE * dy));
    rays.push(Segment::ray(light, FAN_SCALE * dx - dy, FAN_SCALE * dy + dx));
    assert(final(rays)@ =~= old(rays)@ + rays_spec(light, vertex_dirs(light, v)));
}

/// Appends to `rays` the rays cast from `light` past each corner of `shape`.
pub fn cast_past(rays: &mut Vec<Segment>, light: Point, shape: &Rect)
    requires
        light.within(SCENE_LIMIT as int),
        shape.wf(),
    ensures
        final(rays)@ == old(rays)@ + rays_spec(light, occluder_dirs(light, *shape)),
{
    let ghost start = rays@;
    let c = shape.vertices();
    let c0 = c[0];
    let c1 = c[1];
    let c2 = c[2];
    let c3 = c[3];
    cast_fan(rays, light, c0);
    cast_fan(rays, light, c1);
    cast_fan(rays, light, c2);
    cast_fan(rays, light, c3);
    proof {
        let c = shape.corners();
        let (d0, d1, d2, d3) = (
            vertex_dirs(light, c[0]),
            vertex_dirs(light, c[1]),
            vertex_dirs(light, c[2]),
            vertex_dirs(light, c[3]),
        );
        lemma_rays_append(light, d0, d1);
        lemma_rays_append(light, d0 + d1, d2);
        lemma_rays_append(light, d0 + d1 + d2, d3);
        assert(rays@ =~= start + rays_spec(light, occluder_dirs(light, *shape)));
    }
}

/// The rays cast from `light` past every corner of every occluder, occluder by occluder.
pub fn cast_rays(light: Point, occluders: &Vec<Rect>) -> (r: Vec<Segment>)
    requires
        light.within(SCENE_LIMIT as int),
        forall|i: int| 0 <= i < occluders.len() ==> (#[trigger] occluders[i]).wf(),
    ensures
        r@ == scene_rays(light, occluders@),
        forall|i: int| 0 <= i < r.len() ==> (#[trigger] r[i]).within(COORD_LIMIT as int) && r[i].start == light,
{
    let mut rays: Vec<Segment> = Vec::new();
    let mut i: usize = 0;
    while i < occluders.len()
        invariant
            i <= occluders.len(),
            light.within(SCENE_LIMIT as int),
            forall|k: int| 0 <= k < occluders.len() ==> (#[trigger] occluders[k]).wf(),
            rays@ == scene_rays(light, occluders@.take(i as int)),
        decreases occluders.len() - i,
    {
        cast_past(&mut rays, light, &occluders[i]);
        proof {
            let t = occluders@.take(i + 1 as int);
            assert(t.drop_last() == occluders@.take(i as int));
            lemma_rays_append(light, scene_dirs(light, t.drop_last()), occluder_dirs(light, t.last()));
        }
        i = i + 1;
    }
    proof {
        assert(occluders@.take(i as int) == occluders@);
        lemma_scene_rays_bounded(light, occluders@);
    }
    rays
}

proof fn lemma_fan_bounded(light: Point, v: Point)
    requires
        light.within(SCENE_LIMIT as int),
        v.within(SCENE_LIMIT as int),
    ensures
        forall|i: int| 0 <= i < vertex_dirs(light, v).len() ==> {
            let d = #[trigger] vertex_dirs(light, v)[i];
            -DIR_LIMIT <= d.0 <= DIR_LIMIT && -DIR_LIMIT <= d.1 <= DIR_LIMIT && d != (0int, 0int)
        },
{
}

/// Every ray cast into a scene starts at the light, has a nonzero direction and keeps within the
/// solver's range.
pub proof fn lemma_scene_rays_bounded(light: Point, occs: Seq<Rect>)
    requires
        light.within(SCENE_LIMIT as int),
        forall|i: int| 0 <= i < occs.len() ==> (#[trigger] occs[i]).wf(),
    ensures
        forall|i: int| 0 <= i < scene_dirs(light, occs).len() ==> {
            let d = #[trigger] scene_dirs(light, occs)[i];
            -DIR_LIMIT <= d.0 <= DIR_LIMIT && -DIR_LIMIT <= d.1 <= DIR_LIMIT && d != (0int, 0int)
        },
        forall|i: int| 0 <= i < scene_rays(light, occs).len() ==> (#[trigger] scene_rays(light, occs)[i]).within(COORD_LIMIT as int)
            && scene_rays(light, occs)[i].start == light && dir_of(scene_rays(light, occs)[i]) != (0int, 0int),
    decreases occs.len(),
{
    if occs.len() > 0 {
        lemma_scene_rays_bounded(light, occs.drop_last());
        let r = occs.last();
        assert(occs[occs.len() - 1].wf());
        let c = r.corners();
        lemma_fan_bounded(light, c[0]);
        lemma_fan_bounded(light, c[1]);
        lemma_fan_bounded(light, c[2]);
        lemma_fan_bounded(light, c[3]);
        let a = scene_dirs(light, occs.drop_last());
        let o = occluder_dirs(light, r);
        assert forall|i: int| 0 <= i < o.len() implies {
            let d = #[trigger] o[i];
            -DIR_LIMIT <= d.0 <= DIR_LIMIT && -DIR_LIMIT <= d.1 <= DIR_LIMIT && d != (0int, 0int)
        } by {
            let (d0, d1, d2, d3) = (
                vertex_dirs(light, c[0]),
                vertex_dirs(light, c[1]),
                vertex_dirs(light, c[2]),
                vertex_dirs(light, c[3]),
            );
            if i < d0.len() {
                assert(o[i] == d0[i]);
            } else if i < d0.len() + d1.len() {
                assert(o[i] == d1[i - d0.len()]);
            } else if i < d0.len() + d1.len() + d2.len() {
                assert(o[i] == d2[i - d0.len() - d1.len()]);
            } else {
                assert(o[i] == d3[i - d0.len() - d1.len() - d2.len()]);
            }
        }
        assert forall|i: int| 0 <= i < scene_dirs(light, occs).len() implies {
            let d = #[trigger] scene_dirs(light, occs)[i];
            -DIR_LIMIT <= d.0 <= DIR_LIMIT && -DIR_LIMIT <= d.1 <= DIR_LIMIT && d != (0int, 0int)
        } by {
            if i >= a.len() {
                assert(scene_dirs(light, occs)[i] == o[i - a.len()]);
            } else {
                assert(scene_dirs(light, occs)[i] == a[i]);
            }
        }
    }
    assert forall|i: int| 0 <= i < scene_rays(light, occs).len() implies (#[trigger] scene_rays(light, occs)[i]).within(COORD_LIMIT as int)
        && scene_rays(light, occs)[i].start == light && dir_of(scene_rays(light, occs)[i]) != (0int, 0int) by {
        let d = scene_dirs(light, occs)[i];
        assert(scene_rays(light, occs)[i] == ray_spec(light, d.0, d.1));
        lemma_ray_spec(light, d.0, d.1);
    }
}

/// The three rays cast past any vertex `v` (the light itself included) share one direction, the
/// one from the light toward `v` (`m`): the middle ray goes along it, and the first and last are
/// turned from it clockwise and counterclockwise by the same angle, being `m` minus and plus a
/// perpendicular `p` with `FAN_SCALE * |p| == |m|`. Each reaches `RAY_LENGTH` from the light,
/// to within one unit.
pub proof fn lemma_fan_rays(light: Point, v: Point)
    requires
        light.within(SCENE_LIMIT as int),
        v.within(SCENE_LIMIT as int),
    ensures
        ({
            let r = rays_spec(light, vertex_dirs(light, v));
            let (dx, dy) = toward(light, v);
            let (mx, my) = (FAN_SCALE * dx, FAN_SCALE * dy);
            let (px, py) = (-dy, dx);
            &&& v != light ==> (dx, dy) == (v.x - light.x, v.y - light.y)
            &&& v == light ==> (dx, dy) == (-1int, 0int)
            &&& r.len() == 3
            &&& r[0].start == light && r[1].start == light && r[2].start == light
            &&& r[0] == ray_spec(light, mx - px, my - py)
            &&& r[1] == ray_spec(light, mx, my)
            &&& r[2] == ray_spec(light, mx + px, my + py)
            &&& mx * px + my * py == 0
            &&& FAN_SCALE * FAN_SCALE * (px * px + py * py) == mx * mx + my * my
            &&& px * px + py * py > 0
            &&& forall|k: int| 0 <= k < 3 ==> {
                let len2 = (#[trigger] r[k]).dx() * r[k].dx() + r[k].dy() * r[k].dy();
                (RAY_LENGTH - 1) * (RAY_LENGTH - 1) <= len2 <= (RAY_LENGTH + 1) * (RAY_LENGTH + 1)
            }
        }),
{
    let r = rays_spec(light, vertex_dirs(light, v));
    let (dx, dy) = toward(light, v);
    let d = vertex_dirs(light, v);
    lemma_fan_bounded(light, v);
    assert(r[0] == ray_spec(light, d[0].0, d[0].1));
    assert(r[1] == ray_spec(light, d[1].0, d[1].1));
    assert(r[2] == ray_spec(light, d[2].0, d[2].1));
    lemma_ray_spec(light, d[0].0, d[0].1);
    lemma_ray_spec(light, d[1].0, d[1].1);
    lemma_ray_spec(light, d[2].0, d[2].1);
    assert(dx != 0 || dy != 0);
    assert(dx * dx + dy * dy > 0) by (nonlinear_arith)
        requires
            dx != 0 || dy != 0,
    ;
    assert((FAN_SCALE * dx) * (-dy) + (FAN_SCALE * dy) * dx == 0) by (nonlinear_arith);
    assert(FAN_SCALE * FAN_SCALE * ((-dy) * (-dy) + dx * dx) == (FAN_SCALE * dx) * (FAN_SCALE * dx)
        + (FAN_SCALE * dy) * (FAN_SCALE * dy)) by (nonlinear_arith);
    assert((-dy) * (-dy) + dx * dx == dx * dx + dy * dy) by (nonlinear_arith);
}

/// The angle order is the same on positive multiples of the vectors.
pub proof fn lemma_angle_scale(ax: int, ay: int, bx: int, by_: int, s: int, t: int)
    requires
        s > 0,
        t > 0,
    ensures
        angle_ge(ax, ay, bx, by_) == angle_ge(s * ax, s * ay, t * bx, t * by_),
{
    assert(upper(ax, ay) == upper(s * ax, s * ay)) by (nonlinear_arith)
        requires
            s > 0,
    ;
    assert(upper(bx, by_) == upper(t * bx, t * by_)) by (nonlinear_arith)
        requires
            t > 0,
    ;
    assert((t * bx) * (s * ay) == (s * t) * (bx * ay)) by (nonlinear_arith);
    assert((t * by_) * (s * ax) == (s * t) * (by_ * ax)) by (nonlinear_arith);
    assert((s * t) * (bx * ay) - (s * t) * (by_ * ax) == (s * t) * (bx * ay - by_ * ax))
        by (nonlinear_arith);
    assert(s * t > 0) by (nonlinear_arith)
        requires
            s > 0,
            t > 0,
    ;
    assert((s * t) * cross(bx, by_, ax, ay) >= 0 <==> cross(bx, by_, ax, ay) >= 0) by (nonlinear_arith)
        requires
            s * t > 0,
    ;
}

/// The angle order is transitive on nonzero vectors.
pub proof fn lemma_angle_trans(a: (int, int), b: (int, int), c: (int, int))
    requires
        a != (0int, 0int),
        b != (0int, 0int),
        c != (0int, 0int),
        angle_ge(a.0, a.1, b.0, b.1),
        angle_ge(b.0, b.1, c.0, c.1),
    ensures
        angle_ge(a.0, a.1, c.0, c.1),
{
    let (ax, ay, bx, by_, cx, cy) = (a.0, a.1, b.0, b.1, c.0, c.1);
    if upper(ax, ay) == upper(bx, by_) && upper(bx, by_) == upper(cx, cy) {
        let ca = cross(cx, cy, ax, ay);
        let cb = cross(cx, cy, bx, by_);
        let ba = cross(bx, by_, ax, ay);
        assert(ca * by_ == cb * ay + ba * cy) by (nonlinear_arith)
            requires
                ca == cx * ay - cy * ax,
                cb == cx * by_ - cy * bx,
                ba == bx * ay - by_ * ax,
        ;
        assert(cb >= 0 && ba >= 0);
        if upper(bx, by_) {
            if by_ > 0 {
                assert(ca >= 0) by (nonlinear_arith)
                    requires
                        ca * by_ == cb * ay + ba * cy,
                        cb >= 0,
                        ba >= 0,
                        ay >= 0,
                        cy >= 0,
                        by_ > 0,
                ;
            } else {
                assert(ba == bx * ay) by (nonlinear_arith)
                    requires
                        ba == bx * ay - by_ * ax,
                        by_ == 0,
                ;
                assert(ay <= 0) by (nonlinear_arith)
                    requires
                        ba == bx * ay,
                        ba >= 0,
                        bx < 0,
                ;
                assert(ca == -cy * ax) by (nonlinear_arith)
                    requires
                        ca == cx * ay - cy * ax,
                        ay == 0,
                ;
                assert(ca >= 0) by (nonlinear_arith)
                    requires
                        ca == -cy * ax,
                        cy >= 0,
                        ax < 0,
                ;
            }
        } else {
            if by_ < 0 {
                assert(ca >= 0) by (nonlinear_arith)
                    requires
                        ca * by_ == cb * ay + ba * cy,
                        cb >= 0,
                        ba >= 0,
                        ay <= 0,
                        cy <= 0,
                        by_ < 0,
                ;
            } else {
                assert(bx > 0);
                assert(ba == bx * ay) by (nonlinear_arith)
                    requires
                        ba == bx * ay - by_ * ax,
                        by_ == 0,
                ;
                assert(ay >= 0) by (nonlinear_arith)
                    requires
                        ba == bx * ay,
                        ba >= 0,
                        bx > 0,
                ;
                assert(ca == -cy * ax) by (nonlinear_arith)
                    requires
                        ca == cx * ay - cy * ax,
                        ay == 0,
                ;
                assert(ca >= 0) by (nonlinear_arith)
                    requires
                        ca == -cy * ax,
                        cy <= 0,
                        ax > 0,
                ;
            }
        }
    }
}

/// The direction of `s` as a vector.
pub open spec fn dir_of(s: Segment) -> (int, int) {
    (s.dx(), s.dy())
}

/// In a descending sequence of segments of nonzero direction, each direction has an angle at
/// least that of every later one.
pub proof fn lemma_descending_all(s: Seq<Segment>)
    requires
        descending(s),
        forall|i: int| 0 <= i < s.len() ==> dir_of(#[trigger] s[i]) != (0int, 0int),
    ensures
        forall|i: int, j: int| 0 <= i < j < s.len() ==> dir_ge(#[trigger] s[i], #[trigger] s[j]),
    decreases s.len(),
{
    if s.len() > 1 {
        let f = s.drop_last();
        assert forall|i: int| 0 <= i < f.len() - 1 implies dir_ge(#[trigger] f[i], f[i + 1]) by {
            assert(dir_ge(s[i], s[i + 1]));
        }
        assert forall|i: int| 0 <= i < f.len() implies dir_of(#[trigger] f[i]) != (0int, 0int) by {
            assert(f[i] == s[i]);
        }
        lemma_descending_all(f);
        let n = s.len() - 1;
        assert forall|i: int, j: int| 0 <= i < j < s.len() implies dir_ge(#[trigger] s[i], #[trigger] s[j]) by {
            if j < n {
                assert(f[i] == s[i] && f[j] == s[j]);
            } else if i < n - 1 {
                assert(f[i] == s[i] && f[n - 1] == s[n - 1]);
                assert(dir_ge(s[i], s[n - 1]));
                assert(dir_ge(s[n - 1], s[n]));
                lemma_angle_trans(dir_of(s[i]), dir_of(s[n - 1]), dir_of(s[n]));
            } else {
                assert(dir_ge(s[n - 1], s[n]));
            }
        }
    }
}

} // verus!
