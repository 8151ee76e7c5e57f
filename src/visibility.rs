use vstd::prelude::*;

use crate::geometry::{
    Crossing, Point, RatPoint, Rect, Segment, crossing, crossing_spec, crossing_view,
    lemma_cross_bound, lemma_crossing_on_both, lemma_mul_bound, point_at, point_on, point_rat,
    COORD_LIMIT, SCENE_LIMIT,
};
use crate::rays::{
    angle_ge, cast_past, cast_rays, dir_ge, dir_of, lemma_angle_scale, lemma_descending_all,
    lemma_scene_rays_bounded, lemma_sort_desc, occluder_dirs, rays_spec, scene_rays, sort_desc,
    sort_rays,
};

verus! {

/// The sides of every occluder, occluder by occluder.
pub open spec fn all_sides(occs: Seq<Rect>) -> Seq<Segment>
    decreases occs.len(),
{
    if occs.len() == 0 {
        seq![]
    } else {
        all_sides(occs.drop_last()) + occs.last().sides()
    }
}

/// The squared length of `e`.
pub open spec fn len2(e: Segment) -> int {
    e.dx() * e.dx() + e.dy() * e.dy()
}

/// Whether the point at parameter `u / den` on `e` lies more than half a unit from both of its
/// ends: those distances are `(u / den) * |e|` and `(1 - u / den) * |e|`.
pub open spec fn clear_of_ends(e: Segment, u: int, den: int) -> bool {
    &&& (4 * len2(e)) * (u * u) > den * den
    &&& (4 * len2(e)) * ((den - u) * (den - u)) > den * den
}

/// Where `ray` meets `e`, unless the meeting point lies within half a unit of an end of `e`.
pub open spec fn hit_spec(ray: Segment, e: Segment) -> Option<(int, int, int)> {
    match crossing_spec(ray, e) {
        Some(c) => if clear_of_ends(e, c.1, c.2) {
            Some(c)
        } else {
            None
        },
        None => None,
    }
}

/// Whether crossing `c` lies strictly nearer the start of the ray than crossing `b`: the distance
/// from the start is `t / den` times the ray's length.
pub open spec fn nearer(c: (int, int, int), b: (int, int, int)) -> bool {
    c.0 * b.2 < b.0 * c.2
}

/// The hit of `ray` on `edges` nearest its start; of equally near ones, the first.
pub open spec fn nearest_spec(ray: Segment, edges: Seq<Segment>) -> Option<(int, int, int)>
    decreases edges.len(),
{
    if edges.len() == 0 {
        None
    } else {
        let best = nearest_spec(ray, edges.drop_last());
        match hit_spec(ray, edges.last()) {
            None => best,
            Some(c) => match best {
                None => Some(c),
                Some(b) => if nearer(c, b) {
                    Some(c)
                } else {
                    best
                },
            },
        }
    }
}

/// The point of the boundary found along `ray`, if any.
pub open spec fn ray_vertex(ray: Segment, edges: Seq<Segment>) -> Option<(int, int, int)> {
    match nearest_spec(ray, edges) {
        None => None,
        Some(c) => Some(point_on(ray, c.0, c.2)),
    }
}

/// The points of the boundary found along `rays`, in their order; a ray that hits nothing adds
/// no point.
pub open spec fn hits_spec(rays: Seq<Segment>, edges: Seq<Segment>) -> Seq<(int, int, int)>
    decreases rays.len(),
{
    if rays.len() == 0 {
        seq![]
    } else {
        let front = hits_spec(rays.drop_last(), edges);
        match ray_vertex(rays.last(), edges) {
            None => front,
            Some(p) => front.push(p),
        }
    }
}

/// The polygon fan: the light as apex, then the boundary points, then the first boundary point
/// again to close it. Only the apex where no ray hits anything.
pub open spec fn polygon_spec(light: Point, edges: Seq<Segment>, rays: Seq<Segment>) -> Seq<(int, int, int)> {
    let h = hits_spec(rays, edges);
    if h.len() == 0 {
        seq![point_rat(light)]
    } else {
        seq![point_rat(light)] + h + seq![h[0]]
    }
}

/// The visibility polygon of a light at `light` among `occs`: rays cast past every corner,
/// sorted by angle descending, each resolved to its nearest hit.
pub open spec fn visibility_spec(light: Point, occs: Seq<Rect>) -> Seq<(int, int, int)> {
    polygon_spec(light, all_sides(occs), sort_desc(scene_rays(light, occs)))
}

pub open spec fn views(s: Seq<RatPoint>) -> Seq<(int, int, int)> {
    s.map_values(|p: RatPoint| p@)
}

/// The sides of every occluder, occluder by occluder.
pub fn scene_edges(occluders: &Vec<Rect>) -> (r: Vec<Segment>)
    requires
        forall|i: int| 0 <= i < occluders.len() ==> (#[trigger] occluders[i]).wf(),
    ensures
        r@ == all_sides(occluders@),
        forall|i: int| 0 <= i < r.len() ==> (#[trigger] r[i]).within(SCENE_LIMIT as int),
{
    let mut edges: Vec<Segment> = Vec::new();
    let mut i: usize = 0;
    while i < occluders.len()
        invariant
            i <= occluders.len(),
            forall|k: int| 0 <= k < occluders.len() ==> (#[trigger] occluders[k]).wf(),
            edges@ == all_sides(occluders@.take(i as int)),
            forall|k: int| 0 <= k < edges.len() ==> (#[trigger] edges[k]).within(SCENE_LIMIT as int),
        decreases occluders.len() - i,
    {
        let sides = occluders[i].edges();
        let mut j: usize = 0;
        let ghost before = edges@;
        while j < 4
            invariant
                j <= 4,
                sides@ == occluders[i as int].sides(),
                occluders[i as int].wf(),
                edges@ == before + sides@.take(j as int),
                forall|k: int| 0 <= k < edges.len() ==> (#[trigger] edges[k]).within(SCENE_LIMIT as int),
            decreases 4 - j,
        {
            edges.push(sides[j]);
            proof {
                assert(sides@.take(j + 1 as int) == sides@.take(j as int).push(sides@[j as int]));
            }
            j = j + 1;
        }
        proof {
            let t = occluders@.take(i + 1 as int);
            assert(t.drop_last() == occluders@.take(i as int));
            assert(sides@.take(4) == sides@);
        }
        i = i + 1;
    }
    proof {
        assert(occluders@.take(i as int) == occluders@);
    }
    edges
}

/// The bounds of a crossing of a ray cast in the scene with an edge of the scene.
proof fn lemma_scene_crossing(ray: Segment, e: Segment)
    requires
        ray.start.within(SCENE_LIMIT as int),
        ray.within(COORD_LIMIT as int),
        e.within(SCENE_LIMIT as int),
    ensures
        crossing_spec(ray, e) matches Some(c) ==> 0 <= c.0 <= 0x800_0000_0000 && 0 < c.2
            <= 0x80_0000_0000_0000 && 0 <= c.1 <= c.2,
        0 <= 4 * len2(e) <= 0x2000_0000_0000,
{
    let k: int = 0x2_0000_0000;
    lemma_cross_bound(ray.dx(), ray.dy(), e.dx(), e.dy(), k, 0x20_0000);
    let wx = e.start.x - ray.start.x;
    let wy = e.start.y - ray.start.y;
    lemma_cross_bound(wx, wy, e.dx(), e.dy(), 0x20_0000, 0x20_0000);
    lemma_mul_bound(e.dx(), e.dx(), 0x20_0000, 0x20_0000);
    lemma_mul_bound(e.dy(), e.dy(), 0x20_0000, 0x20_0000);
    assert(e.dx() * e.dx() >= 0) by (nonlinear_arith);
    assert(e.dy() * e.dy() >= 0) by (nonlinear_arith);
}

/// For `a > 0` and `b >= 0`, `c * a > b` exactly where `c` exceeds the quotient `b / a`.
proof fn lemma_mul_exceeds(c: int, a: int, b: int)
    requires
        a > 0,
        b >= 0,
    ensures
        (c * a > b) == (c > b / a),
{
    let q = b / a;
    let r = b % a;
    vstd::arithmetic::div_mod::lemma_fundamental_div_mod(b, a);
    assert(0 <= r < a);
    if c > q {
        assert(c * a >= (q + 1) * a) by (nonlinear_arith)
            requires
                c >= q + 1,
                a > 0,
        ;
        assert((q + 1) * a == q * a + a) by (nonlinear_arith);
    } else {
        assert(c * a <= q * a) by (nonlinear_arith)
            requires
                c <= q,
                a > 0,
        ;
    }
}

/// Whether the crossing `c` on `e` lies more than half a unit from both ends of `e`.
fn is_clear(e: &Segment, c: &Crossing) -> (r: bool)
    requires
        e.within(SCENE_LIMIT as int),
        0 <= c.u <= c.den,
        0 < c.den <= 0x80_0000_0000_0000,
    ensures
        r == clear_of_ends(*e, c.u as int, c.den as int),
{
    let ex = e.end.x as i128 - e.start.x as i128;
    let ey = e.end.y as i128 - e.start.y as i128;
    proof {
        lemma_mul_bound(ex as int, ex as int, 0x20_0000, 0x20_0000);
        lemma_mul_bound(ey as int, ey as int, 0x20_0000, 0x20_0000);
        lemma_mul_bound(c.u as int, c.u as int, 0x80_0000_0000_0000, 0x80_0000_0000_0000);
        lemma_mul_bound(c.den as int, c.den as int, 0x80_0000_0000_0000, 0x80_0000_0000_0000);
        lemma_mul_bound((c.den - c.u) as int, (c.den - c.u) as int, 0x80_0000_0000_0000, 0x80_0000_0000_0000);
        assert(ex * ex >= 0 && ey * ey >= 0) by (nonlinear_arith);
        assert(c.den * c.den >= 0) by (nonlinear_arith);
    }
    let len4 = 4 * (ex * ex + ey * ey);
    let b = c.den * c.den;
    let near = c.u * c.u;
    let rest = c.den - c.u;
    let far = rest * rest;
    if near == 0 || far == 0 {
        proof {
            assert(len4 * near == 0 || len4 * far == 0) by (nonlinear_arith)
                requires
                    near == 0 || far == 0,
            ;
            assert(b > 0) by (nonlinear_arith)
                requires
                    b == c.den * c.den,
                    c.den > 0,
            ;
        }
        return false;
    }
    proof {
        assert(near > 0 && far > 0) by (nonlinear_arith)
            requires
                near == c.u * c.u,
                far == rest * rest,
                near != 0,
                far != 0,
        ;
        lemma_mul_exceeds(len4 as int, near as int, b as int);
        lemma_mul_exceeds(len4 as int, far as int, b as int);
    }
    len4 > b / near && len4 > b / far
}

/// The hit of `ray` on `edges` nearest its start, as crossing parameters; of equally near ones,
/// the first. A crossing within half a unit of an end of its edge is no hit.
pub fn nearest_hit(ray: &Segment, edges: &Vec<Segment>) -> (r: Option<Crossing>)
    requires
        ray.start.within(SCENE_LIMIT as int),
        ray.within(COORD_LIMIT as int),
        forall|i: int| 0 <= i < edges.len() ==> (#[trigger] edges[i]).within(SCENE_LIMIT as int),
    ensures
        crossing_view(r) == nearest_spec(*ray, edges@),
        r matches Some(c) ==> 0 <= c.t <= c.den <= 0x80_0000_0000_0000,
{
    let mut best: Option<Crossing> = None;
    let mut i: usize = 0;
    while i < edges.len()
        invariant
            i <= edges.len(),
            ray.start.within(SCENE_LIMIT as int),
            ray.within(COORD_LIMIT as int),
            forall|k: int| 0 <= k < edges.len() ==> (#[trigger] edges[k]).within(SCENE_LIMIT as int),
            crossing_view(best) == nearest_spec(*ray, edges@.take(i as int)),
            best matches Some(b) ==> 0 <= b.t <= 0x800_0000_0000 && 0 < b.den <= 0x80_0000_0000_0000
                && b.t <= b.den,
        decreases edges.len() - i,
    {
        let e = edges[i];
        proof {
            lemma_scene_crossing(*ray, e);
            let t = edges@.take(i + 1 as int);
            assert(t.drop_last() == edges@.take(i as int));
            assert(t.last() == e);
        }
        if let Some(c) = crossing(ray, &e) {
            if is_clear(&e, &c) {
                match best {
                    None => {
                        best = Some(c);
                    },
                    Some(b) => {
                        proof {
                            lemma_mul_bound(c.t as int, b.den as int, 0x800_0000_0000, 0x80_0000_0000_0000);
                            lemma_mul_bound(b.t as int, c.den as int, 0x800_0000_0000, 0x80_0000_0000_0000);
                        }
                        if c.t * b.den < b.t * c.den {
                            best = Some(c);
                        }
                    },
                }
            }
        }
        i = i + 1;
    }
    proof {
        assert(edges@.take(i as int) == edges@);
    }
    best
}

/// The polygon fan traced along `rays` from `light`: the light, the nearest hit of each ray that
/// hits an edge, in the order of the rays, and the first hit again. Only the light where no ray
/// hits anything. A hit lies on its ray's segment (its parameter is at most one), so it is never
/// farther from the light than the ray's far end, and the hit itself is always the point kept.
pub fn trace_rays(light: Point, edges: &Vec<Segment>, rays: &Vec<Segment>) -> (r: Vec<RatPoint>)
    requires
        light.within(SCENE_LIMIT as int),
        forall|i: int| 0 <= i < edges.len() ==> (#[trigger] edges[i]).within(SCENE_LIMIT as int),
        forall|i: int| 0 <= i < rays.len() ==> (#[trigger] rays[i]).within(COORD_LIMIT as int)
            && rays[i].start == light,
    ensures
        views(r@) == polygon_spec(light, edges@, rays@),
{
    let mut hits: Vec<RatPoint> = Vec::new();
    let mut i: usize = 0;
    while i < rays.len()
        invariant
            i <= rays.len(),
            light.within(SCENE_LIMIT as int),
            forall|k: int| 0 <= k < edges.len() ==> (#[trigger] edges[k]).within(SCENE_LIMIT as int),
            forall|k: int| 0 <= k < rays.len() ==> (#[trigger] rays[k]).within(COORD_LIMIT as int)
                && rays[k].start == light,
            views(hits@) == hits_spec(rays@.take(i as int), edges@),
        decreases rays.len() - i,
    {
        let ray = rays[i];
        let found = nearest_hit(&ray, edges);
        proof {
            let t = rays@.take(i + 1 as int);
            assert(t.drop_last() == rays@.take(i as int));
            assert(t.last() == ray);
        }
        if let Some(c) = found {
            let p = point_at(&ray, &c);
            let ghost before = hits@;
            hits.push(p);
            proof {
                assert(views(hits@) =~= views(before).push(p@));
            }
        }
        i = i + 1;
    }
    proof {
        assert(rays@.take(i as int) == rays@);
    }
    let mut out: Vec<RatPoint> = Vec::new();
    out.push(RatPoint::from_point(light));
    if hits.len() == 0 {
        proof {
            assert(views(out@) =~= polygon_spec(light, edges@, rays@));
        }
        return out;
    }
    let first = hits[0];
    let mut j: usize = 0;
    while j < hits.len()
        invariant
            j <= hits.len(),
            out@ == seq![RatPoint { x: light.x as i128, y: light.y as i128, den: 1 }] + hits@.take(j as int),
        decreases hits.len() - j,
    {
        out.push(hits[j]);
        proof {
            assert(hits@.take(j + 1 as int) == hits@.take(j as int).push(hits@[j as int]));
        }
        j = j + 1;
    }
    out.push(first);
    proof {
        assert(hits@.take(j as int) == hits@);
        assert(views(out@) =~= polygon_spec(light, edges@, rays@));
    }
    out
}

/// The visibility polygon of a light at `light` among `occluders`: the light, then one point per
/// ray that hits an edge (rays cast past every corner, in descending angle), then the first of
/// those points again. Angles are taken in `(-pi, pi]`, as `atan2` gives them, so the boundary
/// starts from the direction `-x` (angle pi) and turns clockwise through `-y`, `+x` and `+y`
/// (with `y` growing downwards on screen, the other way round).
pub fn compute_visibility(light: Point, occluders: &Vec<Rect>) -> (r: Vec<RatPoint>)
    requires
        light.within(SCENE_LIMIT as int),
        forall|i: int| 0 <= i < occluders.len() ==> (#[trigger] occluders[i]).wf(),
    ensures
        views(r@) == visibility_spec(light, occluders@),
{
    let mut rays = cast_rays(light, occluders);
    let ghost cast = rays@;
    sort_rays(&mut rays);
    proof {
        broadcast use vstd::seq_lib::group_to_multiset_ensures;

        lemma_sort_desc(cast);
        assert forall|i: int| 0 <= i < rays.len() implies (#[trigger] rays[i]).within(COORD_LIMIT as int)
            && rays[i].start == light by {
            assert(rays@.to_multiset().count(rays@[i]) > 0);
            assert(cast.contains(rays@[i]));
        }
    }
    let edges = scene_edges(occluders);
    trace_rays(light, &edges, &rays)
}

/// A point light and the polygon it lit when last traced.
pub struct RaySource {
    pub pos: Point,
    /// Whether the light or the scene changed since `visible` was traced.
    pub should_update: bool,
    pub visible: Vec<RatPoint>,
}

impl RaySource {
    /// A light at the origin that has not been traced yet.
    pub fn new() -> (r: RaySource)
        ensures
            r.pos == (Point { x: 0, y: 0 }),
            r.should_update,
            r.visible@.len() == 0,
    {
        RaySource { pos: Point { x: 0, y: 0 }, should_update: true, visible: Vec::new() }
    }

    /// Moves the light, which marks its polygon as out of date.
    pub fn move_to(&mut self, new_position: Point)
        ensures
            final(self).pos == new_position,
            final(self).should_update,
            final(self).visible@ == old(self).visible@,
    {
        self.pos = new_position;
        self.should_update = true;
    }

    /// This light, moved to `new_position`, with its polygon marked as out of date.
    pub fn at_position(self, new_position: Point) -> (r: RaySource)
        ensures
            r.pos == new_position,
            r.should_update,
            r.visible@ == self.visible@,
    {
        RaySource { pos: new_position, should_update: true, visible: self.visible }
    }

    /// Appends to `rays` the rays this light casts past each corner of `shape`.
    pub fn trace_to(&self, rays: &mut Vec<Segment>, shape: &Rect)
        requires
            self.pos.within(SCENE_LIMIT as int),
            shape.wf(),
        ensures
            final(rays)@ == old(rays)@ + rays_spec(self.pos, occluder_dirs(self.pos, *shape)),
    {
        cast_past(rays, self.pos, shape);
    }

    /// Traces the polygon again where it is out of date; else leaves it as it is.
    pub fn update(&mut self, occluders: &Vec<Rect>)
        requires
            old(self).pos.within(SCENE_LIMIT as int),
            forall|i: int| 0 <= i < occluders.len() ==> (#[trigger] occluders[i]).wf(),
        ensures
            final(self).pos == old(self).pos,
            !final(self).should_update,
            old(self).should_update ==> views(final(self).visible@) == visibility_spec(old(self).pos, occluders@),
            !old(self).should_update ==> final(self).visible@ == old(self).visible@,
    {
        if self.should_update {
            self.visible = compute_visibility(self.pos, occluders);
            self.should_update = false;
        }
    }

    /// The polygon traced last.
    pub fn visible_polygon(&self) -> (r: &Vec<RatPoint>)
        ensures
            r@ == self.visible@,
    {
        &self.visible
    }
}

/// The nearest hit of a ray is a crossing with one of the edges.
proof fn lemma_nearest_is_crossing(ray: Segment, edges: Seq<Segment>)
    ensures
        nearest_spec(ray, edges) matches Some(c) ==> exists|j: int|
            0 <= j < edges.len() && #[trigger] crossing_spec(ray, edges[j]) == Some(c),
    decreases edges.len(),
{
    if edges.len() > 0 {
        let front = edges.drop_last();
        lemma_nearest_is_crossing(ray, front);
        if let Some(c) = nearest_spec(ray, edges) {
            if nearest_spec(ray, edges) == nearest_spec(ray, front) {
                let j = choose|j: int| 0 <= j < front.len() && #[trigger] crossing_spec(ray, front[j]) == Some(c);
                assert(edges[j] == front[j]);
            } else {
                assert(crossing_spec(ray, edges[edges.len() - 1]) == Some(c));
            }
        }
    }
}

/// Whether `p` is a point of one of `edges`, within it.
pub open spec fn on_some_edge(p: (int, int, int), edges: Seq<Segment>) -> bool {
    exists|j: int, u: int|
        0 <= j < edges.len() && 0 <= u <= p.2 && #[trigger] point_on(edges[j], u, p.2) == p
}

/// Every point found along the rays lies on one of the edges, over a positive denominator.
proof fn lemma_hits_on_edges(rays: Seq<Segment>, edges: Seq<Segment>)
    ensures
        forall|k: int| 0 <= k < hits_spec(rays, edges).len() ==> {
            let p = #[trigger] hits_spec(rays, edges)[k];
            p.2 > 0 && on_some_edge(p, edges)
        },
    decreases rays.len(),
{
    if rays.len() > 0 {
        let ray = rays.last();
        lemma_hits_on_edges(rays.drop_last(), edges);
        lemma_nearest_is_crossing(ray, edges);
        if let Some(c) = nearest_spec(ray, edges) {
            let j = choose|j: int| 0 <= j < edges.len() && #[trigger] crossing_spec(ray, edges[j]) == Some(c);
            lemma_crossing_on_both(ray, edges[j]);
            let p = point_on(ray, c.0, c.2);
            assert(0 <= c.1 <= c.2 && c.2 > 0);
            assert(point_on(edges[j], c.1, p.2) == p);
            assert(on_some_edge(p, edges));
        }
        let front = hits_spec(rays.drop_last(), edges);
        assert forall|k: int| 0 <= k < front.len() implies hits_spec(rays, edges)[k] == front[k] by {}
    }
}

/// A point of an axis-aligned segment that runs along or outside a side of `occ` is not
/// strictly inside `occ`.
proof fn lemma_side_not_inside(s: Segment, occ: Rect, u: int, den: int)
    requires
        den > 0,
        0 <= u <= den,
        (s.start.y == s.end.y && (s.start.y <= occ.y || s.start.y >= occ.y + occ.h)) || (s.start.x
            == s.end.x && (s.start.x <= occ.x || s.start.x >= occ.x + occ.w)),
    ensures
        !occ.strictly_contains(point_on(s, u, den)),
{
    let p = point_on(s, u, den);
    let (sx, sy, ox, oy, ox2, oy2) = (
        s.start.x as int,
        s.start.y as int,
        occ.x as int,
        occ.y as int,
        occ.x + occ.w,
        occ.y + occ.h,
    );
    if s.start.y == s.end.y && (s.start.y <= occ.y || s.start.y >= occ.y + occ.h) {
        assert(p.1 == sy * den) by (nonlinear_arith)
            requires
                p.1 == sy * den + u * s.dy(),
                s.dy() == 0,
        ;
        if sy <= oy {
            assert(sy * den <= oy * den) by (nonlinear_arith)
                requires
                    sy <= oy,
                    den > 0,
            ;
        } else {
            assert(sy * den >= oy2 * den) by (nonlinear_arith)
                requires
                    sy >= oy2,
                    den > 0,
            ;
        }
    } else {
        assert(p.0 == sx * den) by (nonlinear_arith)
            requires
                p.0 == sx * den + u * s.dx(),
                s.dx() == 0,
        ;
        if sx <= ox {
            assert(sx * den <= ox * den) by (nonlinear_arith)
                requires
                    sx <= ox,
                    den > 0,
            ;
        } else {
            assert(sx * den >= ox2 * den) by (nonlinear_arith)
                requires
                    sx >= ox2,
                    den > 0,
            ;
        }
    }
}

/// An occluder inside a bounding occluder hides its inside: where the light is not strictly
/// inside it, no point of the polygon (traced along any rays) lies strictly inside it.
pub proof fn lemma_occluder_hides_inside(light: Point, bound: Rect, occ: Rect, rays: Seq<Segment>)
    requires
        bound.wf(),
        occ.wf(),
        bound.x <= occ.x,
        bound.y <= occ.y,
        occ.x + occ.w <= bound.x + bound.w,
        occ.y + occ.h <= bound.y + bound.h,
        !occ.strictly_contains(point_rat(light)),
    ensures
        ({
            let poly = polygon_spec(light, all_sides(seq![bound, occ]), rays);
            forall|i: int| 0 <= i < poly.len() ==> !occ.strictly_contains(#[trigger] poly[i])
        }),
{
    let occs = seq![bound, occ];
    assert(occs.drop_last() =~= seq![bound]);
    assert(seq![bound].drop_last() =~= Seq::<Rect>::empty());
    let edges = all_sides(occs);
    let single = seq![bound];
    assert(all_sides(single.drop_last()) == Seq::<Segment>::empty());
    assert(single.last() == bound);
    assert(all_sides(single) =~= bound.sides());
    assert(occs.last() == occ);
    assert(edges =~= bound.sides() + occ.sides());
    let h = hits_spec(rays, edges);
    lemma_hits_on_edges(rays, edges);
    assert forall|k: int| 0 <= k < h.len() implies !occ.strictly_contains(#[trigger] h[k]) by {
        let p = h[k];
        let (j, u) = choose|j: int, u: int|
            0 <= j < edges.len() && 0 <= u <= p.2 && #[trigger] point_on(edges[j], u, p.2) == p;
        lemma_side_not_inside(edges[j], occ, u, p.2);
    }
    let poly = polygon_spec(light, edges, rays);
    assert forall|i: int| 0 <= i < poly.len() implies !occ.strictly_contains(#[trigger] poly[i]) by {
        if i > 0 && i <= h.len() {
            assert(poly[i] == h[i - 1]);
        } else if i > h.len() {
            assert(poly[i] == h[0]);
        }
    }
}

/// Whether `light` lies on `e`.
pub open spec fn touches(light: Point, e: Segment) -> bool {
    exists|u: int, den: int|
        den > 0 && 0 <= u <= den && #[trigger] point_on(e, u, den) == (light.x * den, light.y * den, den)
}

/// The offset of the point `p` from the light, over the denominator of `p`.
pub open spec fn offset(p: (int, int, int), light: Point) -> (int, int) {
    (p.0 - light.x * p.2, p.1 - light.y * p.2)
}

/// Whether the offset of `p` from the light is a positive multiple of the direction of `r`.
pub open spec fn along(p: (int, int, int), light: Point, r: Segment) -> bool {
    exists|t: int| t > 0 && offset(p, light) == (#[trigger] (t * r.dx()), t * r.dy())
}

/// Where the light touches no edge, the point that `ray` cast from it finds lies on `ray`, at a
/// positive distance.
proof fn lemma_vertex_along(light: Point, ray: Segment, edges: Seq<Segment>)
    requires
        ray.start == light,
        forall|j: int| 0 <= j < edges.len() ==> !touches(light, #[trigger] edges[j]),
    ensures
        ray_vertex(ray, edges) matches Some(p) ==> along(p, light, ray),
{
    lemma_nearest_is_crossing(ray, edges);
    if let Some(c) = nearest_spec(ray, edges) {
        let j = choose|j: int| 0 <= j < edges.len() && #[trigger] crossing_spec(ray, edges[j]) == Some(c);
        lemma_crossing_on_both(ray, edges[j]);
        let p = point_on(ray, c.0, c.2);
        assert(0 <= c.1 <= c.2 && c.2 > 0 && c.0 >= 0);
        assert(offset(p, light) == (c.0 * ray.dx(), c.0 * ray.dy()));
        if c.0 == 0 {
            assert(p == (light.x * c.2, light.y * c.2, c.2)) by (nonlinear_arith)
                requires
                    p == (light.x * c.2 + c.0 * ray.dx(), light.y * c.2 + c.0 * ray.dy(), c.2),
                    c.0 == 0,
            ;
            assert(point_on(edges[j], c.1, c.2) == (light.x * c.2, light.y * c.2, c.2));
            assert(touches(light, edges[j]));
        }
        assert(along(p, light, ray));
    }
}

/// Where the light touches no edge, each point found along rays cast from it lies on one of
/// those rays, at a positive distance.
proof fn lemma_hits_along(light: Point, rays: Seq<Segment>, edges: Seq<Segment>)
    requires
        forall|i: int| 0 <= i < rays.len() ==> (#[trigger] rays[i]).start == light,
        forall|j: int| 0 <= j < edges.len() ==> !touches(light, #[trigger] edges[j]),
    ensures
        forall|k: int| 0 <= k < hits_spec(rays, edges).len() ==> exists|j: int|
            0 <= j < rays.len() && along(#[trigger] hits_spec(rays, edges)[k], light, rays[j]),
    decreases rays.len(),
{
    if rays.len() > 0 {
        let n = rays.len() - 1;
        let front = rays.drop_last();
        lemma_hits_along(light, front, edges);
        lemma_vertex_along(light, rays[n], edges);
        let h = hits_spec(rays, edges);
        let hf = hits_spec(front, edges);
        assert forall|k: int| 0 <= k < h.len() implies exists|j: int|
            0 <= j < rays.len() && along(#[trigger] h[k], light, rays[j]) by {
            if k < hf.len() {
                assert(h[k] == hf[k]);
                let j = choose|j: int| 0 <= j < front.len() && along(#[trigger] hf[k], light, front[j]);
                assert(rays[j] == front[j]);
            } else {
                assert(along(h[k], light, rays[n]));
            }
        }
    }
}

/// Along rays in descending angle, from a light that touches no edge, the points found turn one
/// way: the direction from the light to each has an angle at least that of every later one.
proof fn lemma_hits_turn(light: Point, rays: Seq<Segment>, edges: Seq<Segment>)
    requires
        forall|i: int| 0 <= i < rays.len() ==> (#[trigger] rays[i]).start == light,
        forall|i: int, j: int| 0 <= i < j < rays.len() ==> dir_ge(#[trigger] rays[i], #[trigger] rays[j]),
        forall|j: int| 0 <= j < edges.len() ==> !touches(light, #[trigger] edges[j]),
    ensures
        ({
            let h = hits_spec(rays, edges);
            forall|a: int, b: int| 0 <= a < b < h.len() ==> {
                let (p, q) = (offset(#[trigger] h[a], light), offset(#[trigger] h[b], light));
                angle_ge(p.0, p.1, q.0, q.1)
            }
        }),
    decreases rays.len(),
{
    if rays.len() > 0 {
        let n = rays.len() - 1;
        let front = rays.drop_last();
        assert forall|i: int, j: int| 0 <= i < j < front.len() implies dir_ge(#[trigger] front[i], #[trigger] front[j]) by {
            assert(front[i] == rays[i] && front[j] == rays[j]);
        }
        lemma_hits_turn(light, front, edges);
        lemma_hits_along(light, front, edges);
        lemma_vertex_along(light, rays[n], edges);
        let h = hits_spec(rays, edges);
        let hf = hits_spec(front, edges);
        assert forall|a: int, b: int| 0 <= a < b < h.len() implies {
            let (p, q) = (offset(#[trigger] h[a], light), offset(#[trigger] h[b], light));
            angle_ge(p.0, p.1, q.0, q.1)
        } by {
            assert(h[a] == hf[a]);
            if b < hf.len() {
                assert(h[b] == hf[b]);
            } else {
                let ray = rays[n];
                assert(along(h[b], light, ray));
                let ja = choose|j: int| 0 <= j < front.len() && along(#[trigger] hf[a], light, front[j]);
                let ta = choose|t: int|
                    t > 0 && offset(hf[a], light) == (#[trigger] (t * front[ja].dx()), t * front[ja].dy());
                let tb = choose|t: int| t > 0 && offset(h[b], light) == (#[trigger] (t * ray.dx()), t * ray.dy());
                assert(front[ja] == rays[ja]);
                assert(dir_ge(rays[ja], rays[n]));
                lemma_angle_scale(rays[ja].dx(), rays[ja].dy(), ray.dx(), ray.dy(), ta, tb);
            }
        }
    }
}

/// The visibility polygon turns one way: where the light touches no side of any occluder, the
/// direction from the light to each boundary point (all points but the apex and the closing
/// repeat) has an angle, in `(-pi, pi]`, at least that of every later one.
pub proof fn lemma_polygon_turns_one_way(light: Point, occs: Seq<Rect>)
    requires
        light.within(SCENE_LIMIT as int),
        forall|i: int| 0 <= i < occs.len() ==> (#[trigger] occs[i]).wf(),
        forall|j: int| 0 <= j < all_sides(occs).len() ==> !touches(light, #[trigger] all_sides(occs)[j]),
    ensures
        ({
            let poly = visibility_spec(light, occs);
            forall|a: int, b: int| 1 <= a < b < poly.len() - 1 ==> {
                let (p, q) = (offset(#[trigger] poly[a], light), offset(#[trigger] poly[b], light));
                angle_ge(p.0, p.1, q.0, q.1)
            }
        }),
{
    broadcast use vstd::seq_lib::group_to_multiset_ensures;

    let cast = scene_rays(light, occs);
    let rays = sort_desc(cast);
    lemma_scene_rays_bounded(light, occs);
    lemma_sort_desc(cast);
    assert forall|i: int| 0 <= i < rays.len() implies (#[trigger] rays[i]).start == light && dir_of(rays[i])
        != (0int, 0int) by {
        assert(rays.to_multiset().count(rays[i]) > 0);
        assert(cast.contains(rays[i]));
    }
    lemma_descending_all(rays);
    let edges = all_sides(occs);
    lemma_hits_turn(light, rays, edges);
    let h = hits_spec(rays, edges);
    let poly = visibility_spec(light, occs);
    assert forall|a: int, b: int| 1 <= a < b < poly.len() - 1 implies {
        let (p, q) = (offset(#[trigger] poly[a], light), offset(#[trigger] poly[b], light));
        angle_ge(p.0, p.1, q.0, q.1)
    } by {
        assert(poly[a] == h[a - 1] && poly[b] == h[b - 1]);
    }
}

/// Tracing is idempotent: two polygons traced for a light at the same place among the same
/// occluders are equal point for point, whatever happened between the two tracings.
pub proof fn lemma_trace_idempotent(a: Seq<RatPoint>, b: Seq<RatPoint>, light: Point, occs: Seq<Rect>)
    requires
        views(a) == visibility_spec(light, occs),
        views(b) == visibility_spec(light, occs),
    ensures
        a == b,
{
    assert(a.len() == views(a).len() && b.len() == views(b).len());
    assert forall|i: int| 0 <= i < a.len() implies a[i] == b[i] by {
        assert(views(a)[i] == a[i]@ && views(b)[i] == b[i]@);
    }
    assert(a =~= b);
}

} // verus!
