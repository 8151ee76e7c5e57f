use raycast2d::geometry::{crossing, intersect, Point, RatPoint, Rect, Segment};
use raycast2d::rays::{cast_rays, direction_ge, sort_rays, RAY_LENGTH};
use raycast2d::scene::{App, Controls, Direction};
use raycast2d::visibility::{compute_visibility, nearest_hit, scene_edges, RaySource};

fn seg(x0: i64, y0: i64, x1: i64, y1: i64) -> Segment {
    Segment::new(Point::new(x0, y0), Point::new(x1, y1))
}

fn as_f64(p: &RatPoint) -> (f64, f64) {
    (p.x as f64 / p.den as f64, p.y as f64 / p.den as f64)
}

fn dist(a: (f64, f64), b: (f64, f64)) -> f64 {
    ((a.0 - b.0).powi(2) + (a.1 - b.1).powi(2)).sqrt()
}

#[test]
fn diagonals_meet_in_the_middle() {
    let p = intersect(&seg(0, 0, 10, 10), &seg(0, 10, 10, 0)).unwrap();
    assert!(p.den > 0);
    assert!(p.is_at(5, 5));
    assert!(!p.is_at(5, 4));
}

#[test]
fn meeting_point_off_grid() {
    let p = intersect(&seg(0, 0, 3, 0), &seg(1, -1, 2, 1)).unwrap();
    assert_eq!(p.x * 2, 3 * p.den);
    assert_eq!(p.y, 0);
}

#[test]
fn intersection_is_symmetric() {
    let pairs = [
        (seg(0, 0, 10, 10), seg(0, 10, 10, 0)),
        (seg(0, 0, 3, 0), seg(1, -1, 2, 1)),
        (seg(-7, 2, 9, 5), seg(4, -8, 1, 12)),
        (seg(0, 0, 1, 0), seg(5, -1, 5, 1)),
        (seg(0, 0, 4, 0), seg(2, 0, 6, 0)),
    ];
    for (a, b) in pairs.iter() {
        assert_eq!(intersect(a, b), intersect(b, a));
    }
    assert!(intersect(&pairs[3].0, &pairs[3].1).is_none());
}

#[test]
fn parallel_segments_never_meet() {
    assert!(intersect(&seg(0, 0, 10, 0), &seg(0, 5, 10, 5)).is_none());
    assert!(intersect(&seg(0, 0, 10, 0), &seg(10, 5, 0, 5)).is_none());
    assert!(intersect(&seg(0, 0, 3, 4), &seg(1, 0, 4, 4)).is_none());
    // On one line, overlapping: still parallel, so no single point.
    assert!(intersect(&seg(0, 0, 4, 0), &seg(2, 0, 6, 0)).is_none());
}

#[test]
fn segment_ends_count_as_meeting() {
    let p = intersect(&seg(0, 0, 10, 0), &seg(10, -5, 10, 5)).unwrap();
    assert!(p.is_at(10, 0));
    let c = crossing(&seg(0, 0, 10, 0), &seg(10, -5, 10, 5)).unwrap();
    assert_eq!(c.t, c.den);
    assert_eq!(c.u * 2, c.den);
}

#[test]
fn rectangle_corners_and_sides() {
    let r = Rect::new(30, 40, 80, 20);
    let v = r.vertices();
    assert_eq!(v, [Point::new(30, 40), Point::new(110, 40), Point::new(110, 60), Point::new(30, 60)]);
    let e = r.edges();
    assert_eq!(e[0], seg(30, 40, 110, 40));
    assert_eq!(e[1], seg(110, 40, 110, 60));
    assert_eq!(e[2], seg(110, 60, 30, 60));
    assert_eq!(e[3], seg(30, 60, 30, 40));
}

fn reach_sq(r: &Segment) -> i128 {
    let (dx, dy) = ((r.end.x - r.start.x) as i128, (r.end.y - r.start.y) as i128);
    dx * dx + dy * dy
}

fn within_one_of_length(r: &Segment) -> bool {
    let l = RAY_LENGTH as i128;
    (l - 1) * (l - 1) <= reach_sq(r) && reach_sq(r) <= (l + 1) * (l + 1)
}

fn angle(r: &Segment) -> f64 {
    ((r.end.y - r.start.y) as f64).atan2((r.end.x - r.start.x) as f64)
}

#[test]
fn ray_reaches_far_along_its_direction() {
    let r = Segment::ray(Point::new(0, 0), 100, 0);
    assert_eq!(r.start, Point::new(0, 0));
    assert_eq!(r.end, Point::new(2147483647, 0));
    // 2147483647 * (3/5, -4/5) is (1288490188.2, -1717986917.6), rounded.
    let r = Segment::ray(Point::new(5, -3), 300, -400);
    assert_eq!(r.start, Point::new(5, -3));
    assert_eq!(r.end, Point::new(5 + 1288490188, -3 - 1717986918));
    assert!(within_one_of_length(&r));
    // Short and long directions reach equally far.
    let a = Segment::ray(Point::new(7, 7), 1, 1);
    let b = Segment::ray(Point::new(7, 7), 1000, 1000);
    assert_eq!(a, b);
    assert!(within_one_of_length(&a));
    assert!(a.end.x > 1048576 && a.end.y > 1048576);
}

#[test]
fn three_rays_per_corner() {
    let light = RaySource::new().at_position(Point::new(10, 20));
    let mut rays = Vec::new();
    light.trace_to(&mut rays, &Rect::new(30, 40, 5, 5));
    assert_eq!(rays.len(), 12);
    // The first corner lies at offset (20, 20) from the light.
    assert_eq!(rays[0], Segment::ray(Point::new(10, 20), 2020, 1980));
    assert_eq!(rays[1], Segment::ray(Point::new(10, 20), 2000, 2000));
    assert_eq!(rays[2], Segment::ray(Point::new(10, 20), 1980, 2020));
    let straight = (20.0f64).atan2(20.0);
    assert!((angle(&rays[1]) - straight).abs() < 1e-8);
    assert!((angle(&rays[0]) - (straight - 0.01)).abs() < 1e-6);
    assert!((angle(&rays[2]) - (straight + 0.01)).abs() < 1e-6);
    assert!(rays[0].end != rays[1].end && rays[1].end != rays[2].end && rays[0].end != rays[2].end);
    for r in rays.iter() {
        assert_eq!(r.start, Point::new(10, 20));
        assert!(within_one_of_length(r));
    }
}

#[test]
fn straight_ray_past_a_corner_to_the_left() {
    let light = RaySource::new().at_position(Point::new(0, 0));
    let mut rays = Vec::new();
    light.trace_to(&mut rays, &Rect::new(-2, 0, 1, 1));
    assert_eq!(rays.len(), 12);
    assert_eq!(rays[1].start, Point::new(0, 0));
    assert_eq!(rays[1].end, Point::new(-2147483647, 0));
}

#[test]
fn corner_at_the_light_casts_toward_minus_x() {
    let light = Point::new(30, 40);
    let rays = cast_rays(light, &vec![Rect::new(30, 40, 5, 5)]);
    assert_eq!(rays.len(), 12);
    assert_eq!(rays[0], Segment::ray(light, -100, 1));
    assert_eq!(rays[1], Segment::ray(light, -100, 0));
    assert_eq!(rays[2], Segment::ray(light, -100, -1));
    assert_eq!(rays[1].end, Point::new(30 - 2147483647, 40));
    assert!(rays[0].end != rays[1].end && rays[1].end != rays[2].end && rays[0].end != rays[2].end);
}

#[test]
fn rays_sort_by_descending_angle() {
    let light = Point::new(485, 485);
    let mut rays = cast_rays(light, &vec![Rect::new(0, 0, 750, 750), Rect::new(30, 30, 80, 80)]);
    let n = rays.len();
    sort_rays(&mut rays);
    assert_eq!(rays.len(), n);
    for w in rays.windows(2) {
        assert!(direction_ge(&w[0], &w[1]));
        let a0 = ((w[0].end.y - w[0].start.y) as f64).atan2((w[0].end.x - w[0].start.x) as f64);
        let a1 = ((w[1].end.y - w[1].start.y) as f64).atan2((w[1].end.x - w[1].start.x) as f64);
        assert!(a0 >= a1);
    }
}

#[test]
fn light_in_a_bounding_box_sees_its_corners() {
    let light = Point::new(485, 485);
    let poly = compute_visibility(light, &vec![Rect::new(0, 0, 750, 750)]);
    // The apex, two points beside each corner, and the first point again.
    assert_eq!(poly.len(), 10);
    assert!(poly[0].is_at(485, 485));
    assert_eq!(poly[1], poly[9]);
    let corners = [(0.0, 0.0), (750.0, 0.0), (750.0, 750.0), (0.0, 750.0)];
    let mut near = [0; 4];
    for p in poly[1..9].iter() {
        let q = as_f64(p);
        let k = corners.iter().position(|c| dist(q, *c) < 15.0).unwrap();
        near[k] += 1;
        // Every point lies on the box.
        assert!(q.0.abs() < 1e-9 || (q.0 - 750.0).abs() < 1e-9 || q.1.abs() < 1e-9 || (q.1 - 750.0).abs() < 1e-9);
    }
    assert_eq!(near, [2, 2, 2, 2]);
}

#[test]
fn ray_through_a_corner_finds_no_hit() {
    let edges = scene_edges(&vec![Rect::new(0, 0, 750, 750)]);
    let ray = Segment::ray(Point::new(485, 485), -48500, -48500);
    assert!(nearest_hit(&ray, &edges).is_none());
    let ray = Segment::ray(Point::new(485, 485), -48500, -48000);
    assert!(nearest_hit(&ray, &edges).is_some());
}

#[test]
fn nearest_hit_is_the_nearer_side() {
    let edges = scene_edges(&vec![Rect::new(0, 0, 100, 100), Rect::new(60, 40, 10, 20)]);
    let ray = Segment::ray(Point::new(20, 50), 100, 0);
    let c = nearest_hit(&ray, &edges).unwrap();
    // The occluder's left side at x = 60, not the box's side at x = 100.
    assert_eq!(c.t * RAY_LENGTH as i128, 40 * c.den);
}

#[test]
fn same_scene_same_polygon() {
    let light = Point::new(485, 485);
    let occ = vec![
        Rect::new(-5000, -5000, 10000, 10000),
        Rect::new(30, 30, 80, 80),
        Rect::new(400, 80, 60, 120),
        Rect::new(300, 550, 350, 50),
    ];
    let a = compute_visibility(light, &occ);
    let b = compute_visibility(light, &occ);
    assert_eq!(a, b);
    assert!(a.len() > 2);
}

#[test]
fn polygon_turns_one_way() {
    let light = Point::new(485, 485);
    let occ = vec![
        Rect::new(-5000, -5000, 10000, 10000),
        Rect::new(30, 30, 80, 80),
        Rect::new(400, 80, 60, 120),
        Rect::new(300, 550, 350, 50),
    ];
    let poly = compute_visibility(light, &occ);
    let angles: Vec<f64> = poly[1..poly.len() - 1]
        .iter()
        .map(|p| {
            let q = as_f64(p);
            (q.1 - 485.0).atan2(q.0 - 485.0)
        })
        .collect();
    for w in angles.windows(2) {
        assert!(w[0] >= w[1] - 1e-9);
    }
}

#[test]
fn occluder_hides_its_inside() {
    let lights = [Point::new(485, 485), Point::new(20, 20), Point::new(150, 10)];
    let inner = Rect::new(100, 100, 40, 60);
    for light in lights.iter() {
        let poly = compute_visibility(*light, &vec![Rect::new(0, 0, 750, 750), inner]);
        for p in poly.iter() {
            let inside_x = 100 * p.den < p.x && p.x < 140 * p.den;
            let inside_y = 100 * p.den < p.y && p.y < 160 * p.den;
            assert!(!(inside_x && inside_y));
        }
    }
}

#[test]
fn no_occluders_gives_the_apex_alone() {
    let poly = compute_visibility(Point::new(3, 4), &Vec::new());
    assert_eq!(poly.len(), 1);
    assert!(poly[0].is_at(3, 4));
}

#[test]
fn light_updates_only_when_moved() {
    let occ = vec![Rect::new(0, 0, 750, 750)];
    let mut light = RaySource::new().at_position(Point::new(485, 485));
    assert!(light.should_update);
    light.update(&occ);
    assert!(!light.should_update);
    let first = light.visible_polygon().clone();
    assert_eq!(first.len(), 10);
    light.update(&vec![Rect::new(0, 0, 700, 700)]);
    assert_eq!(light.visible_polygon(), &first);
    light.move_to(Point::new(100, 100));
    assert!(light.should_update);
    light.update(&occ);
    assert!(light.visible_polygon()[0].is_at(100, 100));
    assert_ne!(light.visible_polygon(), &first);
}

#[test]
fn app_traces_its_light() {
    let mut app = App::new();
    assert_eq!(app.shapes().len(), 4);
    assert!(app.lights()[0].should_update);
    assert!(app.lights()[0].visible_polygon().is_empty());
    app.update();
    let light = &app.lights()[0];
    assert!(!light.should_update);
    assert!(light.visible_polygon()[0].is_at(485, 485));
    assert_eq!(light.visible, compute_visibility(Point::new(485, 485), app.shapes()));
}

#[test]
fn keys_toggle_directions() {
    let mut app = App::new();
    assert_eq!(app.controls(), Controls::none());
    app.enable_key(Direction::Up);
    app.enable_key(Direction::Left);
    assert!(app.controls().contains(Direction::Up));
    assert!(app.controls().contains(Direction::Left));
    assert!(!app.controls().contains(Direction::Down));
    app.disable_key(Direction::Up);
    assert!(!app.controls().contains(Direction::Up));
    assert!(app.controls().contains(Direction::Left));
}

#[test]
fn largest_scene_traces() {
    let occ = vec![Rect::new(-1048576, -1048576, 2097152, 2097152), Rect::new(1048000, -1048576, 576, 100)];
    for light in [Point::new(-1048576, 1048576), Point::new(1048575, -1048575), Point::new(0, 0)].iter() {
        let poly = compute_visibility(*light, &occ);
        assert!(poly.len() > 2);
        assert!(poly[0].is_at(light.x, light.y));
        assert_eq!(poly[1], poly[poly.len() - 1]);
        for p in poly.iter() {
            assert!(p.den > 0);
            assert!(p.x >= -1048576 * p.den && p.x <= 1048576 * p.den);
            assert!(p.y >= -1048576 * p.den && p.y <= 1048576 * p.den);
        }
    }
}

#[test]
fn squared_distance_is_exact() {
    assert_eq!(Point::new(1, 2).distance_sq_to(&Point::new(4, 6)), 25);
    assert_eq!(Point::new(-3, 0).distance_sq_to(&Point::new(-3, 0)), 0);
    assert_eq!(Point::new(0, 0).distance_sq_to(&Point::new(2147483647, 0)), 2147483647i128 * 2147483647);
}

#[test]
fn retracing_after_the_flag_is_set_back_gives_the_same_polygon() {
    let occ = vec![Rect::new(0, 0, 750, 750), Rect::new(100, 100, 40, 60)];
    let mut light = RaySource::new().at_position(Point::new(485, 485));
    light.update(&occ);
    let first = light.visible_polygon().clone();
    light.move_to(Point::new(485, 485));
    assert!(light.should_update);
    light.update(&occ);
    assert_eq!(light.visible_polygon(), &first);
}
