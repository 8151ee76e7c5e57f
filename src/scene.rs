use vstd::prelude::*;

use crate::geometry::{Point, Rect, SCENE_LIMIT};
use crate::visibility::{RaySource, views, visibility_spec};

verus! {

/// A direction the camera can be moved in.
#[derive(Clone, Copy, Debug, PartialEq, Eq, Structural)]
pub enum Direction {
    Up,
    Right,
    Down,
    Left,
}

/// The set of directions whose movement keys are held down.
#[derive(Clone, Copy, Debug, PartialEq, Eq, Structural)]
pub struct Controls {
    pub up: bool,
    pub right: bool,
    pub down: bool,
    pub left: bool,
}

impl Controls {
    /// Whether `d` is in the set.
    pub open spec fn holds(self, d: Direction) -> bool {
        match d {
            Direction::Up => self.up,
            Direction::Right => self.right,
            Direction::Down => self.down,
            Direction::Left => self.left,
        }
    }

    /// The empty set.
    pub fn none() -> (r: Controls)
        ensures
            forall|d: Direction| !r.holds(d),
    {
        Controls { up: false, right: false, down: false, left: false }
    }

    /// Whether `d` is in the set.
    pub fn contains(&self, d: Direction) -> (r: bool)
        ensures
            r == self.holds(d),
    {
        match d {
            Direction::Up => self.up,
            Direction::Right => self.right,
            Direction::Down => self.down,
            Direction::Left => self.left,
        }
    }

    /// Adds `d` to the set, or removes it, leaving the other directions as they are.
    pub fn set(&mut self, d: Direction, on: bool)
        ensures
            final(self).holds(d) == on,
            forall|e: Direction| e != d ==> final(self).holds(e) == old(self).holds(e),
    {
        match d {
            Direction::Up => self.up = on,
            Direction::Right => self.right = on,
            Direction::Down => self.down = on,
            Direction::Left => self.left = on,
        }
    }
}

/// A scene: point lights among rectangular occluders, and the movement keys held down.
pub struct App {
    lights: Vec<RaySource>,
    shapes: Vec<Rect>,
    controls: Controls,
}

impl App {
    /// Lights that can be traced and occluders that occlude.
    pub closed spec fn wf(self) -> bool {
        &&& forall|i: int| 0 <= i < self.lights.len() ==> (#[trigger] self.lights[i]).pos.within(SCENE_LIMIT as int)
        &&& forall|i: int| 0 <= i < self.shapes.len() ==> (#[trigger] self.shapes[i]).wf()
    }

    pub closed spec fn light_seq(self) -> Seq<RaySource> {
        self.lights@
    }

    pub closed spec fn shape_seq(self) -> Seq<Rect> {
        self.shapes@
    }

    pub closed spec fn held(self) -> Controls {
        self.controls
    }

    /// One light at `(485, 485)` inside a bounding occluder from `(-5000, -5000)` to
    /// `(5000, 5000)`, with three occluders inside it; no key held.
    pub fn new() -> (r: App)
        ensures
            r.wf(),
            r.light_seq().len() == 1,
            r.light_seq()[0].pos == (Point { x: 485, y: 485 }),
            r.light_seq()[0].should_update,
            r.light_seq()[0].visible@.len() == 0,
            r.shape_seq() == seq![
                Rect { x: -5000i64, y: -5000i64, w: 10000, h: 10000 },
                Rect { x: 30, y: 30, w: 80, h: 80 },
                Rect { x: 400, y: 80, w: 60, h: 120 },
                Rect { x: 300, y: 550, w: 350, h: 50 },
            ],
            forall|d: Direction| !r.held().holds(d),
    {
        let mut lights: Vec<RaySource> = Vec::new();
        lights.push(RaySource::new().at_position(Point::new(485, 485)));
        let mut shapes: Vec<Rect> = Vec::new();
        shapes.push(Rect::new(-5000, -5000, 10000, 10000));
        shapes.push(Rect::new(30, 30, 80, 80));
        shapes.push(Rect::new(400, 80, 60, 120));
        shapes.push(Rect::new(300, 550, 350, 50));
        let r = App { lights, shapes, controls: Controls::none() };
        assert(r.shape_seq() =~= seq![
            Rect { x: -5000i64, y: -5000i64, w: 10000, h: 10000 },
            Rect { x: 30, y: 30, w: 80, h: 80 },
            Rect { x: 400, y: 80, w: 60, h: 120 },
            Rect { x: 300, y: 550, w: 350, h: 50 },
        ]);
        r
    }

    /// The lights, with the polygons they lit when last traced.
    pub fn lights(&self) -> (r: &Vec<RaySource>)
        ensures
            r@ == self.light_seq(),
    {
        &self.lights
    }

    /// The occluders; the first one bounds the scene.
    pub fn shapes(&self) -> (r: &Vec<Rect>)
        ensures
            r@ == self.shape_seq(),
    {
        &self.shapes
    }

    /// The movement keys held down.
    pub fn controls(&self) -> (r: Controls)
        ensures
            r == self.held(),
    {
        self.controls
    }

    /// Traces again each light whose polygon is out of date.
    pub fn update(&mut self)
        requires
            old(self).wf(),
        ensures
            final(self).wf(),
            final(self).shape_seq() == old(self).shape_seq(),
            final(self).held() == old(self).held(),
            final(self).light_seq().len() == old(self).light_seq().len(),
            forall|i: int| 0 <= i < final(self).light_seq().len() ==> {
                let (a, b) = (#[trigger] old(self).light_seq()[i], final(self).light_seq()[i]);
                &&& b.pos == a.pos
                &&& !b.should_update
                &&& a.should_update ==> views(b.visible@) == visibility_spec(a.pos, old(self).shape_seq())
                &&& !a.should_update ==> b.visible@ == a.visible@
            },
    {
        let ghost before = self.lights@;
        let mut i: usize = 0;
        while i < self.lights.len()
            invariant
                i <= self.lights.len(),
                self.lights.len() == before.len(),
                forall|k: int| 0 <= k < self.shapes.len() ==> (#[trigger] self.shapes[k]).wf(),
                forall|k: int| 0 <= k < before.len() ==> (#[trigger] before[k]).pos.within(SCENE_LIMIT as int),
                self.shapes@ == old(self).shapes@,
                self.controls == old(self).controls,
                before == old(self).lights@,
                forall|k: int| i <= k < before.len() ==> #[trigger] self.lights[k] == before[k],
                forall|k: int| 0 <= k < i ==> {
                    let (a, b) = (#[trigger] before[k], self.lights[k]);
                    &&& b.pos == a.pos
                    &&& !b.should_update
                    &&& a.should_update ==> views(b.visible@) == visibility_spec(a.pos, self.shapes@)
                    &&& !a.should_update ==> b.visible@ == a.visible@
                },
            decreases before.len() - i,
        {
            if self.lights[i].should_update {
                let pos = self.lights[i].pos;
                let visible = crate::visibility::compute_visibility(pos, &self.shapes);
                self.lights.set(i, RaySource { pos, should_update: false, visible });
            } else {
                let pos = self.lights[i].pos;
                let visible = self.lights[i].visible.clone();
                self.lights.set(i, RaySource { pos, should_update: false, visible });
            }
            i = i + 1;
        }
        assert forall|k: int| 0 <= k < self.lights.len() implies (#[trigger] self.lights[k]).pos.within(
            SCENE_LIMIT as int,
        ) by {
            assert(before[k].pos.within(SCENE_LIMIT as int));
        }
    }

    /// Marks the movement key of `d` as held.
    pub fn enable_key(&mut self, d: Direction)
        ensures
            final(self).held().holds(d),
            forall|e: Direction| e != d ==> final(self).held().holds(e) == old(self).held().holds(e),
            final(self).light_seq() == old(self).light_seq(),
            final(self).shape_seq() == old(self).shape_seq(),
            old(self).wf() ==> final(self).wf(),
    {
        self.controls.set(d, true);
    }

    /// Marks the movement key of `d` as released.
    pub fn disable_key(&mut self, d: Direction)
        ensures
            !final(self).held().holds(d),
            forall|e: Direction| e != d ==> final(self).held().holds(e) == old(self).held().holds(e),
            final(self).light_seq() == old(self).light_seq(),
            final(self).shape_seq() == old(self).shape_seq(),
            old(self).wf() ==> final(self).wf(),
    {
        self.controls.set(d, false);
    }
}

} // verus!
