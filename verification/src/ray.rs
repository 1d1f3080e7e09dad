//! Rays and the sphere-tracing marcher.

use vstd::prelude::*;
use crate::fixed::{div_round, div_toward_zero, lemma_quotient_bounded, mul_wide, LIMIT, ONE};
use crate::lighting::Color;
use crate::objects::{lemma_plane_first_step, lemma_sphere_first_step, HorizontalPlane, Object,
    Shape, Sphere};
use crate::scene::{prime_direction, Scene};
use crate::reflection::lemma_reflection;
use crate::vector::{Point3, V3, Vector3};

verus! {

/// Distance after which a ray stops marching, unless configured otherwise.
pub const RAY_MAX_TRAVEL_DISTANCE: i64 = 100_000_000;

/// Distance from a surface below which it counts as hit, unless configured otherwise.
pub const RAY_HIT_THRESHOLD: i64 = 1_000;

/// Number of times a ray may be reflected, unless configured otherwise.
pub const RAY_REFLECT_LIMIT: usize = 1;

/// The parameters of a render pass.
#[derive(Clone, Copy, Debug, PartialEq, Eq, Structural)]
pub struct RenderConfig {
    /// Distance from a surface below which it counts as hit.
    pub hit_threshold: i64,
    /// Distance after which a ray stops marching.
    pub max_travel_distance: i64,
    /// Number of times a ray may be reflected.
    pub reflect_limit: usize,
}

impl RenderConfig {
    /// Both distances are positive and within the representable world.
    pub open spec fn wf(&self) -> bool {
        &&& 0 < self.hit_threshold <= LIMIT
        &&& 0 < self.max_travel_distance <= LIMIT
    }

    pub fn is_wf(&self) -> (b: bool)
        ensures
            b == self.wf(),
    {
        0 < self.hit_threshold && self.hit_threshold <= LIMIT && 0 < self.max_travel_distance
            && self.max_travel_distance <= LIMIT
    }

    /// The configuration with the given parameters, if both distances are positive and
    /// within the representable world.
    pub fn new(hit_threshold: i64, max_travel_distance: i64, reflect_limit: usize) -> (r: Option<
        RenderConfig,
    >)
        ensures
            r == (if 0 < hit_threshold <= LIMIT && 0 < max_travel_distance <= LIMIT {
                Some(RenderConfig { hit_threshold, max_travel_distance, reflect_limit })
            } else {
                None
            }),
    {
        let c = RenderConfig { hit_threshold, max_travel_distance, reflect_limit };
        if c.is_wf() {
            Some(c)
        } else {
            None
        }
    }
}

impl Default for RenderConfig {
    fn default() -> (c: RenderConfig)
        ensures
            c == (RenderConfig {
                hit_threshold: RAY_HIT_THRESHOLD,
                max_travel_distance: RAY_MAX_TRAVEL_DISTANCE,
                reflect_limit: RAY_REFLECT_LIMIT,
            }),
            c.wf(),
    {
        RenderConfig {
            hit_threshold: RAY_HIT_THRESHOLD,
            max_travel_distance: RAY_MAX_TRAVEL_DISTANCE,
            reflect_limit: RAY_REFLECT_LIMIT,
        }
    }
}

/// Every object of the sequence is well formed.
pub open spec fn all_wf<O: Object>(objects: Seq<O>) -> bool {
    forall|i: int| 0 <= i < objects.len() ==> (#[trigger] objects[i]).wf()
}

/// Index `i` is among the first `n` and is not ignored.
pub open spec fn candidate(n: int, ignore: Seq<usize>, i: int) -> bool {
    0 <= i < n && !ignore.contains(i as usize)
}

/// Among the candidates below `n`, object `i` is nearest to `p`; of several equally near,
/// it has the lowest index.
pub open spec fn is_closest_in<O: Object>(
    objects: Seq<O>,
    ignore: Seq<usize>,
    p: V3,
    n: int,
    i: int,
) -> bool {
    &&& candidate(n, ignore, i)
    &&& forall|j: int| #[trigger]
        candidate(n, ignore, j) ==> objects[i].distance(p) < objects[j].distance(p) || (
        objects[i].distance(p) == objects[j].distance(p) && i <= j)
}

/// The index of the candidate nearest to `p`, the lowest such index if several are
/// equally near; `None` if every object is ignored.
pub open spec fn closest<O: Object>(objects: Seq<O>, ignore: Seq<usize>, p: V3) -> Option<int> {
    if exists|i: int| is_closest_in(objects, ignore, p, objects.len() as int, i) {
        Some(choose|i: int| is_closest_in(objects, ignore, p, objects.len() as int, i))
    } else {
        None
    }
}

/// At most one index is the closest.
pub proof fn lemma_closest_unique<O: Object>(objects: Seq<O>, ignore: Seq<usize>, p: V3, i: int)
    requires
        is_closest_in(objects, ignore, p, objects.len() as int, i),
    ensures
        closest(objects, ignore, p) == Some(i),
{
    let n = objects.len() as int;
    let c = choose|c: int| is_closest_in(objects, ignore, p, n, c);
    assert(candidate(n, ignore, c));
    assert(candidate(n, ignore, i));
}

/// With no candidate there is no closest object.
pub proof fn lemma_closest_none<O: Object>(objects: Seq<O>, ignore: Seq<usize>, p: V3)
    requires
        forall|j: int| !candidate(objects.len() as int, ignore, j),
    ensures
        closest(objects, ignore, p) is None,
{
}

/// How a march ended.
pub struct Outcome {
    /// The index of the object that was hit, if any.
    pub hit: Option<int>,
    /// Where the ray stood when the march ended: the point of contact after a hit.
    pub position: V3,
    /// The distance covered.
    pub travelled: int,
}

/// An upper bound on the steps left to a ray that has covered `travelled`.
pub open spec fn budget(cfg: RenderConfig, travelled: int) -> int {
    if travelled <= cfg.max_travel_distance {
        cfg.max_travel_distance - travelled + 1
    } else {
        0
    }
}

/// Sphere tracing from `pos`, after `travelled` has been covered.
///
/// The nearest candidate decides: closer than the threshold, it is hit. Otherwise the
/// ray gives up once it has covered more than the maximum distance, or when its next
/// position would leave the representable world; else it advances by the distance to
/// the nearest candidate. Without candidates nothing is hit.
pub open spec fn march_from<O: Object>(
    objects: Seq<O>,
    ignore: Seq<usize>,
    cfg: RenderConfig,
    dir: V3,
    pos: V3,
    travelled: int,
) -> Outcome
    decreases budget(cfg, travelled),
    when cfg.hit_threshold > 0
{
    match closest(objects, ignore, pos) {
        None => Outcome { hit: None, position: pos, travelled },
        Some(i) => {
            let d = objects[i].distance(pos);
            let next = pos.plus(dir.scaled(d));
            if d < cfg.hit_threshold {
                Outcome { hit: Some(i), position: pos, travelled }
            } else if travelled > cfg.max_travel_distance || !next.within(LIMIT as int) {
                Outcome { hit: None, position: pos, travelled }
            } else {
                march_from(objects, ignore, cfg, dir, next, travelled + d)
            }
        },
    }
}

/// The march of a ray that leaves `origin` in direction `dir`.
///
/// The ray first advances by the hit threshold, so that it does not hit the surface it
/// leaves. If that already leads out of the representable world, nothing is hit.
pub open spec fn march<O: Object>(
    objects: Seq<O>,
    ignore: Seq<usize>,
    cfg: RenderConfig,
    origin: V3,
    dir: V3,
) -> Outcome {
    let start = origin.plus(dir.scaled(cfg.hit_threshold as int));
    if start.within(LIMIT as int) {
        march_from(objects, ignore, cfg, dir, start, cfg.hit_threshold as int)
    } else {
        Outcome { hit: None, position: origin, travelled: 0 }
    }
}

/// A ray never hits anything when every object is ignored, and so when there is none.
pub proof fn lemma_march_without_candidates<O: Object>(
    objects: Seq<O>,
    ignore: Seq<usize>,
    cfg: RenderConfig,
    origin: V3,
    dir: V3,
)
    requires
        cfg.wf(),
        forall|i: int| !candidate(objects.len() as int, ignore, i),
    ensures
        march(objects, ignore, cfg, origin, dir).hit is None,
{
    let start = origin.plus(dir.scaled(cfg.hit_threshold as int));
    lemma_closest_none(objects, ignore, start);
}

/// A ray never hits anything where there are no objects.
pub proof fn lemma_march_without_objects<O: Object>(
    objects: Seq<O>,
    ignore: Seq<usize>,
    cfg: RenderConfig,
    origin: V3,
    dir: V3,
)
    requires
        cfg.wf(),
        objects.len() == 0,
    ensures
        march(objects, ignore, cfg, origin, dir).hit is None,
{
    lemma_march_without_candidates(objects, ignore, cfg, origin, dir);
}

/// A ray that, after its first step of one threshold, stands closer than the threshold
/// to the only object hits it there, having covered the threshold and no more.
pub proof fn lemma_march_hits_at_once<O: Object>(
    objects: Seq<O>,
    cfg: RenderConfig,
    origin: V3,
    dir: V3,
)
    requires
        cfg.wf(),
        objects.len() == 1,
        origin.plus(dir.scaled(cfg.hit_threshold as int)).within(LIMIT as int),
        objects[0].distance(origin.plus(dir.scaled(cfg.hit_threshold as int)))
            < cfg.hit_threshold,
    ensures
        march(objects, Seq::<usize>::empty(), cfg, origin, dir) == (Outcome {
            hit: Some(0),
            position: origin.plus(dir.scaled(cfg.hit_threshold as int)),
            travelled: cfg.hit_threshold as int,
        }),
{
    let start = origin.plus(dir.scaled(cfg.hit_threshold as int));
    let ignore = Seq::<usize>::empty();
    assert(candidate(1, ignore, 0));
    assert(is_closest_in(objects, ignore, start, 1, 0));
    lemma_closest_unique(objects, ignore, start, 0);
}

/// A ray that starts on a plane, the only object, and does not run straight up or down
/// hits the plane after its first step.
pub proof fn lemma_march_from_plane(plane: HorizontalPlane, cfg: RenderConfig, origin: V3, dir: V3)
    requires
        cfg.wf(),
        origin.y == plane.y,
        dir.within(ONE as int),
        -ONE < dir.y < ONE,
        origin.plus(dir.scaled(cfg.hit_threshold as int)).within(LIMIT as int),
    ensures
        march(seq![Shape::Plane(plane)], Seq::<usize>::empty(), cfg, origin, dir) == (Outcome {
            hit: Some(0),
            position: origin.plus(dir.scaled(cfg.hit_threshold as int)),
            travelled: cfg.hit_threshold as int,
        }),
{
    lemma_plane_first_step(plane, origin, dir, cfg.hit_threshold as int);
    lemma_march_hits_at_once(seq![Shape::Plane(plane)], cfg, origin, dir);
}

/// A ray that starts on a sphere, the only object, and whose first step does not lead
/// away from the centre hits the sphere after that step, if the threshold is at least
/// two raw units and no larger than the radius.
pub proof fn lemma_march_from_sphere(sphere: Sphere, cfg: RenderConfig, origin: V3, dir: V3)
    requires
        cfg.wf(),
        2 <= cfg.hit_threshold <= sphere.radius,
        origin.minus(sphere.centre@).length() == sphere.radius,
        dir.is_unit(),
        dir.scaled(cfg.hit_threshold as int).dot(origin.minus(sphere.centre@)) <= 0,
        origin.plus(dir.scaled(cfg.hit_threshold as int)).within(LIMIT as int),
    ensures
        march(seq![Shape::Sphere(sphere)], Seq::<usize>::empty(), cfg, origin, dir) == (Outcome {
            hit: Some(0),
            position: origin.plus(dir.scaled(cfg.hit_threshold as int)),
            travelled: cfg.hit_threshold as int,
        }),
{
    lemma_sphere_first_step(sphere, origin, dir, cfg.hit_threshold as int);
    lemma_march_hits_at_once(seq![Shape::Sphere(sphere)], cfg, origin, dir);
}

/// The march does not depend on the reflection limit.
pub proof fn lemma_march_from_reflect_limit<O: Object>(
    objects: Seq<O>,
    ignore: Seq<usize>,
    cfg: RenderConfig,
    other: RenderConfig,
    dir: V3,
    pos: V3,
    travelled: int,
)
    requires
        cfg.hit_threshold > 0,
        cfg.hit_threshold == other.hit_threshold,
        cfg.max_travel_distance == other.max_travel_distance,
    ensures
        march_from(objects, ignore, cfg, dir, pos, travelled) == march_from(
            objects,
            ignore,
            other,
            dir,
            pos,
            travelled,
        ),
    decreases budget(cfg, travelled),
{
    match closest(objects, ignore, pos) {
        None => {},
        Some(i) => {
            let d = objects[i].distance(pos);
            let next = pos.plus(dir.scaled(d));
            if d >= cfg.hit_threshold && travelled <= cfg.max_travel_distance && next.within(
                LIMIT as int,
            ) {
                lemma_march_from_reflect_limit(
                    objects,
                    ignore,
                    cfg,
                    other,
                    dir,
                    next,
                    travelled + d,
                );
            }
        },
    }
}

/// The march of a ray does not depend on the reflection limit.
pub proof fn lemma_march_reflect_limit<O: Object>(
    objects: Seq<O>,
    ignore: Seq<usize>,
    cfg: RenderConfig,
    other: RenderConfig,
    origin: V3,
    dir: V3,
)
    requires
        cfg.hit_threshold > 0,
        cfg.hit_threshold == other.hit_threshold,
        cfg.max_travel_distance == other.max_travel_distance,
    ensures
        march(objects, ignore, cfg, origin, dir) == march(objects, ignore, other, origin, dir),
{
    let start = origin.plus(dir.scaled(cfg.hit_threshold as int));
    lemma_march_from_reflect_limit(
        objects,
        ignore,
        cfg,
        other,
        dir,
        start,
        cfg.hit_threshold as int,
    );
}

/// What a march hits is one of the objects, and not an ignored one.
pub proof fn lemma_march_from_hits_candidate<O: Object>(
    objects: Seq<O>,
    ignore: Seq<usize>,
    cfg: RenderConfig,
    dir: V3,
    pos: V3,
    travelled: int,
)
    requires
        cfg.hit_threshold > 0,
    ensures
        march_from(objects, ignore, cfg, dir, pos, travelled).hit matches Some(i) ==> candidate(
            objects.len() as int,
            ignore,
            i,
        ),
    decreases budget(cfg, travelled),
{
    match closest(objects, ignore, pos) {
        None => {},
        Some(i) => {
            let d = objects[i].distance(pos);
            let next = pos.plus(dir.scaled(d));
            if d >= cfg.hit_threshold && travelled <= cfg.max_travel_distance && next.within(
                LIMIT as int,
            ) {
                lemma_march_from_hits_candidate(objects, ignore, cfg, dir, next, travelled + d);
            }
        },
    }
}

/// What a ray hits is one of the objects, and not an ignored one.
pub proof fn lemma_march_hits_candidate<O: Object>(
    objects: Seq<O>,
    ignore: Seq<usize>,
    cfg: RenderConfig,
    origin: V3,
    dir: V3,
)
    requires
        cfg.hit_threshold > 0,
    ensures
        march(objects, ignore, cfg, origin, dir).hit matches Some(i) ==> candidate(
            objects.len() as int,
            ignore,
            i,
        ),
{
    let start = origin.plus(dir.scaled(cfg.hit_threshold as int));
    lemma_march_from_hits_candidate(objects, ignore, cfg, dir, start, cfg.hit_threshold as int);
}

/// Where a ray met an object.
#[derive(Clone, Copy, Debug, PartialEq, Eq, Structural)]
pub struct HitData {
    pub object_index: usize,
    pub point_of_contact: Point3,
}

/// A ray: where it starts, where it heads, where it stands and the colour it has gathered.
#[derive(Clone, Copy, Debug)]
pub struct Ray {
    pub origin: Point3,
    pub direction: Vector3,
    pub position: Point3,
    pub color: Color,
}

/// An offset of `steps` pixel halves on the image plane, whose extent is `extent` pixel
/// halves of which `height` span the scale.
fn project(steps: i64, scale: i64, extent: u32, height: u32) -> (r: i64)
    requires
        -(extent as int) <= steps <= extent,
        height > 0,
        0 <= scale,
        scale * extent <= LIMIT * height,
    ensures
        r == div_toward_zero(steps * scale, height as int),
        -LIMIT <= r <= LIMIT,
{
    proof {
        assert(-(LIMIT * height) <= steps * scale <= LIMIT * height) by (nonlinear_arith)
            requires
                -(extent as int) <= steps <= extent,
                0 <= scale,
                scale * extent <= LIMIT * height,
        ;
        lemma_quotient_bounded(steps * scale, height as int, LIMIT as int);
    }
    div_round(mul_wide(steps, scale), height as i128) as i64
}

fn is_ignored(ignore: &[usize], i: usize) -> (b: bool)
    ensures
        b == ignore@.contains(i),
{
    let mut k: usize = 0;
    while k < ignore.len()
        invariant
            k <= ignore.len(),
            forall|j: int| 0 <= j < k ==> ignore@[j] != i,
        decreases ignore.len() - k,
    {
        if ignore[k] == i {
            return true;
        }
        k += 1;
    }
    false
}

impl Ray {
    /// The origin lies in the world and no component of the direction exceeds one.
    pub open spec fn wf(&self) -> bool {
        self.origin.in_world() && self.direction@.within(ONE as int)
    }

    /// A white ray that stands at its origin.
    pub fn new(origin: Point3, direction: Vector3) -> (r: Ray)
        ensures
            r.origin == origin,
            r.direction == direction,
            r.position == origin,
            r.color == (Color { r: ONE, g: ONE, b: ONE }),
    {
        Ray { origin, direction, position: origin, color: Color::white() }
    }

    /// The ray from the camera through the centre of pixel (`x`, `y`).
    pub fn create_prime(x: u32, y: u32, scene: &Scene) -> (r: Ray)
        requires
            scene.wf(),
            x < scene.width,
            y < scene.height,
        ensures
            r.origin == scene.camera,
            r.position == scene.camera,
            r.direction@ == prime_direction(
                scene.width as int,
                scene.height as int,
                scene.fov_scale as int,
                x as int,
                y as int,
            ),
            r.color == (Color { r: ONE, g: ONE, b: ONE }),
            r.wf(),
            r.direction@.is_unit(),
    {
        let across: i64 = 2 * (x as i64) + 1 - (scene.width as i64);
        let up: i64 = (scene.height as i64) - 2 * (y as i64) - 1;
        assert(scene.fov_scale * scene.height <= LIMIT * scene.height) by (nonlinear_arith)
            requires
                scene.fov_scale <= LIMIT,
                scene.height > 0,
        ;
        let sx: i64 = project(across, scene.fov_scale, scene.width, scene.height);
        let sy: i64 = project(up, scene.fov_scale, scene.height, scene.height);
        let through = Vector3 { x: sx, y: sy, z: -ONE };
        Ray::new(scene.camera, through.normalize())
    }

    /// Changes the direction to its mirror image in the surface with the given normal.
    pub fn reflect(&mut self, surface_normal: Vector3)
        requires
            old(self).direction@.within(ONE as int),
            surface_normal@.within(ONE as int),
        ensures
            final(self).direction@ == old(self).direction@.reflected(surface_normal@),
            final(self).direction@.within(ONE as int),
            old(self).direction@.is_unit() && surface_normal@.is_unit()
                ==> final(self).direction@.is_unit(),
            final(self).origin == old(self).origin,
            final(self).position == old(self).position,
            final(self).color == old(self).color,
    {
        proof {
            if self.direction@.is_unit() && surface_normal@.is_unit() {
                lemma_reflection(self.direction@, surface_normal@);
            }
        }
        let along: i64 = self.direction.dot(&surface_normal);
        let back = surface_normal.scaled(2 * along);
        self.direction = self.direction.minus(&back).normalize();
    }

    /// The candidate nearest to where the ray stands, with its distance.
    pub fn get_closest_object_estimate<O: Object>(&self, objects: &Vec<O>, ignore: &[usize]) -> (r:
        Option<(i64, usize)>)
        requires
            self.position.in_world(),
            all_wf(objects@),
        ensures
            match r {
                None => closest(objects@, ignore@, self.position@) is None,
                Some((d, i)) => {
                    &&& closest(objects@, ignore@, self.position@) == Some(i as int)
                    &&& i < objects.len()
                    &&& d == objects@[i as int].distance(self.position@)
                    &&& -LIMIT <= d <= 4 * LIMIT
                },
            },
    {
        let mut best: Option<(i64, usize)> = None;
        let mut k: usize = 0;
        while k < objects.len()
            invariant
                k <= objects.len(),
                self.position.in_world(),
                all_wf(objects@),
                match best {
                    None => forall|j: int| !candidate(k as int, ignore@, j),
                    Some((d, i)) => {
                        &&& is_closest_in(objects@, ignore@, self.position@, k as int, i as int)
                        &&& d == objects@[i as int].distance(self.position@)
                        &&& -LIMIT <= d <= 4 * LIMIT
                    },
                },
            decreases objects.len() - k,
        {
            let ghost next: int = k + 1;
            if !is_ignored(ignore, k) {
                let d: i64 = objects[k].distance_estimate(self.position);
                let better = match best {
                    None => true,
                    Some((bd, _)) => d < bd,
                };
                if better {
                    best = Some((d, k));
                }
                assert(candidate(next, ignore@, k as int));
            }
            proof {
                assert forall|j: int| #[trigger] candidate(next, ignore@, j) implies candidate(
                    k as int,
                    ignore@,
                    j,
                ) || j == k by {}
            }
            k += 1;
        }
        proof {
            match best {
                None => lemma_closest_none(objects@, ignore@, self.position@),
                Some((d, i)) => lemma_closest_unique(
                    objects@,
                    ignore@,
                    self.position@,
                    i as int,
                ),
            }
        }
        best
    }

    /// Marches until an object is hit or the ray gives up.
    ///
    /// Returns the object that was hit and the point of contact, if any, and the distance
    /// covered. Objects whose index is in `ignore` are passed through. The ray is left
    /// standing where the march ended.
    pub fn march_until_hit<O: Object>(
        &mut self,
        objects: &Vec<O>,
        ignore: &[usize],
        config: &RenderConfig,
    ) -> (r: (Option<HitData>, i64))
        requires
            old(self).wf(),
            config.wf(),
            all_wf(objects@),
        ensures
            final(self).origin == old(self).origin,
            final(self).direction == old(self).direction,
            final(self).color == old(self).color,
            final(self).position.in_world(),
            ({
                let out = march(
                    objects@,
                    ignore@,
                    *config,
                    old(self).origin@,
                    old(self).direction@,
                );
                &&& final(self).position@ == out.position
                &&& r.1 == out.travelled
                &&& match r.0 {
                    Some(h) => {
                        &&& out.hit == Some(h.object_index as int)
                        &&& h.object_index < objects.len()
                        &&& h.point_of_contact == final(self).position
                    },
                    None => out.hit is None,
                }
            }),
    {
        let first = self.direction.scaled(config.hit_threshold);
        match self.origin.translate(&first) {
            None => {
                self.position = self.origin;
                return (None, 0);
            },
            Some(p) => {
                self.position = p;
            },
        }
        let mut distance_traveled: i64 = config.hit_threshold;
        loop
            invariant
                self.wf(),
                config.wf(),
                all_wf(objects@),
                self.position.in_world(),
                self.origin == old(self).origin,
                self.direction == old(self).direction,
                self.color == old(self).color,
                0 < distance_traveled <= 5 * LIMIT,
                march_from(
                    objects@,
                    ignore@,
                    *config,
                    self.direction@,
                    self.position@,
                    distance_traveled as int,
                ) == march(objects@, ignore@, *config, old(self).origin@, old(self).direction@),
            decreases budget(*config, distance_traveled as int),
        {
            match self.get_closest_object_estimate(objects, ignore) {
                None => {
                    return (None, distance_traveled);
                },
                Some((smallest_distance_estimate, index)) => {
                    if smallest_distance_estimate < config.hit_threshold {
                        return (
                            Some(HitData { object_index: index, point_of_contact: self.position }),
                            distance_traveled,
                        );
                    } else if distance_traveled > config.max_travel_distance {
                        return (None, distance_traveled);
                    }
                    let step = self.direction.scaled(smallest_distance_estimate);
                    match self.position.translate(&step) {
                        None => {
                            return (None, distance_traveled);
                        },
                        Some(p) => {
                            self.position = p;
                            distance_traveled = distance_traveled + smallest_distance_estimate;
                        },
                    }
                },
            }
        }
    }
}

} // verus!
