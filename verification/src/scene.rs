//! Scenes, shading and rendering.

use vstd::prelude::*;
use vstd::arithmetic::div_mod::{lemma_fundamental_div_mod, lemma_fundamental_div_mod_converse};
use crate::fixed::{div_toward_zero, fx_mul, lemma_floor_sqrt_unique, mul_fx, mul_wide, LIMIT, ONE};
use crate::lighting::{Color, Light, Rgba};
use crate::objects::{HorizontalPlane, Object, Shape, Sphere};
use crate::ray::{all_wf, candidate, is_closest_in, lemma_closest_unique,
    lemma_march_hits_candidate, lemma_march_reflect_limit, lemma_march_without_candidates, march,
    march_from, HitData, Ray, RenderConfig};
use crate::trig::{tan_half, tan_half_angle, STRAIGHT};
use crate::vector::{Point3, V3, Vector3, SHORT};

verus! {

/// The largest number of pixels an image may have.
pub const MAX_PIXELS: u32 = 0xFFFF_FFFF;

/// Why a scene was refused.
#[derive(Clone, Copy, Debug, PartialEq, Eq, Structural)]
pub enum SceneError {
    /// The width or the height is zero.
    ZeroDimension,
    /// The image has more pixels than `MAX_PIXELS`.
    ImageTooLarge,
    /// The field of view is not strictly between zero and a straight angle.
    FieldOfView,
    /// The image plane reaches beyond the representable world.
    ImagePlaneOutOfWorld,
    /// The camera lies outside the representable world.
    CameraOutOfWorld,
    /// The object with this index, and none before it, is not well formed.
    InvalidObject(usize),
    /// The light with this index, and none before it, is not well formed.
    InvalidLight(usize),
}

/// A scene to render: the image's size, the camera, and what it looks at.
///
/// The camera looks down the negative z axis, with y up and x to the right.
#[derive(Debug)]
pub struct Scene {
    pub width: u32,
    pub height: u32,
    /// The vertical field of view, in degrees.
    pub fov: i64,
    /// The tangent of half the field of view.
    pub fov_scale: i64,
    pub camera: Point3,
    pub objects: Vec<Shape>,
    pub lights: Vec<Light>,
}

/// Every light of the sequence is well formed.
pub open spec fn all_lights_wf(lights: Seq<Light>) -> bool {
    forall|i: int| 0 <= i < lights.len() ==> (#[trigger] lights[i]).wf()
}

/// The image plane at distance one, whose half height is `scale`, lies within the world.
pub open spec fn plane_fits(width: int, height: int, scale: int) -> bool {
    0 <= scale <= LIMIT && scale * width <= LIMIT * height
}

/// Object `i` is the first that is not well formed.
pub open spec fn first_bad_object(objects: Seq<Shape>, i: int) -> bool {
    &&& 0 <= i < objects.len()
    &&& !objects[i].wf()
    &&& forall|j: int| 0 <= j < i ==> (#[trigger] objects[j]).wf()
}

/// Light `i` is the first that is not well formed.
pub open spec fn first_bad_light(lights: Seq<Light>, i: int) -> bool {
    &&& 0 <= i < lights.len()
    &&& !lights[i].wf()
    &&& forall|j: int| 0 <= j < i ==> (#[trigger] lights[j]).wf()
}

/// The image is not empty nor too large, and is seen under a proper angle through an
/// image plane within the world.
pub open spec fn view_valid(width: u32, height: u32, fov: i64) -> bool {
    &&& width > 0
    &&& height > 0
    &&& width * height <= MAX_PIXELS
    &&& 0 < fov < STRAIGHT
    &&& plane_fits(width as int, height as int, tan_half(fov as int))
}

/// The direction of the ray through the centre of pixel (`x`, `y`).
///
/// On the image plane at distance one the pixel's centre lies at
/// `(2x + 1 - width) * scale / height` to the right and
/// `(height - 2y - 1) * scale / height` up, where `scale` is the tangent of half the
/// field of view.
pub open spec fn prime_direction(width: int, height: int, scale: int, x: int, y: int) -> V3 {
    V3 {
        x: div_toward_zero((2 * x + 1 - width) * scale, height),
        y: div_toward_zero((height - 2 * y - 1) * scale, height),
        z: -ONE,
    }.unit()
}

/// The brightness that `light` gives to the point `p` on the object `surface`, whose
/// normal there is `normal`.
///
/// It is the cosine of the angle between the normal and the direction to the light,
/// times the luminance; and nothing if the light is behind the surface, or if a ray
/// from `p` toward the light hits any object but `surface` itself.
pub open spec fn light_contribution(
    objects: Seq<Shape>,
    cfg: RenderConfig,
    surface: int,
    p: V3,
    normal: V3,
    light: Light,
) -> int {
    let toward = light.pos@.minus(p).unit();
    let cos_theta = normal.dot_fx(toward);
    if cos_theta <= 0 {
        0
    } else if march(objects, seq![surface as usize], cfg, p, toward).hit is Some {
        0
    } else {
        fx_mul(light.luminance as int, cos_theta)
    }
}

/// The sum of what the first `n` lights give.
pub open spec fn light_sum(
    objects: Seq<Shape>,
    lights: Seq<Light>,
    cfg: RenderConfig,
    surface: int,
    p: V3,
    normal: V3,
    n: int,
) -> int
    decreases n,
{
    if n <= 0 {
        0
    } else {
        light_sum(objects, lights, cfg, surface, p, normal, n - 1) + light_contribution(
            objects,
            cfg,
            surface,
            p,
            normal,
            lights[n - 1],
        )
    }
}

/// The brightness at the point `p` on the object `surface`: the average of what the
/// lights give, and nothing without lights.
pub open spec fn total_light(
    objects: Seq<Shape>,
    lights: Seq<Light>,
    cfg: RenderConfig,
    surface: int,
    p: V3,
) -> int {
    if lights.len() == 0 {
        0
    } else {
        light_sum(
            objects,
            lights,
            cfg,
            surface,
            p,
            objects[surface].normal(p),
            lights.len() as int,
        ) / (lights.len() as int)
    }
}

/// The colour a ray gathers that leaves `origin` in direction `dir`, already carries
/// `color` and may still be reflected `left` times.
///
/// A ray that hits nothing keeps its colour. At a hit the colour is multiplied by the
/// object's colour, dimmed by the light that reaches the point. From an object that
/// reflects, the ray goes on from the point of the hit in the mirrored direction, as
/// long as reflections are left.
pub open spec fn bounce(
    objects: Seq<Shape>,
    lights: Seq<Light>,
    cfg: RenderConfig,
    origin: V3,
    dir: V3,
    color: Color,
    left: nat,
) -> Color
    decreases left,
{
    let out = march(objects, Seq::<usize>::empty(), cfg, origin, dir);
    match out.hit {
        None => color,
        Some(i) => {
            let light = total_light(objects, lights, cfg, i, out.position);
            let shaded = color.blend(objects[i].color().dimmed(light));
            if objects[i].reflectance() == 0 || left == 0 {
                shaded
            } else {
                bounce(
                    objects,
                    lights,
                    cfg,
                    out.position,
                    dir.reflected(objects[i].normal(out.position)),
                    shaded,
                    (left - 1) as nat,
                )
            }
        },
    }
}

/// A light gives nothing to a point from which the ray toward it hits an object.
pub proof fn lemma_occluded_light_gives_nothing(
    objects: Seq<Shape>,
    cfg: RenderConfig,
    surface: int,
    p: V3,
    normal: V3,
    light: Light,
)
    requires
        march(objects, seq![surface as usize], cfg, p, light.pos@.minus(p).unit()).hit is Some,
    ensures
        light_contribution(objects, cfg, surface, p, normal, light) == 0,
{
}

/// Where the surface is the only object, a light in front of it gives the cosine of its
/// angle to the normal times its luminance.
pub proof fn lemma_lone_surface_is_lit(
    objects: Seq<Shape>,
    cfg: RenderConfig,
    p: V3,
    normal: V3,
    light: Light,
)
    requires
        cfg.wf(),
        objects.len() == 1,
        normal.dot_fx(light.pos@.minus(p).unit()) > 0,
    ensures
        light_contribution(objects, cfg, 0, p, normal, light) == fx_mul(
            light.luminance as int,
            normal.dot_fx(light.pos@.minus(p).unit()),
        ),
{
    let toward = light.pos@.minus(p).unit();
    let ignore = seq![0usize];
    assert(ignore[0] == 0usize);
    assert forall|i: int| !candidate(objects.len() as int, ignore, i) by {
        if 0 <= i < objects.len() {
            assert(ignore.contains(i as usize));
        }
    }
    lemma_march_without_candidates(objects, ignore, cfg, p, toward);
}

/// The direction from a point to a point straight above it is straight up.
proof fn lemma_straight_up(p: V3, q: V3)
    requires
        q.x == p.x,
        q.z == p.z,
        p.y < q.y,
    ensures
        q.minus(p).unit() == (V3 { x: 0, y: ONE as int, z: 0 }),
        forall|d: int| d >= 0 ==> #[trigger] q.minus(p).unit().scaled(d) == (V3 { x: 0, y: d, z: 0 }),
{
    let v = q.minus(p);
    let w = v.stretched();
    let h = w.y;
    if v.within(SHORT as int) {
        assert(w.x == 0 && w.z == 0 && h > 0) by (nonlinear_arith)
            requires
                v.x == 0,
                v.z == 0,
                v.y > 0,
                w.x == v.x * 1_000_000,
                h == v.y * 1_000_000,
                w.z == v.z * 1_000_000,
        ;
    }
    lemma_vertical_length(w);
    assert((h * 1_000_000) / h == 1_000_000) by (nonlinear_arith)
        requires
            h > 0,
    ;
    assert(0 * ONE == 0);
    assert forall|d: int| d >= 0 implies #[trigger] v.unit().scaled(d) == (V3 { x: 0, y: d, z: 0 }) by {
        assert((1_000_000 * d) / 1_000_000 == d);
        assert(0 * d == 0);
    }
}

/// Behind the surface there is one more object: a ray that stands closer to it than the
/// threshold after its first step, or after one step more, hits it.
proof fn lemma_hit_within_two_steps(
    surface: Shape,
    occluder: Shape,
    cfg: RenderConfig,
    origin: V3,
    dir: V3,
)
    requires
        cfg.wf(),
        cfg.hit_threshold <= cfg.max_travel_distance,
        origin.plus(dir.scaled(cfg.hit_threshold as int)).within(LIMIT as int),
        ({
            let start = origin.plus(dir.scaled(cfg.hit_threshold as int));
            let next = start.plus(dir.scaled(occluder.distance(start)));
            occluder.distance(start) < cfg.hit_threshold || (next.within(LIMIT as int)
                && occluder.distance(next) < cfg.hit_threshold)
        }),
    ensures
        march(seq![surface, occluder], seq![0usize], cfg, origin, dir).hit == Some(1int),
{
    let objects = seq![surface, occluder];
    let ignore = seq![0usize];
    let start = origin.plus(dir.scaled(cfg.hit_threshold as int));
    let d = occluder.distance(start);
    let next = start.plus(dir.scaled(d));
    assert(ignore[0] == 0usize);
    assert(candidate(2, ignore, 1));
    assert(!candidate(2, ignore, 0));
    assert(is_closest_in(objects, ignore, start, 2, 1));
    lemma_closest_unique(objects, ignore, start, 1);
    if d >= cfg.hit_threshold {
        assert(is_closest_in(objects, ignore, next, 2, 1));
        lemma_closest_unique(objects, ignore, next, 1);
        assert(march_from(objects, ignore, cfg, dir, next, cfg.hit_threshold + d).hit == Some(
            1int,
        ));
    }
}

/// A plane between a point and a light straight above the point leaves the point dark.
pub proof fn lemma_plane_above_shadows(
    surface: Shape,
    occluder: HorizontalPlane,
    cfg: RenderConfig,
    p: V3,
    normal: V3,
    light: Light,
)
    requires
        cfg.wf(),
        cfg.hit_threshold <= cfg.max_travel_distance,
        occluder.wf(),
        p.within(LIMIT as int),
        p.y + cfg.hit_threshold <= LIMIT,
        light.pos.x == p.x,
        light.pos.z == p.z,
        p.y < occluder.y < light.pos.y,
    ensures
        light_contribution(seq![surface, Shape::Plane(occluder)], cfg, 0, p, normal, light) == 0,
{
    lemma_straight_up(p, light.pos@);
    let up = light.pos@.minus(p).unit();
    let start = p.plus(up.scaled(cfg.hit_threshold as int));
    let d = occluder.distance(start);
    assert(up.scaled(d) == (V3 { x: 0, y: d, z: 0 }));
    lemma_hit_within_two_steps(surface, Shape::Plane(occluder), cfg, p, up);
}

/// A sphere between a point and a light straight above the point, its centre on the line
/// between them, leaves the point dark.
pub proof fn lemma_sphere_above_shadows(
    surface: Shape,
    occluder: Sphere,
    cfg: RenderConfig,
    p: V3,
    normal: V3,
    light: Light,
)
    requires
        cfg.wf(),
        cfg.hit_threshold <= cfg.max_travel_distance,
        occluder.wf(),
        p.within(LIMIT as int),
        p.y + cfg.hit_threshold <= LIMIT,
        light.pos.x == p.x,
        light.pos.z == p.z,
        occluder.centre.x == p.x,
        occluder.centre.z == p.z,
        p.y < occluder.centre.y - occluder.radius,
        occluder.centre.y + occluder.radius < light.pos.y,
    ensures
        light_contribution(seq![surface, Shape::Sphere(occluder)], cfg, 0, p, normal, light) == 0,
{
    lemma_straight_up(p, light.pos@);
    let up = light.pos@.minus(p).unit();
    let start = p.plus(up.scaled(cfg.hit_threshold as int));
    let c = occluder.centre@;
    let r = occluder.radius as int;
    lemma_vertical_length(start.minus(c));
    let d = occluder.distance(start);
    if d >= cfg.hit_threshold {
        assert(up.scaled(d) == (V3 { x: 0, y: d, z: 0 }));
        let next = start.plus(up.scaled(d));
        lemma_vertical_length(next.minus(c));
    }
    lemma_hit_within_two_steps(surface, Shape::Sphere(occluder), cfg, p, up);
}

/// A vertical vector is as long as its only component is large.
proof fn lemma_vertical_length(v: V3)
    requires
        v.x == 0,
        v.z == 0,
    ensures
        v.length() == if v.y >= 0 { v.y } else { -v.y },
{
    let a = if v.y >= 0 { v.y } else { -v.y };
    assert(v.norm_sq() == a * a && (a + 1) * (a + 1) > a * a) by (nonlinear_arith)
        requires
            v.norm_sq() == v.x * v.x + v.y * v.y + v.z * v.z,
            v.x == 0,
            v.z == 0,
            a == v.y || a == -v.y,
            a >= 0,
    ;
    lemma_floor_sqrt_unique(a * a, a);
}

/// Taking away the object that shadows a point makes the point brighter: with the
/// occluder a light in front of the surface gives nothing, without it the light gives
/// its share, which is positive unless it rounds to nothing.
pub proof fn lemma_removing_occluder_brightens(
    surface: Shape,
    occluder: Shape,
    cfg: RenderConfig,
    p: V3,
    normal: V3,
    light: Light,
)
    requires
        cfg.wf(),
        normal.dot_fx(light.pos@.minus(p).unit()) > 0,
        light.luminance * normal.dot_fx(light.pos@.minus(p).unit()) >= ONE,
        march(seq![surface, occluder], seq![0usize], cfg, p, light.pos@.minus(p).unit()).hit
            is Some,
    ensures
        light_contribution(seq![surface, occluder], cfg, 0, p, normal, light) == 0,
        light_contribution(seq![surface], cfg, 0, p, normal, light) > 0,
{
    lemma_lone_surface_is_lit(seq![surface], cfg, p, normal, light);
    let c = normal.dot_fx(light.pos@.minus(p).unit());
    let a = light.luminance * c;
    assert(a / 1_000_000 >= 1);
}

/// The light that reaches a point does not depend on the reflection limit.
pub proof fn lemma_light_sum_reflect_limit(
    objects: Seq<Shape>,
    lights: Seq<Light>,
    cfg: RenderConfig,
    other: RenderConfig,
    surface: int,
    p: V3,
    normal: V3,
    n: int,
)
    requires
        cfg.hit_threshold > 0,
        cfg.hit_threshold == other.hit_threshold,
        cfg.max_travel_distance == other.max_travel_distance,
    ensures
        light_sum(objects, lights, cfg, surface, p, normal, n) == light_sum(
            objects,
            lights,
            other,
            surface,
            p,
            normal,
            n,
        ),
    decreases n,
{
    if n > 0 {
        lemma_light_sum_reflect_limit(objects, lights, cfg, other, surface, p, normal, n - 1);
        let toward = lights[n - 1].pos@.minus(p).unit();
        lemma_march_reflect_limit(objects, seq![surface as usize], cfg, other, p, toward);
    }
}

/// The colour a ray gathers depends on the configuration's distances only, given the
/// reflections that are left to it.
pub proof fn lemma_bounce_reflect_limit(
    objects: Seq<Shape>,
    lights: Seq<Light>,
    cfg: RenderConfig,
    other: RenderConfig,
    origin: V3,
    dir: V3,
    color: Color,
    left: nat,
)
    requires
        cfg.hit_threshold > 0,
        cfg.hit_threshold == other.hit_threshold,
        cfg.max_travel_distance == other.max_travel_distance,
    ensures
        bounce(objects, lights, cfg, origin, dir, color, left) == bounce(
            objects,
            lights,
            other,
            origin,
            dir,
            color,
            left,
        ),
    decreases left,
{
    lemma_march_reflect_limit(objects, Seq::<usize>::empty(), cfg, other, origin, dir);
    let out = march(objects, Seq::<usize>::empty(), cfg, origin, dir);
    match out.hit {
        None => {},
        Some(i) => {
            lemma_light_sum_reflect_limit(
                objects,
                lights,
                cfg,
                other,
                i,
                out.position,
                objects[i].normal(out.position),
                lights.len() as int,
            );
            let light = total_light(objects, lights, cfg, i, out.position);
            let shaded = color.blend(objects[i].color().dimmed(light));
            if objects[i].reflectance() != 0 && left != 0 {
                lemma_bounce_reflect_limit(
                    objects,
                    lights,
                    cfg,
                    other,
                    out.position,
                    dir.reflected(objects[i].normal(out.position)),
                    shaded,
                    (left - 1) as nat,
                );
            }
        },
    }
}

/// Among objects that do not reflect, a ray gathers the same colour however many
/// reflections are left to it.
pub proof fn lemma_bounce_without_reflectance(
    objects: Seq<Shape>,
    lights: Seq<Light>,
    cfg: RenderConfig,
    origin: V3,
    dir: V3,
    color: Color,
    left: nat,
)
    requires
        cfg.hit_threshold > 0,
        forall|i: int| 0 <= i < objects.len() ==> (#[trigger] objects[i]).reflectance() == 0,
    ensures
        bounce(objects, lights, cfg, origin, dir, color, left) == bounce(
            objects,
            lights,
            cfg,
            origin,
            dir,
            color,
            0,
        ),
{
    lemma_march_hits_candidate(objects, Seq::<usize>::empty(), cfg, origin, dir);
}

/// A scene whose objects do not reflect shows the same colours under any two
/// configurations that differ in the reflection limit only.
pub proof fn lemma_reflect_limit_idle_without_reflectance(
    scene: Scene,
    cfg: RenderConfig,
    other: RenderConfig,
    x: int,
    y: int,
)
    requires
        cfg.hit_threshold > 0,
        cfg.hit_threshold == other.hit_threshold,
        cfg.max_travel_distance == other.max_travel_distance,
        forall|i: int|
            0 <= i < scene.objects@.len() ==> (#[trigger] scene.objects@[i]).reflectance() == 0,
    ensures
        scene.color_at(cfg, x, y) == scene.color_at(other, x, y),
{
    let dir = prime_direction(
        scene.width as int,
        scene.height as int,
        scene.fov_scale as int,
        x,
        y,
    );
    let white = Color { r: ONE, g: ONE, b: ONE };
    lemma_bounce_without_reflectance(
        scene.objects@,
        scene.lights@,
        cfg,
        scene.camera@,
        dir,
        white,
        cfg.reflect_limit as nat,
    );
    lemma_bounce_without_reflectance(
        scene.objects@,
        scene.lights@,
        other,
        scene.camera@,
        dir,
        white,
        other.reflect_limit as nat,
    );
    lemma_bounce_reflect_limit(
        scene.objects@,
        scene.lights@,
        cfg,
        other,
        scene.camera@,
        dir,
        white,
        0,
    );
}

/// A scene whose objects do not reflect gives the same image under any two
/// configurations that differ in the reflection limit only.
pub proof fn lemma_images_agree_without_reflectance(
    scene: Scene,
    cfg: RenderConfig,
    other: RenderConfig,
    image: Seq<Rgba>,
    other_image: Seq<Rgba>,
)
    requires
        scene.width > 0,
        cfg.hit_threshold > 0,
        cfg.hit_threshold == other.hit_threshold,
        cfg.max_travel_distance == other.max_travel_distance,
        forall|i: int|
            0 <= i < scene.objects@.len() ==> (#[trigger] scene.objects@[i]).reflectance() == 0,
        scene.is_image(cfg, image),
        scene.is_image(other, other_image),
    ensures
        image == other_image,
{
    let w = scene.width as int;
    assert forall|i: int| 0 <= i < image.len() implies image[i] == other_image[i] by {
        let x = i % w;
        let y = i / w;
        lemma_fundamental_div_mod(i, w);
        assert(0 <= x < w);
        assert(i == w * y + x);
        assert(0 <= y < scene.height) by (nonlinear_arith)
            requires
                i == w * y + x,
                0 <= x < w,
                0 <= i < w * scene.height,
        ;
        assert(y * w + x == i) by (nonlinear_arith)
            requires
                i == w * y + x,
        ;
        lemma_reflect_limit_idle_without_reflectance(scene, cfg, other, x, y);
        assert(image[y * w + x] == scene.color_at(cfg, x, y).pixel());
        assert(other_image[y * w + x] == scene.color_at(other, x, y).pixel());
    }
    assert(image =~= other_image);
}

impl Scene {
    /// The colour of pixel (`x`, `y`).
    pub open spec fn color_at(&self, cfg: RenderConfig, x: int, y: int) -> Color {
        bounce(
            self.objects@,
            self.lights@,
            cfg,
            self.camera@,
            prime_direction(self.width as int, self.height as int, self.fov_scale as int, x, y),
            Color { r: ONE, g: ONE, b: ONE },
            cfg.reflect_limit as nat,
        )
    }

    /// `image` holds the pixels of the scene, row by row from the top, each row from the
    /// left.
    pub open spec fn is_image(&self, cfg: RenderConfig, image: Seq<Rgba>) -> bool {
        &&& image.len() == self.width * self.height
        &&& forall|x: int, y: int|
            0 <= x < self.width && 0 <= y < self.height ==> image[y * self.width + x]
                == #[trigger] self.color_at(cfg, x, y).pixel()
    }

    /// The pixels of the image, row by row from the top, each row from the left.
    pub fn render(&self, config: &RenderConfig) -> (image: Vec<Rgba>)
        requires
            self.wf(),
            config.wf(),
        ensures
            self.is_image(*config, image@),
    {
        let mut image: Vec<Rgba> = Vec::new();
        let mut y: u32 = 0;
        while y < self.height
            invariant
                self.wf(),
                config.wf(),
                y <= self.height,
                image@.len() == y * self.width,
                forall|i: int|
                    0 <= i < image@.len() ==> #[trigger] image@[i] == self.color_at(
                        *config,
                        i % (self.width as int),
                        i / (self.width as int),
                    ).pixel(),
            decreases self.height - y,
        {
            let mut x: u32 = 0;
            while x < self.width
                invariant
                    self.wf(),
                    config.wf(),
                    y < self.height,
                    x <= self.width,
                    image@.len() == y * self.width + x,
                    forall|i: int|
                        0 <= i < image@.len() ==> #[trigger] image@[i] == self.color_at(
                            *config,
                            i % (self.width as int),
                            i / (self.width as int),
                        ).pixel(),
                decreases self.width - x,
            {
                let ray = Ray::create_prime(x, y, self);
                let color = self.trace(ray, config);
                proof {
                    lemma_fundamental_div_mod_converse(
                        y * self.width + x,
                        self.width as int,
                        y as int,
                        x as int,
                    );
                }
                image.push(color.get_image_rgba());
                x += 1;
            }
            assert((y + 1) * self.width == y * self.width + self.width) by (nonlinear_arith);
            y += 1;
        }
        proof {
            assert forall|x: int, y: int| 0 <= x < self.width && 0 <= y < self.height implies image@[y
                * self.width + x] == #[trigger] self.color_at(*config, x, y).pixel() by {
                lemma_fundamental_div_mod_converse(y * self.width + x, self.width as int, y, x);
                assert(0 <= y * self.width + x < self.height * self.width) by (nonlinear_arith)
                    requires
                        0 <= x < self.width,
                        0 <= y < self.height,
                ;
            }
        }
        image
    }

    /// The colour that `ray` gathers on its way through the scene.
    pub fn trace(&self, ray: Ray, config: &RenderConfig) -> (c: Color)
        requires
            self.wf(),
            config.wf(),
            ray.wf(),
        ensures
            c == bounce(
                self.objects@,
                self.lights@,
                *config,
                ray.origin@,
                ray.direction@,
                ray.color,
                config.reflect_limit as nat,
            ),
    {
        let mut current = ray;
        let mut left: usize = config.reflect_limit;
        let nothing: [usize; 0] = [];
        loop
            invariant
                self.wf(),
                config.wf(),
                current.wf(),
                nothing@ == Seq::<usize>::empty(),
                bounce(
                    self.objects@,
                    self.lights@,
                    *config,
                    current.origin@,
                    current.direction@,
                    current.color,
                    left as nat,
                ) == bounce(
                    self.objects@,
                    self.lights@,
                    *config,
                    ray.origin@,
                    ray.direction@,
                    ray.color,
                    config.reflect_limit as nat,
                ),
            decreases left,
        {
            let (hit_data, _) = current.march_until_hit(&self.objects, nothing.as_slice(), config);
            match hit_data {
                None => {
                    return current.color;
                },
                Some(hit_data) => {
                    let object_hit = &self.objects[hit_data.object_index];
                    assert(self.objects@[hit_data.object_index as int].wf());
                    let shade: i64 = self.shade(&hit_data, config);
                    let hit_color = *object_hit.get_color_ref() * shade;
                    current.color = current.color * hit_color;
                    if object_hit.get_reflectance() == 0 || left == 0 {
                        return current.color;
                    }
                    current.reflect(object_hit.get_normal(hit_data.point_of_contact));
                    current.origin = hit_data.point_of_contact;
                    left = left - 1;
                },
            }
        }
    }

    /// How much light reaches the point of a hit: from none (zero) to all (one; rounding of
    /// the directions may add up to six millionths).
    pub fn shade(&self, hit_data: &HitData, config: &RenderConfig) -> (r: i64)
        requires
            self.wf(),
            config.wf(),
            hit_data.object_index < self.objects.len(),
            hit_data.point_of_contact.in_world(),
        ensures
            r == total_light(
                self.objects@,
                self.lights@,
                *config,
                hit_data.object_index as int,
                hit_data.point_of_contact@,
            ),
            0 <= r <= ONE + 6,
    {
        let point = hit_data.point_of_contact;
        let surface_normal = self.objects[hit_data.object_index].get_normal(point);
        let ignore: [usize; 1] = [hit_data.object_index];
        let mut light_amount: i128 = 0;
        let mut k: usize = 0;
        while k < self.lights.len()
            invariant
                k <= self.lights.len(),
                self.wf(),
                config.wf(),
                point.in_world(),
                point == hit_data.point_of_contact,
                surface_normal@.within(ONE as int),
                surface_normal@.at_most_unit(),
                surface_normal@ == self.objects@[hit_data.object_index as int].normal(point@),
                ignore@ == seq![hit_data.object_index],
                0 <= light_amount <= 1_000_006 * k,
                light_amount == light_sum(
                    self.objects@,
                    self.lights@,
                    *config,
                    hit_data.object_index as int,
                    point@,
                    surface_normal@,
                    k as int,
                ),
            decreases self.lights.len() - k,
        {
            let light = &self.lights[k];
            assert(self.lights@[k as int].wf());
            let light_norm = light.pos.minus(&point).normalize();
            let light_dot: i64 = surface_normal.dot(&light_norm);
            if light_dot > 0 {
                let mut shadow_ray = Ray::new(point, light_norm);
                let (shadow_hit, _) = shadow_ray.march_until_hit(
                    &self.objects,
                    ignore.as_slice(),
                    config,
                );
                if shadow_hit.is_none() {
                    light_amount = light_amount + mul_fx(light.luminance, light_dot) as i128;
                }
            }
            k += 1;
        }
        if self.lights.len() == 0 {
            0
        } else {
            let count: i128 = self.lights.len() as i128;
            assert(0 <= light_amount / count <= 1_000_006) by (nonlinear_arith)
                requires
                    0 <= light_amount <= 1_000_006 * count,
                    count > 0,
            ;
            (light_amount / count) as i64
        }
    }

    /// The scene can be rendered.
    pub open spec fn wf(&self) -> bool {
        &&& view_valid(self.width, self.height, self.fov)
        &&& self.fov_scale == tan_half(self.fov as int)
        &&& self.camera.in_world()
        &&& all_wf(self.objects@)
        &&& all_lights_wf(self.lights@)
    }

    /// A scene of the given size, field of view in degrees, camera, objects and lights.
    pub fn new(
        width: u32,
        height: u32,
        fov: i64,
        camera: Point3,
        objects: Vec<Shape>,
        lights: Vec<Light>,
    ) -> (r: Result<Scene, SceneError>)
        ensures
            r is Ok <==> acceptable(width, height, fov, camera, objects@, lights@),
            match r {
                Ok(s) => {
                    &&& s.wf()
                    &&& s.width == width
                    &&& s.height == height
                    &&& s.fov == fov
                    &&& s.camera == camera
                    &&& s.objects == objects
                    &&& s.lights == lights
                },
                Err(e) => refused(width, height, fov, camera, objects@, lights@, e),
            },
    {
        match validate(width, height, fov, &camera, &objects, &lights) {
            Ok(fov_scale) => Ok(Scene { width, height, fov, fov_scale, camera, objects, lights }),
            Err(e) => Err(e),
        }
    }

    /// Whether the scene can be rendered.
    pub fn is_wf(&self) -> (b: bool)
        ensures
            b == self.wf(),
    {
        match validate(
            self.width,
            self.height,
            self.fov,
            &self.camera,
            &self.objects,
            &self.lights,
        ) {
            Ok(fov_scale) => fov_scale == self.fov_scale,
            Err(_) => false,
        }
    }
}

/// The configuration is refused for the reason `e`: the first of the reasons, in the
/// order of their declaration, that applies.
pub open spec fn refused(
    width: u32,
    height: u32,
    fov: i64,
    camera: Point3,
    objects: Seq<Shape>,
    lights: Seq<Light>,
    e: SceneError,
) -> bool {
    match e {
        SceneError::ZeroDimension => width == 0 || height == 0,
        SceneError::ImageTooLarge => {
            &&& width > 0 && height > 0
            &&& width * height > MAX_PIXELS
        },
        SceneError::FieldOfView => {
            &&& width > 0 && height > 0 && width * height <= MAX_PIXELS
            &&& !(0 < fov < STRAIGHT)
        },
        SceneError::ImagePlaneOutOfWorld => {
            &&& width > 0 && height > 0 && width * height <= MAX_PIXELS
            &&& 0 < fov < STRAIGHT
            &&& !plane_fits(width as int, height as int, tan_half(fov as int))
        },
        SceneError::CameraOutOfWorld => {
            &&& view_valid(width, height, fov)
            &&& !camera.in_world()
        },
        SceneError::InvalidObject(i) => {
            &&& view_valid(width, height, fov)
            &&& camera.in_world()
            &&& first_bad_object(objects, i as int)
        },
        SceneError::InvalidLight(i) => {
            &&& view_valid(width, height, fov)
            &&& camera.in_world()
            &&& all_wf(objects)
            &&& first_bad_light(lights, i as int)
        },
    }
}

/// The configuration makes a scene that can be rendered.
pub open spec fn acceptable(
    width: u32,
    height: u32,
    fov: i64,
    camera: Point3,
    objects: Seq<Shape>,
    lights: Seq<Light>,
) -> bool {
    &&& view_valid(width, height, fov)
    &&& camera.in_world()
    &&& all_wf(objects)
    &&& all_lights_wf(lights)
}

/// The tangent of half the field of view, if the configuration is valid; else the reason
/// why it is not.
fn validate(
    width: u32,
    height: u32,
    fov: i64,
    camera: &Point3,
    objects: &Vec<Shape>,
    lights: &Vec<Light>,
) -> (r: Result<i64, SceneError>)
    ensures
        match r {
            Ok(scale) => {
                &&& acceptable(width, height, fov, *camera, objects@, lights@)
                &&& scale == tan_half(fov as int)
            },
            Err(e) => {
                &&& !acceptable(width, height, fov, *camera, objects@, lights@)
                &&& refused(width, height, fov, *camera, objects@, lights@, e)
            },
        },
{
    if width == 0 || height == 0 {
        return Err(SceneError::ZeroDimension);
    }
    assert(width * height <= 0xFFFF_FFFF * 0xFFFF_FFFF) by (nonlinear_arith)
        requires
            0 <= width <= 0xFFFF_FFFF,
            0 <= height <= 0xFFFF_FFFF,
    ;
    if width as u64 * height as u64 > MAX_PIXELS as u64 {
        return Err(SceneError::ImageTooLarge);
    }
    if fov <= 0 || fov >= STRAIGHT {
        return Err(SceneError::FieldOfView);
    }
    let fov_scale: i64 = tan_half_angle(fov);
    let across: i128 = mul_wide(fov_scale, width as i64);
    let room: i128 = mul_wide(LIMIT, height as i64);
    if across > room || fov_scale > LIMIT {
        return Err(SceneError::ImagePlaneOutOfWorld);
    }
    if !camera.is_in_world() {
        return Err(SceneError::CameraOutOfWorld);
    }
    let mut i: usize = 0;
    while i < objects.len()
        invariant
            i <= objects.len(),
            view_valid(width, height, fov),
            camera.in_world(),
            forall|j: int| 0 <= j < i ==> (#[trigger] objects@[j]).wf(),
        decreases objects.len() - i,
    {
        if !objects[i].is_wf() {
            return Err(SceneError::InvalidObject(i));
        }
        i += 1;
    }
    let mut k: usize = 0;
    while k < lights.len()
        invariant
            k <= lights.len(),
            view_valid(width, height, fov),
            camera.in_world(),
            all_wf(objects@),
            forall|j: int| 0 <= j < k ==> (#[trigger] lights@[j]).wf(),
        decreases lights.len() - k,
    {
        if !lights[k].is_wf() {
            return Err(SceneError::InvalidLight(k));
        }
        k += 1;
    }
    Ok(fov_scale)
}

} // verus!
