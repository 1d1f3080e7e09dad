use raymarcher::fixed::{LIMIT, ONE};
use raymarcher::lighting::{Color, Light, Rgba};
use raymarcher::objects::{HorizontalPlane, Object, Shape, Sphere};
use raymarcher::ray::{HitData, Ray, RenderConfig, RAY_HIT_THRESHOLD, RAY_MAX_TRAVEL_DISTANCE, RAY_REFLECT_LIMIT};
use raymarcher::scene::{Scene, SceneError, MAX_PIXELS};
use raymarcher::vector::{Point3, Vector3};

fn fx(v: f64) -> i64 {
    (v * 1e6).round() as i64
}

fn point(x: f64, y: f64, z: f64) -> Point3 {
    Point3::new(fx(x), fx(y), fx(z))
}

fn sphere(x: f64, y: f64, z: f64, radius: f64, color: Color, reflectance: i64) -> Shape {
    Shape::Sphere(Sphere { centre: point(x, y, z), radius: fx(radius), color, reflectance })
}

fn plane(y: f64, color: Color, reflectance: i64) -> Shape {
    Shape::Plane(HorizontalPlane { y: fx(y), color, reflectance })
}

fn config(reflect_limit: usize) -> RenderConfig {
    RenderConfig::new(RAY_HIT_THRESHOLD, RAY_MAX_TRAVEL_DISTANCE, reflect_limit).unwrap()
}

fn white_pixel() -> Rgba {
    Rgba { r: 255, g: 255, b: 255, a: 255 }
}

fn axis_scene(width: u32, height: u32) -> Scene {
    Scene::new(
        width,
        height,
        fx(90.0),
        point(0.0, 0.0, 0.0),
        vec![sphere(0.0, 0.0, -5.0, 1.0, Color::white(), 0)],
        vec![Light::new(point(0.0, 10.0, -3.0), ONE)],
    )
    .unwrap()
}

#[test]
fn default_configuration() {
    let c = RenderConfig::default();
    assert_eq!(c.hit_threshold, 1_000);
    assert_eq!(c.max_travel_distance, 100_000_000);
    assert_eq!(c.reflect_limit, 1);
    assert_eq!(RAY_HIT_THRESHOLD, 1_000);
    assert_eq!(RAY_MAX_TRAVEL_DISTANCE, 100_000_000);
    assert_eq!(RAY_REFLECT_LIMIT, 1);
    assert!(c.is_wf());
}

#[test]
fn configuration_needs_positive_distances() {
    assert_eq!(RenderConfig::new(1, 1, 0), Some(RenderConfig { hit_threshold: 1, max_travel_distance: 1, reflect_limit: 0 }));
    assert_eq!(RenderConfig::new(0, 5, 0), None);
    assert_eq!(RenderConfig::new(5, 0, 0), None);
    assert_eq!(RenderConfig::new(-1, 5, 2), None);
    assert_eq!(RenderConfig::new(LIMIT + 1, 5, 2), None);
    assert_eq!(RenderConfig::new(5, LIMIT + 1, 2), None);
    assert!(RenderConfig::new(LIMIT, LIMIT, usize::MAX).is_some());
}

#[test]
fn new_ray_is_white_and_stands_at_its_origin() {
    let r = Ray::new(point(1.0, 2.0, 3.0), Vector3::new(0, 0, -ONE));
    assert_eq!(r.origin, point(1.0, 2.0, 3.0));
    assert_eq!(r.position, point(1.0, 2.0, 3.0));
    assert_eq!(r.direction, Vector3::new(0, 0, -ONE));
    assert_eq!(r.color, Color::white());
}

#[test]
fn marching_against_no_objects_never_hits() {
    let none: Vec<Shape> = Vec::new();
    let origins = [point(0.0, 0.0, 0.0), point(5.0, -3.0, 100.0), Point3::new(LIMIT, -LIMIT, 0)];
    let dirs = [Vector3::new(0, 0, -ONE), Vector3::new(600_000, 800_000, 0), Vector3::new(0, 0, 0), Vector3::new(-577_350, -577_350, -577_350)];
    for o in origins.iter() {
        for d in dirs.iter() {
            let mut ray = Ray::new(*o, *d);
            let (hit, _) = ray.march_until_hit(&none, &[], &config(1));
            assert_eq!(hit, None);
        }
    }
    let mut ray = Ray::new(point(0.0, 0.0, 0.0), Vector3::new(0, 0, -ONE));
    assert_eq!(ray.march_until_hit(&none, &[], &config(1)), (None, 1_000));
    assert_eq!(ray.position, Point3::new(0, 0, -1_000));
}

#[test]
fn marching_with_every_object_ignored_never_hits() {
    let objects = vec![sphere(0.0, 0.0, -5.0, 1.0, Color::white(), 0), plane(-2.0, Color::white(), 0)];
    let mut ray = Ray::new(point(0.0, 0.0, 0.0), Vector3::new(0, 0, -ONE));
    assert_eq!(ray.march_until_hit(&objects, &[1, 0], &config(1)), (None, 1_000));
}

#[test]
fn ray_from_a_surface_into_it_hits_at_once() {
    let objects = vec![sphere(0.0, 0.0, -5.0, 1.0, Color::white(), 0)];
    let mut ray = Ray::new(point(0.0, 0.0, -4.0), Vector3::new(0, 0, -ONE));
    let (hit, travelled) = ray.march_until_hit(&objects, &[], &config(1));
    assert_eq!(hit, Some(HitData { object_index: 0, point_of_contact: Point3::new(0, 0, -4_001_000) }));
    assert_eq!(travelled, 1_000);
    assert_eq!(ray.position, Point3::new(0, 0, -4_001_000));

    let floor = vec![plane(-6.0, Color::white(), 0)];
    let mut skim = Ray::new(point(3.0, -6.0, 2.0), Vector3::new(600_000, -800_000, 0));
    let (hit, travelled) = skim.march_until_hit(&floor, &[], &config(1));
    assert_eq!(hit, Some(HitData { object_index: 0, point_of_contact: Point3::new(3_000_600, -6_000_800, 2_000_000) }));
    assert_eq!(travelled, 1_000);

    let mut along = Ray::new(point(3.0, -6.0, 2.0), Vector3::new(ONE, 0, 0));
    let (hit, travelled) = along.march_until_hit(&floor, &[], &config(1));
    assert_eq!(hit, Some(HitData { object_index: 0, point_of_contact: Point3::new(3_001_000, -6_000_000, 2_000_000) }));
    assert_eq!(travelled, 1_000);
}

#[test]
fn ray_that_leaves_a_surface_along_its_normal_does_not_hit_it() {
    let floor = vec![plane(-6.0, Color::white(), 0)];
    let mut up = Ray::new(point(3.0, -6.0, 2.0), Vector3::new(0, ONE, 0));
    let (hit, travelled) = up.march_until_hit(&floor, &[], &config(1));
    assert_eq!(hit, None);
    assert!(travelled > RAY_MAX_TRAVEL_DISTANCE);
}

#[test]
fn march_finds_the_near_side_of_a_sphere() {
    let objects = vec![sphere(0.0, 0.0, -5.0, 1.0, Color::white(), 0)];
    let mut ray = Ray::new(point(0.0, 0.0, 0.0), Vector3::new(0, 0, -ONE));
    let (hit, travelled) = ray.march_until_hit(&objects, &[], &config(1));
    let hit = hit.unwrap();
    assert_eq!(hit.object_index, 0);
    assert_eq!(hit.point_of_contact.x, 0);
    assert_eq!(hit.point_of_contact.y, 0);
    assert!((hit.point_of_contact.z + 4_000_000).abs() <= 1_000);
    assert!((travelled - 4_000_000).abs() <= 1_000);
    assert_eq!(hit.point_of_contact, ray.position);
    assert_eq!(ray.origin, point(0.0, 0.0, 0.0));
    assert_eq!(ray.direction, Vector3::new(0, 0, -ONE));
    assert_eq!(ray.color, Color::white());
}

#[test]
fn march_gives_up_beyond_the_maximum_distance() {
    let objects = vec![plane(-1000.0, Color::white(), 0)];
    let mut ray = Ray::new(point(0.0, 0.0, 0.0), Vector3::new(ONE, 0, 0));
    let (hit, travelled) = ray.march_until_hit(&objects, &[], &config(1));
    assert_eq!(hit, None);
    assert_eq!(travelled, 1_000_001_000);
    assert_eq!(ray.position, Point3::new(1_000_001_000, 0, 0));

}

#[test]
fn a_hit_counts_even_beyond_the_maximum_distance() {
    let short = RenderConfig::new(1_000, 2_000_000, 0).unwrap();
    let far = vec![sphere(0.0, 0.0, -5.0, 1.0, Color::white(), 0)];
    let mut ray = Ray::new(point(0.0, 0.0, 0.0), Vector3::new(0, 0, -ONE));
    let (hit, travelled) = ray.march_until_hit(&far, &[], &short);
    assert_eq!(hit, Some(HitData { object_index: 0, point_of_contact: Point3::new(0, 0, -4_000_000) }));
    assert_eq!(travelled, 4_000_000);
    let mut aside = Ray::new(point(0.0, 3.0, 0.0), Vector3::new(0, 0, -ONE));
    let (hit, travelled) = aside.march_until_hit(&far, &[], &short);
    assert_eq!(hit, None);
    assert!(travelled > 2_000_000);
}

#[test]
fn march_stops_at_the_edge_of_the_world() {
    let objects = vec![plane(0.0, Color::white(), 0)];
    let mut ray = Ray::new(Point3::new(LIMIT - 10, 5_000_000, 0), Vector3::new(ONE, 0, 0));
    assert_eq!(ray.march_until_hit(&objects, &[], &config(1)), (None, 0));
    assert_eq!(ray.position, Point3::new(LIMIT - 10, 5_000_000, 0));

    let mut later = Ray::new(Point3::new(LIMIT - 2_000_000, 5_000_000, 0), Vector3::new(ONE, 0, 0));
    assert_eq!(later.march_until_hit(&objects, &[], &config(1)), (None, 1_000));
    assert_eq!(later.position, Point3::new(LIMIT - 1_999_000, 5_000_000, 0));
}

#[test]
fn closest_object_prefers_the_nearest_then_the_lowest_index() {
    let near = sphere(0.0, 0.0, -3.0, 1.0, Color::white(), 0);
    let far = sphere(0.0, 0.0, -10.0, 1.0, Color::white(), 0);
    let ray = Ray::new(point(0.0, 0.0, 0.0), Vector3::new(0, 0, -ONE));
    assert_eq!(ray.get_closest_object_estimate(&vec![far, near], &[]), Some((2_000_000, 1)));
    assert_eq!(ray.get_closest_object_estimate(&vec![near, far], &[]), Some((2_000_000, 0)));
    assert_eq!(ray.get_closest_object_estimate(&vec![near, near, near], &[]), Some((2_000_000, 0)));
    assert_eq!(ray.get_closest_object_estimate(&vec![far, near, near], &[]), Some((2_000_000, 1)));
    assert_eq!(ray.get_closest_object_estimate(&vec![near, near, near], &[0]), Some((2_000_000, 1)));
    assert_eq!(ray.get_closest_object_estimate(&vec![near, far], &[0]), Some((9_000_000, 1)));
    assert_eq!(ray.get_closest_object_estimate(&vec![near, far], &[0, 1]), None);
    assert_eq!(ray.get_closest_object_estimate(&vec![near, far], &[7]), Some((2_000_000, 0)));
    let none: Vec<Shape> = Vec::new();
    assert_eq!(ray.get_closest_object_estimate(&none, &[]), None);
}

#[test]
fn shadow_ray_ignores_its_own_surface() {
    let objects = vec![sphere(0.0, 0.0, -5.0, 1.0, Color::white(), 0), sphere(0.0, 3.0, -4.0, 0.5, Color::white(), 0)];
    let mut blocked = Ray::new(point(0.0, 0.0, -4.0), Vector3::new(0, ONE, 0));
    let (hit, _) = blocked.march_until_hit(&objects, &[0], &config(1));
    assert_eq!(hit.map(|h| h.object_index), Some(1));
    let mut free = Ray::new(point(0.0, 0.0, -4.0), Vector3::new(0, ONE, 0));
    let (hit, _) = free.march_until_hit(&objects, &[0, 1], &config(1));
    assert_eq!(hit, None);
}

#[test]
fn reflect_mirrors_the_direction() {
    let mut ray = Ray::new(point(0.0, 0.0, 0.0), Vector3::new(600_000, -800_000, 0));
    ray.reflect(Vector3::new(0, ONE, 0));
    assert_eq!(ray.direction, Vector3::new(600_000, 800_000, 0));
    assert_eq!(ray.origin, point(0.0, 0.0, 0.0));
    let mut head_on = Ray::new(point(0.0, 0.0, 0.0), Vector3::new(0, 0, -ONE));
    head_on.reflect(Vector3::new(0, 0, ONE));
    assert_eq!(head_on.direction, Vector3::new(0, 0, ONE));
    let mut grazing = Ray::new(point(0.0, 0.0, 0.0), Vector3::new(ONE, 0, 0));
    grazing.reflect(Vector3::new(0, ONE, 0));
    assert_eq!(grazing.direction, Vector3::new(ONE, 0, 0));
}

#[test]
fn reflect_flips_the_part_along_the_normal_and_keeps_the_rest() {
    let dirs = [(0.6f64, -0.8f64, 0.0f64), (0.267261242, -0.534522484, 0.801783726), (-0.577350269, -0.577350269, 0.577350269), (0.0, -1.0, 0.0)];
    let normals = [(0.0f64, 1.0f64, 0.0f64), (0.0, 0.6, 0.8), (0.577350269, 0.577350269, 0.577350269), (-0.801783726, 0.534522484, 0.267261242)];
    for d in dirs.iter() {
        for n in normals.iter() {
            let dv = Vector3::new(fx(d.0), fx(d.1), fx(d.2));
            let nv = Vector3::new(fx(n.0), fx(n.1), fx(n.2));
            let mut ray = Ray::new(point(0.0, 0.0, 0.0), dv);
            ray.reflect(nv);
            let r = ray.direction;
            let dot = |a: (f64, f64, f64), b: (f64, f64, f64)| a.0 * b.0 + a.1 * b.1 + a.2 * b.2;
            let rf = (r.x as f64 / 1e6, r.y as f64 / 1e6, r.z as f64 / 1e6);
            assert!((dot(rf, rf) - 1.0).abs() < 1e-5);
            assert!((dot(rf, *n) + dot(*d, *n)).abs() < 1e-5);
            let dn = dot(*d, *n);
            let rn = dot(rf, *n);
            let d_rest = (d.0 - dn * n.0, d.1 - dn * n.1, d.2 - dn * n.2);
            let r_rest = (rf.0 - rn * n.0, rf.1 - rn * n.1, rf.2 - rn * n.2);
            assert!((d_rest.0 - r_rest.0).abs() < 1e-5);
            assert!((d_rest.1 - r_rest.1).abs() < 1e-5);
            assert!((d_rest.2 - r_rest.2).abs() < 1e-5);
        }
    }
}

#[test]
fn prime_ray_directions() {
    let s = Scene::new(2, 2, fx(90.0), point(1.0, 2.0, 3.0), Vec::new(), Vec::new()).unwrap();
    assert!((s.fov_scale - ONE).abs() <= 1);
    let r = Ray::create_prime(0, 0, &s);
    assert_eq!(r.origin, point(1.0, 2.0, 3.0));
    assert_eq!(r.position, point(1.0, 2.0, 3.0));
    assert_eq!(r.color, Color::white());
    assert!((r.direction.x + 408_248).abs() <= 1);
    assert!((r.direction.y - 408_248).abs() <= 1);
    assert!((r.direction.z + 816_497).abs() <= 1);
    let q = Ray::create_prime(1, 1, &s);
    assert_eq!(q.direction.x, -r.direction.x);
    assert_eq!(q.direction.y, -r.direction.y);
    assert_eq!(q.direction.z, r.direction.z);

    let wide = Scene::new(4, 2, fx(90.0), point(0.0, 0.0, 0.0), Vec::new(), Vec::new()).unwrap();
    assert!(wide.is_wf());
    let corner = Ray::create_prime(3, 0, &wide);
    let across = 3 * wide.fov_scale / 2;
    let up = wide.fov_scale / 2;
    assert_eq!(corner.direction, Vector3::new(across, up, -ONE).normalize());
    assert!((corner.direction.x - 801_784).abs() <= 1);
    assert!((corner.direction.y - 267_261).abs() <= 1);
    assert!((corner.direction.z + 534_522).abs() <= 1);
}

#[test]
fn prime_rays_have_unit_directions() {
    let s = Scene::new(7, 5, fx(75.0), point(0.0, 0.0, 0.0), Vec::new(), Vec::new()).unwrap();
    let one_sq = ONE as i128 * ONE as i128;
    for y in 0..5u32 {
        for x in 0..7u32 {
            let d = Ray::create_prime(x, y, &s).direction;
            let len_sq = d.x as i128 * d.x as i128 + d.y as i128 * d.y as i128 + d.z as i128 * d.z as i128;
            assert!((len_sq - one_sq).abs() <= 6 * ONE as i128);
            assert!(d.z < 0);
        }
    }
    let middle = Ray::create_prime(3, 2, &s).direction;
    assert_eq!(middle, Vector3::new(0, 0, -ONE));
}

#[test]
fn scene_validity_can_be_tested() {
    let s = Scene::new(4, 4, fx(90.0), point(0.0, 0.0, 0.0), vec![], vec![]).unwrap();
    assert!(s.is_wf());
    assert!(!Scene { fov_scale: s.fov_scale + 1, ..Scene::new(4, 4, fx(90.0), point(0.0, 0.0, 0.0), vec![], vec![]).unwrap() }.is_wf());
    assert!(!Scene { width: 0, ..Scene::new(4, 4, fx(90.0), point(0.0, 0.0, 0.0), vec![], vec![]).unwrap() }.is_wf());
    assert!(!Scene { lights: vec![Light::new(point(0.0, 0.0, 0.0), 2 * ONE)], ..Scene::new(4, 4, fx(90.0), point(0.0, 0.0, 0.0), vec![], vec![]).unwrap() }.is_wf());
}

#[test]
fn scene_new_keeps_what_it_is_given() {
    let objects = vec![sphere(0.0, 0.0, -5.0, 1.0, Color::white(), 0), plane(-6.0, Color::new(0, ONE, 0), 500_000)];
    let lights = vec![Light::new(point(-4.0, 5.0, -3.0), ONE), Light::new(point(4.0, 5.0, -3.0), ONE)];
    let s = Scene::new(800, 600, fx(90.0), point(0.0, 1.0, 2.0), objects.clone(), lights.clone()).unwrap();
    assert_eq!(s.width, 800);
    assert_eq!(s.height, 600);
    assert_eq!(s.fov, 90_000_000);
    assert_eq!(s.camera, point(0.0, 1.0, 2.0));
    assert_eq!(s.objects, objects);
    assert_eq!(s.lights, lights);
    assert!((s.fov_scale - ONE).abs() <= 1);
}

#[test]
fn scene_new_refuses_bad_configurations() {
    let origin = point(0.0, 0.0, 0.0);
    let good = sphere(0.0, 0.0, -5.0, 1.0, Color::white(), 0);
    let bad = sphere(0.0, 0.0, -5.0, -1.0, Color::white(), 0);
    let light = Light::new(point(0.0, 10.0, -3.0), ONE);
    let dark = Light::new(point(0.0, 10.0, -3.0), -1);
    let err = |r: Result<Scene, SceneError>| r.err();
    assert_eq!(err(Scene::new(0, 600, fx(90.0), origin, vec![], vec![])), Some(SceneError::ZeroDimension));
    assert_eq!(err(Scene::new(800, 0, fx(90.0), origin, vec![], vec![])), Some(SceneError::ZeroDimension));
    assert_eq!(err(Scene::new(0, 0, 0, origin, vec![bad], vec![dark])), Some(SceneError::ZeroDimension));
    assert_eq!(err(Scene::new(65_536, 65_536, fx(90.0), origin, vec![], vec![])), Some(SceneError::ImageTooLarge));
    assert_eq!(err(Scene::new(u32::MAX, 2, 0, origin, vec![], vec![])), Some(SceneError::ImageTooLarge));
    assert_eq!(MAX_PIXELS, u32::MAX);
    assert!(Scene::new(65_535, 65_537, fx(90.0), origin, vec![], vec![]).is_ok());
    assert_eq!(err(Scene::new(800, 600, 0, origin, vec![], vec![])), Some(SceneError::FieldOfView));
    assert_eq!(err(Scene::new(800, 600, fx(180.0), origin, vec![], vec![])), Some(SceneError::FieldOfView));
    assert_eq!(err(Scene::new(800, 600, fx(-90.0), origin, vec![], vec![])), Some(SceneError::FieldOfView));
    assert!(Scene::new(800, 600, 1, origin, vec![], vec![]).is_ok());
    assert!(Scene::new(800, 600, 179_999_999, origin, vec![], vec![]).is_ok());
    assert_eq!(err(Scene::new(4_000_000_000, 1, 179_999_999, origin, vec![], vec![])), Some(SceneError::ImagePlaneOutOfWorld));
    assert_eq!(err(Scene::new(800, 600, fx(90.0), Point3::new(0, 0, LIMIT + 1), vec![bad], vec![])), Some(SceneError::CameraOutOfWorld));
    assert_eq!(err(Scene::new(800, 600, fx(90.0), origin, vec![good, bad, bad], vec![dark])), Some(SceneError::InvalidObject(1)));
    assert_eq!(err(Scene::new(800, 600, fx(90.0), origin, vec![bad], vec![])), Some(SceneError::InvalidObject(0)));
    assert_eq!(err(Scene::new(800, 600, fx(90.0), origin, vec![good], vec![light, light, dark, dark])), Some(SceneError::InvalidLight(2)));
    assert!(Scene::new(800, 600, fx(90.0), origin, vec![good], vec![light]).is_ok());
    assert!(Scene::new(1, 1, fx(90.0), origin, vec![], vec![]).is_ok());
}

#[test]
fn shade_is_the_average_of_the_lights() {
    let floor = plane(0.0, Color::white(), 0);
    let hit = HitData { object_index: 0, point_of_contact: point(0.0, 0.0, 0.0) };
    let origin = point(0.0, 5.0, 5.0);
    let above = Light::new(point(3.0, 4.0, 0.0), 500_000);
    let below = Light::new(point(3.0, -4.0, 0.0), ONE);
    let level = Light::new(point(3.0, 0.0, 0.0), ONE);
    let overhead = Light::new(point(0.0, 7.0, 0.0), ONE);
    let scene = |lights: Vec<Light>| Scene::new(4, 4, fx(90.0), origin, vec![floor], lights).unwrap();
    assert_eq!(scene(vec![]).shade(&hit, &config(1)), 0);
    assert_eq!(scene(vec![above]).shade(&hit, &config(1)), 400_000);
    assert_eq!(scene(vec![below]).shade(&hit, &config(1)), 0);
    assert_eq!(scene(vec![level]).shade(&hit, &config(1)), 0);
    assert_eq!(scene(vec![overhead]).shade(&hit, &config(1)), ONE);
    assert_eq!(scene(vec![above, below]).shade(&hit, &config(1)), 200_000);
    assert_eq!(scene(vec![above, overhead, below]).shade(&hit, &config(1)), 466_666);
    let at_the_point = Light::new(point(0.0, 0.0, 0.0), ONE);
    assert_eq!(scene(vec![at_the_point]).shade(&hit, &config(1)), 0);
}

#[test]
fn an_occluder_between_point_and_light_leaves_the_point_dark() {
    let floor = plane(0.0, Color::white(), 0);
    let origin = point(0.0, 5.0, 5.0);
    let light = Light::new(point(0.0, 10.0, 0.0), 800_000);
    let hit = HitData { object_index: 0, point_of_contact: point(0.0, 0.0, 0.0) };
    let blocker = sphere(0.0, 5.0, 0.0, 1.0, Color::white(), 0);
    let aside = sphere(4.0, 5.0, 0.0, 1.0, Color::white(), 0);
    let with = Scene::new(4, 4, fx(90.0), origin, vec![floor, blocker], vec![light]).unwrap();
    let without = Scene::new(4, 4, fx(90.0), origin, vec![floor], vec![light]).unwrap();
    let beside = Scene::new(4, 4, fx(90.0), origin, vec![floor, aside], vec![light]).unwrap();
    assert_eq!(with.shade(&hit, &config(1)), 0);
    assert_eq!(without.shade(&hit, &config(1)), 800_000);
    assert_eq!(beside.shade(&hit, &config(1)), 800_000);
    assert!(without.shade(&hit, &config(1)) > with.shade(&hit, &config(1)));
}

#[test]
fn an_object_behind_the_light_also_shadows_within_the_travel_budget() {
    let floor = plane(0.0, Color::white(), 0);
    let light = Light::new(point(0.0, 10.0, 0.0), ONE);
    let hit = HitData { object_index: 0, point_of_contact: point(0.0, 0.0, 0.0) };
    let beyond = sphere(0.0, 20.0, 0.0, 1.0, Color::white(), 0);
    let s = Scene::new(4, 4, fx(90.0), point(0.0, 5.0, 5.0), vec![floor, beyond], vec![light]).unwrap();
    assert_eq!(s.shade(&hit, &config(1)), 0);
    let lone = Scene::new(4, 4, fx(90.0), point(0.0, 5.0, 5.0), vec![floor], vec![light]).unwrap();
    assert_eq!(lone.shade(&hit, &config(1)), ONE);
}

#[test]
fn centre_pixel_hits_the_sphere_and_a_corner_pixel_misses() {
    let s = axis_scene(800, 600);
    let cfg = config(1);
    let mut centre = Ray::create_prime(400, 300, &s);
    assert!(centre.direction.x.abs() < 2_000 && centre.direction.y.abs() < 2_000);
    assert!((centre.direction.z + ONE).abs() < 10);
    let (hit, travelled) = centre.march_until_hit(&s.objects, &[], &cfg);
    let hit = hit.unwrap();
    assert_eq!(hit.object_index, 0);
    assert!((travelled - 4_000_000).abs() < 2_000);
    assert!((hit.point_of_contact.z + 4_000_000).abs() < 2_000);
    assert!(hit.point_of_contact.x.abs() < 10_000 && hit.point_of_contact.y.abs() < 10_000);
    let colour = s.trace(Ray::create_prime(400, 300, &s), &cfg);
    assert!(!colour.is_black());
    let pixel = colour.get_image_rgba();
    assert!(pixel.r > 0 && pixel.g > 0 && pixel.b > 0);
    assert_eq!(pixel.a, 255);
    assert!((colour.r - 92_800).abs() < 500, "{:?}", colour);
    assert_eq!(colour.r, colour.g);
    assert_eq!(colour.g, colour.b);

    let mut corner = Ray::create_prime(0, 0, &s);
    let (miss, _) = corner.march_until_hit(&s.objects, &[], &cfg);
    assert_eq!(miss, None);
    let untouched = s.trace(Ray::create_prime(0, 0, &s), &cfg);
    assert_eq!(untouched, Color::white());
    assert_eq!(untouched.get_image_rgba(), white_pixel());
}

#[test]
fn render_is_row_major() {
    let s = Scene::new(
        6,
        4,
        fx(90.0),
        point(0.0, 0.0, 0.0),
        vec![sphere(-2.0, 1.0, -4.0, 1.5, Color::new(ONE, 500_000, 250_000), 0), plane(-3.0, Color::new(0, ONE, 0), 0)],
        vec![Light::new(point(-4.0, 5.0, -3.0), ONE), Light::new(point(4.0, 5.0, -3.0), 500_000)],
    )
    .unwrap();
    let cfg = config(1);
    let image = s.render(&cfg);
    assert_eq!(image.len(), 24);
    let mut lit = 0;
    let mut distinct = std::collections::BTreeSet::new();
    for y in 0..4u32 {
        for x in 0..6u32 {
            let want = s.trace(Ray::create_prime(x, y, &s), &cfg).get_image_rgba();
            assert_eq!(image[(y * 6 + x) as usize], want, "pixel {} {}", x, y);
            if want != white_pixel() {
                lit += 1;
            }
            distinct.insert((want.r, want.g, want.b));
        }
    }
    assert!(lit >= 6);
    assert!(distinct.len() >= 3);
    assert_ne!(image[0], image[23]);
}

#[test]
fn render_of_an_empty_scene_is_all_background() {
    let s = Scene::new(3, 2, fx(60.0), point(0.0, 0.0, 0.0), vec![], vec![]).unwrap();
    assert_eq!(s.render(&config(3)), vec![white_pixel(); 6]);
}

#[test]
fn hit_without_lights_is_black() {
    let s = Scene::new(1, 1, fx(90.0), point(0.0, 0.0, 0.0), vec![sphere(0.0, 0.0, -5.0, 1.0, Color::white(), 0)], vec![]).unwrap();
    assert_eq!(s.render(&config(1)), vec![Rgba { r: 0, g: 0, b: 0, a: 255 }]);
}

#[test]
fn reflect_limit_does_not_matter_without_reflecting_objects() {
    let build = || {
        Scene::new(
            8,
            6,
            fx(90.0),
            point(0.0, 0.0, 0.0),
            vec![
                sphere(0.0, 0.0, -5.0, 1.0, Color::new(ONE, 0, 0), 0),
                sphere(-2.0, -1.0, -6.0, 1.0, Color::white(), 0),
                plane(-2.0, Color::new(0, ONE, 0), 0),
            ],
            vec![Light::new(point(-4.0, 5.0, -3.0), ONE), Light::new(point(4.0, 5.0, -3.0), ONE)],
        )
        .unwrap()
    };
    let s = build();
    let base = s.render(&config(0));
    assert_eq!(s.render(&config(1)), base);
    assert_eq!(s.render(&config(5)), base);
    assert!(base.iter().any(|p| *p != white_pixel()));
}

#[test]
fn a_mirror_floor_shows_what_is_above_it() {
    let ball = sphere(0.0, 0.0, -5.0, 1.0, Color::new(ONE, 0, 0), 0);
    let lights = vec![Light::new(point(0.0, 3.0, 5.0), ONE)];
    let mirror = Scene::new(4, 4, fx(90.0), point(0.0, 0.0, 0.0), vec![plane(-1.0, Color::white(), ONE), ball], lights.clone()).unwrap();
    let matt = Scene::new(4, 4, fx(90.0), point(0.0, 0.0, 0.0), vec![plane(-1.0, Color::white(), 0), ball], lights).unwrap();
    let down = Vector3::new(0, -400_000, -ONE).normalize();
    let ray = Ray::new(point(0.0, 0.0, 0.0), down);
    let plain = matt.trace(ray, &config(1));
    let seen = mirror.trace(ray, &config(1));
    let unreflected = mirror.trace(ray, &config(0));
    assert_eq!(unreflected, plain);
    assert!(plain.r > 0 && plain.r == plain.g && plain.g == plain.b);
    assert!(seen.r > 0);
    assert_eq!(seen.g, 0);
    assert_eq!(seen.b, 0);
    assert!(seen.r < plain.r);
}

#[test]
fn light_amount_is_at_most_one_near_the_centre_of_a_sphere() {
    let ball = Shape::Sphere(Sphere { centre: point(0.0, 0.0, 0.0), radius: fx(1.0), color: Color::white(), reflectance: 0 });
    let near = HitData { object_index: 0, point_of_contact: Point3::new(1, 1, 1) };
    let light = Light::new(point(5.0, 5.0, 5.0), ONE);
    let s = Scene::new(4, 4, fx(90.0), point(0.0, 0.0, 9.0), vec![ball], vec![light]).unwrap();
    let amount = s.shade(&near, &config(1));
    assert!(amount <= ONE + 6);
    assert!((amount - ONE).abs() <= 6);
}

#[test]
fn light_amount_is_at_most_one_for_a_tiny_sphere_and_a_close_light() {
    let ball = Shape::Sphere(Sphere { centre: point(0.0, 0.0, 0.0), radius: 1_000, color: Color::white(), reflectance: 0 });
    let on_it = HitData { object_index: 0, point_of_contact: Point3::new(577, 577, 577) };
    let close = Light::new(Point3::new(600, 600, 600), ONE);
    let s = Scene::new(4, 4, fx(90.0), point(0.0, 0.0, 9.0), vec![ball], vec![close]).unwrap();
    let amount = s.shade(&on_it, &config(1));
    assert!((amount - ONE).abs() <= 6, "{}", amount);
    let aside = Light::new(Point3::new(577 + 30, 577, 577 - 30), ONE);
    let t = Scene::new(4, 4, fx(90.0), point(0.0, 0.0, 9.0), vec![ball], vec![aside]).unwrap();
    let slanted = t.shade(&on_it, &config(1));
    assert!(0 <= slanted && slanted <= ONE + 6);
}

#[test]
fn reflecting_a_unit_direction_gives_a_unit_direction() {
    let normals = [Vector3::new(1, 1, 1).normalize(), Vector3::new(0, 1, 0), Vector3::new(-2, 3, 6).normalize()];
    let dirs = [Vector3::new(3, -4, 12).normalize(), Vector3::new(0, -1, 0), Vector3::new(1, -1, -1).normalize()];
    let one_sq = ONE as i128 * ONE as i128;
    for n in normals.iter() {
        for d in dirs.iter() {
            let mut ray = Ray::new(point(0.0, 0.0, 0.0), *d);
            ray.reflect(*n);
            let r = ray.direction;
            let len_sq = r.x as i128 * r.x as i128 + r.y as i128 * r.y as i128 + r.z as i128 * r.z as i128;
            assert!((len_sq - one_sq).abs() <= 6 * ONE as i128);
        }
    }
}
