use raytracer::interval::first_inside;
use raytracer::scene::hit_world;
use raytracer::shade::ray_color;

type Vector = [f64; 3];

fn add(a: Vector, b: Vector) -> Vector {
    [a[0] + b[0], a[1] + b[1], a[2] + b[2]]
}

fn sub(a: Vector, b: Vector) -> Vector {
    [a[0] - b[0], a[1] - b[1], a[2] - b[2]]
}

fn scale(a: Vector, s: f64) -> Vector {
    [a[0] * s, a[1] * s, a[2] * s]
}

fn dot(a: Vector, b: Vector) -> f64 {
    a[0] * b[0] + a[1] * b[1] + a[2] * b[2]
}

#[derive(Debug, Clone, Copy)]
struct Ray {
    origin: Vector,
    direction: Vector,
}

#[derive(Debug, Clone, Copy)]
struct HitRecord {
    p: Vector,
    n: Vector,
    t: f64,
    front_face: bool,
}

#[derive(Debug, Clone, Copy)]
struct Sphere {
    center: Vector,
    radius: f64,
}

impl Sphere {
    fn hit(&self, ray: &Ray, t_min: f64, t_max: f64) -> Option<HitRecord> {
        let oc = sub(ray.origin, self.center);
        let a = dot(ray.direction, ray.direction);
        let half_b = dot(oc, ray.direction);
        let c = dot(oc, oc) - self.radius * self.radius;
        let discriminant = half_b * half_b - a * c;
        if discriminant < 0.0 {
            return None;
        }
        let sqrtd = discriminant.sqrt();
        let roots = [(-half_b - sqrtd) / a, (-half_b + sqrtd) / a];
        let root = first_inside(&roots, t_min, t_max)?;
        let p = add(ray.origin, scale(ray.direction, root));
        let outward = scale(sub(p, self.center), 1.0 / self.radius);
        let front_face = dot(ray.direction, outward) < 0.0;
        let n = if front_face { outward } else { scale(outward, -1.0) };
        Some(HitRecord { p, n, t: root, front_face })
    }
}

fn camera_ray(u: f64, v: f64) -> Ray {
    let width = 2.0 * 16.0 / 9.0;
    let lower_left = [-width / 2.0, -1.0, -1.0];
    let direction = add(add(lower_left, scale([width, 0.0, 0.0], u)), scale([0.0, 2.0, 0.0], v));
    Ray { origin: [0.0, 0.0, 0.0], direction }
}

fn nearest(world: &[Sphere], ray: &Ray, t_min: f64, t_max: f64) -> Option<HitRecord> {
    hit_world(
        world,
        t_min,
        t_max,
        &|sphere: &Sphere, t_min: f64, closest: f64| sphere.hit(ray, t_min, closest),
        &|hit: &HitRecord| hit.t,
    )
}

#[test]
fn test_hit_world() {
    let world = vec![
        Sphere { center: [0.0, 0.0, -1.0], radius: 0.5 },
        Sphere { center: [0.0, 0.0, -2.0], radius: 0.5 },
    ];
    let expected =
        HitRecord { p: [0.0, 0.0, -0.5], n: [0.0, 0.0, 1.0], t: 0.5, front_face: true };
    let ray = camera_ray(0.5, 0.5);
    let hit_record = nearest(&world, &ray, 0.0, f64::INFINITY).expect("no hit record returned");
    assert!(hit_record.p == expected.p);
    assert!(hit_record.n == expected.n);
    assert!(hit_record.t == 0.5);
    assert!(hit_record.front_face);

    let ray = camera_ray(0.0, 0.0);
    let hit_record = nearest(&world, &camera_ray(0.0, 0.0), 0.0, f64::INFINITY);
    match hit_record {
        Some(_hit) => panic!("ray {:?} should not have hit", ray),
        None => (),
    }
}

#[test]
fn test_sphere_hit() {
    let sphere = Sphere { center: [0.0, 0.0, 0.0], radius: 1.0 };
    let ray = Ray { origin: [0.0, 0.0, -5.0], direction: [0.0, 0.0, 1.0] };
    let hit = sphere.hit(&ray, 0.0, f64::INFINITY);
    assert_eq!(hit.unwrap().t, 4.0);
}

#[test]
fn ray_aimed_away_hits_nothing() {
    let world = [
        Sphere { center: [0.0, 0.0, -1.0], radius: 0.5 },
        Sphere { center: [0.0, -100.5, -1.0], radius: 100.0 },
    ];
    let ray = Ray { origin: [0.0, 0.0, 0.0], direction: [0.0, 1.0, 1.0] };
    assert!(nearest(&world, &ray, 0.001, f64::INFINITY).is_none());
}

#[test]
fn ray_from_outside_meets_the_front_face() {
    let world = [Sphere { center: [0.0, 0.0, -3.0], radius: 1.0 }];
    let ray = Ray { origin: [0.0, 0.0, 0.0], direction: [0.0, 0.0, -1.0] };
    let hit = nearest(&world, &ray, 0.001, f64::INFINITY).unwrap();
    assert_eq!(hit.t, 2.0);
    assert!(hit.front_face);
    assert_eq!(hit.n, [0.0, 0.0, 1.0]);
    assert!(dot(hit.n, ray.direction) < 0.0);
}

#[test]
fn ray_from_inside_meets_the_back_face() {
    let world = [Sphere { center: [0.0, 0.0, 0.0], radius: 2.0 }];
    let ray = Ray { origin: [0.0, 0.0, 1.0], direction: [0.0, 0.0, -1.0] };
    let hit = nearest(&world, &ray, 0.001, f64::INFINITY).unwrap();
    assert_eq!(hit.t, 3.0);
    assert!(!hit.front_face);
    assert_eq!(hit.p, [0.0, 0.0, -2.0]);
    assert_eq!(hit.n, [0.0, 0.0, 1.0]);
    assert!(dot(hit.n, ray.direction) < 0.0);
}

#[test]
fn nearer_sphere_wins_in_either_order() {
    let near = Sphere { center: [0.0, 0.0, -1.0], radius: 0.5 };
    let far = Sphere { center: [0.0, 0.0, -1.4], radius: 0.5 };
    let ray = camera_ray(0.5, 0.5);
    let one = nearest(&[near, far], &ray, 0.001, f64::INFINITY).unwrap();
    let other = nearest(&[far, near], &ray, 0.001, f64::INFINITY).unwrap();
    assert_eq!(one.t, 0.5);
    assert_eq!(other.t, 0.5);
    assert_eq!(one.p, other.p);
}

#[test]
fn hit_beyond_the_bound_does_not_count() {
    let world = [Sphere { center: [0.0, 0.0, -1.0], radius: 0.5 }];
    let ray = camera_ray(0.5, 0.5);
    assert!(nearest(&world, &ray, 0.0, 0.5).is_none());
    assert!(nearest(&world, &ray, 0.0, 0.75).is_some());
    assert_eq!(nearest(&world, &ray, 0.5, f64::INFINITY).unwrap().t, 1.5);
}

fn between(shape: &(u32, char), t_min: u32, closest: u32) -> Option<(u32, char)> {
    if t_min < shape.0 && shape.0 < closest {
        Some(*shape)
    } else {
        None
    }
}

fn far(hit: &(u32, char)) -> u32 {
    hit.0
}

#[test]
fn nearest_of_many() {
    let world = [(9, 'a'), (4, 'b'), (7, 'c'), (2, 'd'), (5, 'e')];
    assert_eq!(hit_world(&world, 0, 100, &between, &far), Some((2, 'd')));
    assert_eq!(hit_world(&world[..3], 0, 100, &between, &far), Some((4, 'b')));
    assert_eq!(hit_world(&world[..1], 0, 100, &between, &far), Some((9, 'a')));
}

#[test]
fn empty_scene_has_no_hit() {
    let world: [(u32, char); 0] = [];
    assert_eq!(hit_world(&world, 0, 100, &between, &far), None);
}

#[test]
fn nothing_below_the_bound() {
    let world = [(9, 'a'), (4, 'b')];
    assert_eq!(hit_world(&world, 0, 4, &between, &far), None);
    assert_eq!(hit_world(&world, 0, 5, &between, &far), Some((4, 'b')));
}

#[test]
fn nothing_at_or_below_the_lower_bound() {
    let world = [(9, 'a'), (4, 'b'), (2, 'c')];
    assert_eq!(hit_world(&world, 2, 100, &between, &far), Some((4, 'b')));
    assert_eq!(hit_world(&world, 4, 100, &between, &far), Some((9, 'a')));
    assert_eq!(hit_world(&world, 9, 100, &between, &far), None);
}

#[test]
fn first_of_equally_near_hits_is_kept() {
    let world = [(5, 'a'), (3, 'b'), (3, 'c'), (8, 'd'), (3, 'e')];
    assert_eq!(hit_world(&world, 0, 100, &between, &far), Some((3, 'b')));
}

#[test]
fn order_of_the_scene_does_not_show_in_the_distance() {
    let world = [(9, 'a'), (4, 'b'), (7, 'c'), (4, 'd'), (5, 'e')];
    let mut turned = world;
    turned.reverse();
    let one = hit_world(&world, 0, 100, &between, &far).unwrap();
    let other = hit_world(&turned, 0, 100, &between, &far).unwrap();
    assert_eq!(one, (4, 'b'));
    assert_eq!(other, (4, 'd'));
    assert_eq!(one.0, other.0);
}

#[test]
fn order_of_the_scene_does_not_show_in_a_hit_that_is_alone() {
    let world = [(9, 'a'), (4, 'b'), (7, 'c'), (3, 'd'), (5, 'e'), (9, 'f')];
    let expected = Some((3, 'd'));
    assert_eq!(hit_world(&world, 0, 100, &between, &far), expected);
    let mut turned = world;
    turned.reverse();
    assert_eq!(hit_world(&turned, 0, 100, &between, &far), expected);
    turned.rotate_left(2);
    assert_eq!(hit_world(&turned, 0, 100, &between, &far), expected);
    turned.swap(0, 3);
    assert_eq!(hit_world(&turned, 0, 100, &between, &far), expected);
}

fn pixel_color(world: &[Sphere], u: f64, v: f64, depth: u16) -> Vector {
    let bounce = |ray: &Ray| {
        nearest(world, ray, 0.001, f64::INFINITY).map(|hit| Ray { origin: hit.p, direction: hit.n })
    };
    let sky = |ray: &Ray| {
        let length = dot(ray.direction, ray.direction).sqrt();
        let t = 0.5 * (ray.direction[1] / length + 1.0);
        add(scale([1.0, 1.0, 1.0], 1.0 - t), scale([0.5, 0.7, 1.0], t))
    };
    let halve = |color: Vector| scale(color, 0.5);
    ray_color(camera_ray(u, v), depth, &bounce, &sky, &halve, [0.0, 0.0, 0.0])
}

#[test]
fn end_to_end_center_and_corner() {
    let world = vec![
        Sphere { center: [0.0, 0.0, -1.0], radius: 0.5 },
        Sphere { center: [0.0, -100.5, -1.0], radius: 100.0 },
    ];
    let center = pixel_color(&world, 0.5, 0.5, 1);
    assert_eq!(center, [0.0, 0.0, 0.0]);

    let corner = pixel_color(&world, 1.0, 1.0, 1);
    let t = (1.0 - corner[0]) / 0.5;
    assert!(0.5 < t && t <= 1.0);
    assert!((corner[0] - (1.0 - 0.5 * t)).abs() < 1e-12);
    assert!((corner[1] - (1.0 - 0.3 * t)).abs() < 1e-12);
    assert!((corner[2] - 1.0).abs() < 1e-12);
}

#[test]
fn sky_lies_between_white_and_blue() {
    let world = vec![
        Sphere { center: [0.0, 0.0, -1.0], radius: 0.5 },
        Sphere { center: [0.0, -100.5, -1.0], radius: 100.0 },
    ];
    for (u, v) in [(0.0, 1.0), (0.25, 0.9), (0.5, 1.0), (1.0, 0.8), (1.5, 1.5), (-0.5, 2.0)] {
        let color = pixel_color(&world, u, v, 5);
        assert!(0.5 <= color[0] && color[0] <= 1.0);
        assert!(0.7 <= color[1] && color[1] <= 1.0);
        assert!((color[2] - 1.0).abs() < 1e-12);
    }
}

#[test]
fn deeper_rays_see_the_sky_after_a_bounce() {
    let world = vec![
        Sphere { center: [0.0, 0.0, -1.0], radius: 0.5 },
        Sphere { center: [0.0, -100.5, -1.0], radius: 100.0 },
    ];
    let center = pixel_color(&world, 0.5, 0.5, 2);
    let sky_ahead = add(scale([1.0, 1.0, 1.0], 0.5), scale([0.5, 0.7, 1.0], 0.5));
    assert_eq!(center, scale(sky_ahead, 0.5));
    assert_eq!(pixel_color(&world, 0.5, 0.5, 0), [0.0, 0.0, 0.0]);
    assert_eq!(pixel_color(&world, 1.0, 1.0, 0), [0.0, 0.0, 0.0]);
}
