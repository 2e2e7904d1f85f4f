use raytracer::shade::ray_color;

fn descend(ray: &u32) -> Option<u32> {
    if *ray < 3 {
        Some(*ray + 1)
    } else {
        None
    }
}

fn sky(ray: &u32) -> u32 {
    1000 + *ray
}

fn halve(color: u32) -> u32 {
    color / 2
}

#[test]
fn no_bounce_left_gives_black() {
    assert_eq!(ray_color(0u32, 0, &descend, &sky, &halve, 7u32), 7);
    assert_eq!(ray_color(3u32, 0, &descend, &sky, &halve, 7u32), 7);
    let always = |ray: &u32| Some(*ray);
    assert_eq!(ray_color(0u32, 0, &always, &sky, &halve, 0u32), 0);
}

#[test]
fn miss_gives_the_sky() {
    assert_eq!(ray_color(3u32, 1, &descend, &sky, &halve, 0u32), 1003);
    assert_eq!(ray_color(5u32, 9, &descend, &sky, &halve, 0u32), 1005);
}

#[test]
fn each_bounce_halves_the_color() {
    assert_eq!(ray_color(2u32, 5, &descend, &sky, &halve, 0u32), 1003 / 2);
    assert_eq!(ray_color(1u32, 5, &descend, &sky, &halve, 0u32), 1003 / 4);
    assert_eq!(ray_color(0u32, 4, &descend, &sky, &halve, 0u32), 1003 / 8);
}

#[test]
fn ray_is_absorbed_when_the_bounces_run_out() {
    assert_eq!(ray_color(0u32, 3, &descend, &sky, &halve, 64u32), 8);
    assert_eq!(ray_color(0u32, 2, &descend, &sky, &halve, 64u32), 16);
    let always = |ray: &u32| Some(*ray);
    assert_eq!(ray_color(0u32, 6, &always, &sky, &halve, 64u32), 1);
}

#[test]
fn colors_of_floating_point() {
    let sky = |_ray: &u32| 0.75f64;
    let halve = |color: f64| 0.5 * color;
    assert_eq!(ray_color(1u32, 8, &descend, &sky, &halve, 0.0), 0.1875);
    assert_eq!(ray_color(1u32, 2, &descend, &sky, &halve, 0.0), 0.0);
}
