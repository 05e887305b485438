use rand::rngs::StdRng;
use rand::RngCore;
use rand::SeedableRng;
use rust_rt::integrator::{light_visible, needs_shadow_ray, shade, SurfaceHit};
use rust_rt::sampling::{choose_light, pick_light, worker_rngs};

/// A world on a line: a ray is a position and a heading, and the surfaces
/// stand at fixed positions.
#[derive(Clone, Copy, Debug, PartialEq)]
struct Ray {
    at: i32,
    ahead: bool,
    to_light: bool,
}

#[derive(Clone, Copy)]
struct Wall {
    at: i32,
    transparent: bool,
    reflective: bool,
    emission: u32,
    diffuse: u32,
}

fn find(walls: &[Wall], light_at: i32, ray: Ray) -> Option<SurfaceHit<Ray, Wall>> {
    let mut best: Option<(i32, usize)> = None;
    for (i, wall) in walls.iter().enumerate() {
        let reached = if ray.ahead { wall.at > ray.at } else { wall.at < ray.at };
        if reached {
            let distance = (wall.at - ray.at).abs();
            if best.map_or(true, |(d, _)| distance < d) {
                best = Some((distance, i));
            }
        }
    }
    best.map(|(_, i)| {
        let wall = walls[i];
        let before = if ray.ahead { wall.at - 1 } else { wall.at + 1 };
        let behind = if ray.ahead { wall.at + 1 } else { wall.at - 1 };
        SurfaceHit {
            entity: i,
            transparent: wall.transparent,
            reflective: wall.reflective,
            refracted: Ray { at: behind - if ray.ahead { 1 } else { -1 }, ahead: ray.ahead, to_light: false },
            reflected: Ray { at: before, ahead: !ray.ahead, to_light: false },
            shadow: Ray { at: before, ahead: light_at > before, to_light: true },
            material: wall,
        }
    })
}

fn combine(wall: Wall, seen: bool, mirrored: u32) -> u32 {
    let direct = if seen { 2 } else { 1 };
    if wall.reflective {
        mirrored
    } else {
        wall.emission + wall.diffuse * direct
    }
}

fn wall(at: i32, diffuse: u32) -> Wall {
    Wall { at, transparent: false, reflective: false, emission: 0, diffuse }
}

#[test]
fn depth_zero_is_black() {
    let walls = [wall(5, 10)];
    let ray = Ray { at: 0, ahead: true, to_light: false };
    let gathered = shade(&|r| find(&walls, 0, r), &combine, 0u32, None, ray, 0);
    assert_eq!(gathered, 0);
    let glowing = shade(&|r| find(&walls, 0, r), &combine, 77u32, Some(0), ray, 0);
    assert_eq!(glowing, 77);
}

#[test]
fn a_ray_that_meets_nothing_is_black() {
    let walls = [wall(5, 10)];
    let ray = Ray { at: 9, ahead: true, to_light: false };
    assert_eq!(shade(&|r| find(&walls, 0, r), &combine, 0u32, None, ray, 3), 0);
}

#[test]
fn a_diffuse_surface_shows_its_own_colour() {
    let walls = [wall(5, 10)];
    let ray = Ray { at: 0, ahead: true, to_light: false };
    assert_eq!(shade(&|r| find(&walls, 0, r), &combine, 0u32, None, ray, 3), 10);
}

#[test]
fn a_light_in_view_adds_direct_light() {
    let mut lamp = wall(-5, 0);
    lamp.emission = 100;
    let walls = [wall(5, 10), lamp];
    let ray = Ray { at: 0, ahead: true, to_light: false };
    assert_eq!(shade(&|r| find(&walls, -5, r), &combine, 0u32, Some(1), ray, 3), 20);
}

#[test]
fn an_occluded_light_adds_nothing() {
    let mut lamp = wall(-5, 0);
    lamp.emission = 100;
    let walls = [wall(5, 10), lamp, wall(-2, 1)];
    let ray = Ray { at: 0, ahead: true, to_light: false };
    assert_eq!(shade(&|r| find(&walls, -5, r), &combine, 0u32, Some(1), ray, 3), 10);
}

#[test]
fn the_light_itself_is_not_lit_by_itself() {
    let mut lamp = wall(5, 3);
    lamp.emission = 100;
    let walls = [lamp];
    let ray = Ray { at: 0, ahead: true, to_light: false };
    assert_eq!(shade(&|r| find(&walls, 5, r), &combine, 0u32, Some(0), ray, 3), 103);
}

#[test]
fn a_transparent_surface_shows_only_what_lies_behind() {
    let mut glass = wall(5, 1000);
    glass.transparent = true;
    glass.reflective = true;
    glass.emission = 500;
    let walls = [glass, wall(9, 10)];
    let ray = Ray { at: 0, ahead: true, to_light: false };
    assert_eq!(shade(&|r| find(&walls, 0, r), &combine, 0u32, None, ray, 3), 10);
    assert_eq!(shade(&|r| find(&walls, 0, r), &combine, 0u32, None, ray, 1), 0);
}

#[test]
fn a_mirror_shows_what_lies_before_it() {
    let mut mirror = wall(5, 1000);
    mirror.reflective = true;
    let walls = [mirror, wall(-3, 7)];
    let ray = Ray { at: 0, ahead: true, to_light: false };
    assert_eq!(shade(&|r| find(&walls, 0, r), &combine, 0u32, None, ray, 2), 7);
    assert_eq!(shade(&|r| find(&walls, 0, r), &combine, 0u32, None, ray, 1), 0);
}

#[test]
fn facing_mirrors_stop_at_the_depth_limit() {
    let mut left = wall(-5, 0);
    left.reflective = true;
    let mut right = wall(5, 0);
    right.reflective = true;
    let walls = [left, right];
    let calls = std::cell::Cell::new(0u32);
    let ray = Ray { at: 0, ahead: true, to_light: false };
    let gathered = shade(
        &|r| {
            calls.set(calls.get() + 1);
            find(&walls, 0, r)
        },
        &combine,
        0u32,
        None,
        ray,
        6,
    );
    assert_eq!(gathered, 0);
    assert_eq!(calls.get(), 6);
}

#[test]
fn the_light_is_seen_only_as_the_first_thing_on_the_shadow_ray() {
    assert!(light_visible(1, Some(4), Some(4)));
    assert!(!light_visible(1, Some(3), Some(4)));
    assert!(!light_visible(1, None, Some(4)));
    assert!(!light_visible(4, Some(4), Some(4)));
    assert!(!light_visible(1, Some(4), None));
    assert!(needs_shadow_ray(1, Some(4)));
    assert!(!needs_shadow_ray(4, Some(4)));
    assert!(!needs_shadow_ray(4, None));
}

#[test]
fn a_light_is_chosen_among_the_lights() {
    let mut rng = StdRng::seed_from_u64(123);
    let lights = vec![3usize, 8, 21];
    let mut seen = [false; 3];
    for _ in 0..200 {
        let light = choose_light(&mut rng, &lights).unwrap();
        let position = lights.iter().position(|&l| l == light).unwrap();
        seen[position] = true;
    }
    assert_eq!(seen, [true, true, true]);
    assert_eq!(choose_light(&mut rng, &Vec::new()), None);
    assert_eq!(choose_light(&mut rng, &vec![5]), Some(5));
}

#[test]
fn pick_light_reads_the_list() {
    let lights = vec![3usize, 8, 21];
    assert_eq!(pick_light(&lights, 0), Some(3));
    assert_eq!(pick_light(&lights, 2), Some(21));
    assert_eq!(pick_light(&lights, 3), None);
}

#[test]
fn worker_generators_repeat_for_the_same_master_seed() {
    let mut first = worker_rngs(&mut StdRng::seed_from_u64(123), 4);
    let mut second = worker_rngs(&mut StdRng::seed_from_u64(123), 4);
    assert_eq!(first.len(), 4);
    let a: Vec<u64> = first.iter_mut().map(|r| r.next_u64()).collect();
    let b: Vec<u64> = second.iter_mut().map(|r| r.next_u64()).collect();
    assert_eq!(a, b);
    assert!(a[0] != a[1] && a[1] != a[2] && a[2] != a[3]);
    let mut master = StdRng::seed_from_u64(123);
    let expected = StdRng::seed_from_u64(master.next_u64()).next_u64();
    assert_eq!(a[0], expected);
    assert!(worker_rngs(&mut master, 0).is_empty());
}
