use rust_rt::geom::{Point3, AABB};
use rust_rt::octree::Octree;
use rust_rt::scene::{ids_are_unique, nearer, next_id, EntityType, Intersection, NaiveScene, SceneEntity};

fn cube(x: i32, y: i32, z: i32, size: i32) -> AABB {
    AABB { min: Point3 { x, y, z }, max: Point3 { x: x + size, y: y + size, z: z + size } }
}

fn solid(id: u32, bounds: AABB) -> SceneEntity {
    SceneEntity { id, kind: EntityType::Sphere, bounds: Some(bounds), emissive: false }
}

fn endless(id: u32) -> SceneEntity {
    SceneEntity { id, kind: EntityType::Plane, bounds: None, emissive: false }
}

/// A ray from `(x, y, z)` along the x axis, towards larger x.
#[derive(Clone, Copy)]
struct AxisRay {
    x: i32,
    y: i32,
    z: i32,
}

impl AxisRay {
    fn crosses(&self, b: AABB) -> bool {
        b.min.y <= self.y && self.y <= b.max.y && b.min.z <= self.z && self.z <= b.max.z
            && b.max.x >= self.x
    }

    /// Entities are solid boxes; a plane stands at `x = wall`.
    fn hit(&self, entity: &SceneEntity, wall: i32) -> Option<(u64, u32)> {
        match entity.bounds {
            Some(b) => {
                if self.crosses(b) {
                    let at = if b.min.x > self.x { b.min.x } else { self.x };
                    Some(((at as i64 - self.x as i64) as u64, entity.id))
                } else {
                    None
                }
            }
            None => {
                if wall >= self.x {
                    Some(((wall as i64 - self.x as i64) as u64, entity.id))
                } else {
                    None
                }
            }
        }
    }
}

struct Lcg(u64);

impl Lcg {
    fn next(&mut self, below: u32) -> i32 {
        self.0 = self.0.wrapping_mul(6364136223846793005).wrapping_add(1442695040888963407);
        ((self.0 >> 33) % below as u64) as i32
    }
}

fn random_scene(rng: &mut Lcg, count: usize, with_wall: bool) -> Vec<SceneEntity> {
    let mut entities = Vec::new();
    for i in 0..count {
        let bounds = cube(rng.next(200) - 100, rng.next(200) - 100, rng.next(200) - 100, 1 + rng.next(30));
        entities.push(solid(i as u32, bounds));
    }
    if with_wall {
        entities.insert(count / 2, endless(count as u32));
    }
    entities
}

#[test]
fn empty_scene_has_no_hit() {
    let tree = Octree::create(Vec::new(), 4);
    assert_eq!(tree.len(), 0);
    let best: Option<Intersection<()>> = tree.find_intersection(|_| true, |_| Some((1, ())));
    assert!(best.is_none());
}

#[test]
fn single_entity_is_found_when_hit() {
    let tree = Octree::create(vec![solid(7, cube(10, -1, -1, 2))], 4);
    let ray = AxisRay { x: 0, y: 0, z: 0 };
    let best = tree.find_intersection(|b| ray.crosses(b), |e| ray.hit(tree.entity(e), 0));
    let best = best.unwrap();
    assert_eq!(best.entity, 0);
    assert_eq!(best.distance, 10);
    assert_eq!(best.detail, 7);
}

#[test]
fn entity_behind_the_ray_is_missed() {
    let tree = Octree::create(vec![solid(7, cube(-10, -1, -1, 2))], 4);
    let ray = AxisRay { x: 0, y: 0, z: 0 };
    let best = tree.find_intersection(|b| ray.crosses(b), |e| ray.hit(tree.entity(e), 0));
    assert!(best.is_none());
}

#[test]
fn nearest_of_many_is_returned() {
    let mut entities = Vec::new();
    for i in 0..10 {
        entities.push(solid(i, cube(100 - 10 * i as i32, -1, -1, 2)));
    }
    let tree = Octree::create(entities, 4);
    let ray = AxisRay { x: 0, y: 0, z: 0 };
    let best = tree.find_intersection(|b| ray.crosses(b), |e| ray.hit(tree.entity(e), 0)).unwrap();
    assert_eq!(best.entity, 9);
    assert_eq!(best.distance, 10);
}

#[test]
fn boundless_entity_wins_when_nearer() {
    let tree = Octree::create(vec![solid(1, cube(50, -1, -1, 2)), endless(2)], 4);
    let ray = AxisRay { x: 0, y: 0, z: 0 };
    let best = tree.find_intersection(|b| ray.crosses(b), |e| ray.hit(tree.entity(e), 20)).unwrap();
    assert_eq!(best.entity, 1);
    assert_eq!(best.distance, 20);
    assert_eq!(best.detail, 2);
}

#[test]
fn boundless_entity_loses_when_farther() {
    let tree = Octree::create(vec![endless(2), solid(1, cube(50, -1, -1, 2))], 4);
    let ray = AxisRay { x: 0, y: 0, z: 0 };
    let best = tree.find_intersection(|b| ray.crosses(b), |e| ray.hit(tree.entity(e), 80)).unwrap();
    assert_eq!(best.entity, 1);
    assert_eq!(best.distance, 50);
}

#[test]
fn boundless_entity_is_found_when_the_tree_yields_nothing() {
    let tree = Octree::create(vec![solid(1, cube(50, 40, 40, 2)), endless(2)], 4);
    let ray = AxisRay { x: 0, y: 0, z: 0 };
    assert!(tree.trace(|b| ray.crosses(b), |e| ray.hit(tree.entity(e), 30)).is_none());
    let best = tree.find_intersection(|b| ray.crosses(b), |e| ray.hit(tree.entity(e), 30)).unwrap();
    assert_eq!(best.entity, 1);
    assert_eq!(best.distance, 30);
}

#[test]
fn only_boundless_entities() {
    let tree = Octree::create(vec![endless(5), endless(6)], 4);
    let best = tree.find_intersection(|_| false, |e| if e == 1 { Some((3, 'b')) } else { Some((9, 'a')) });
    let best = best.unwrap();
    assert_eq!((best.entity, best.distance, best.detail), (1, 3, 'b'));
}

#[test]
fn pruned_boxes_are_not_searched() {
    let mut entities = Vec::new();
    for i in 0..20 {
        entities.push(solid(i, cube(10 * i as i32, 0, 0, 5)));
    }
    let tree = Octree::create(entities, 4);
    let best: Option<Intersection<()>> = tree.find_intersection(|_| false, |_| Some((1, ())));
    assert!(best.is_none());
}

#[test]
fn octree_agrees_with_exhaustive_scan() {
    let mut rng = Lcg(12345);
    for round in 0..60 {
        let count = (round * 7) % 90;
        let wall = 150 - rng.next(300);
        let entities = random_scene(&mut rng, count, round % 3 == 0);
        let mut naive = NaiveScene::new();
        for e in &entities {
            naive.add(*e);
        }
        let tree = Octree::create(entities.clone(), (round % 6) as usize);
        assert_eq!(tree.len(), entities.len());
        for _ in 0..40 {
            let ray = AxisRay { x: rng.next(300) - 150, y: rng.next(260) - 130, z: rng.next(260) - 130 };
            let indexed = tree.find_intersection(|b| ray.crosses(b), |e| ray.hit(&entities[e], wall));
            let scanned = naive.trace(|e| ray.hit(&entities[e], wall));
            match (indexed, scanned) {
                (None, None) => {}
                (Some(a), Some(b)) => {
                    assert_eq!(a.distance, b.distance);
                    assert_eq!(ray.hit(&entities[a.entity], wall), Some((a.distance, a.detail)));
                }
                _ => panic!("the index and the scan disagree on whether the ray hits"),
            }
        }
    }
}

#[test]
fn depth_limit_zero_keeps_everything_in_the_root() {
    let mut entities = Vec::new();
    for i in 0..30 {
        entities.push(solid(i, cube(10 * i as i32, 0, 0, 5)));
    }
    let tree = Octree::create(entities, 0);
    assert_eq!(tree.depth_limit(), 0);
    let mut boxes_tested = 0usize;
    let counter = std::cell::Cell::new(0usize);
    let best: Option<Intersection<()>> = tree.find_intersection(
        |_| {
            counter.set(counter.get() + 1);
            true
        },
        |e| Some((100 - e as u64, ())),
    );
    boxes_tested += counter.get();
    assert_eq!(boxes_tested, 1);
    assert_eq!(best.unwrap().entity, 29);
}

#[test]
fn emissive_entities_are_listed_in_order() {
    let mut entities = vec![solid(1, cube(0, 0, 0, 1)), solid(2, cube(5, 0, 0, 1)), endless(3), solid(4, cube(9, 0, 0, 1))];
    entities[1].emissive = true;
    entities[2].emissive = true;
    entities[3].emissive = true;
    let tree = Octree::create(entities, 4);
    assert_eq!(tree.get_emissive_entities(), vec![1, 2, 3]);
}

#[test]
fn nearer_keeps_the_smaller_distance() {
    let a = Intersection { entity: 0, distance: 5, detail: 'a' };
    let b = Intersection { entity: 1, distance: 3, detail: 'b' };
    assert_eq!(nearer(Some(a), Some(b)).unwrap().entity, 1);
    assert_eq!(nearer(Some(b), Some(a)).unwrap().entity, 1);
    assert_eq!(nearer(Some(a), None).unwrap().entity, 0);
    assert_eq!(nearer(None, Some(b)).unwrap().entity, 1);
    assert!(nearer::<char>(None, None).is_none());
    let tie = Intersection { entity: 2, distance: 5, detail: 'c' };
    assert_eq!(nearer(Some(a), Some(tie)).unwrap().entity, 0);
}

#[test]
fn few_entities_stay_in_the_root() {
    let entities: Vec<SceneEntity> = (0..4).map(|i| solid(i, cube(10 * i as i32, 0, 0, 5))).collect();
    let tree = Octree::create(entities, 4);
    assert_eq!(tree.octants(), 1);
    assert_eq!(tree.threshold(), 4);
}

#[test]
fn a_fifth_entity_cuts_the_root() {
    let entities: Vec<SceneEntity> = (0..5).map(|i| solid(i, cube(10 * i as i32, 0, 0, 5))).collect();
    let tree = Octree::create(entities.clone(), 1);
    assert_eq!(tree.octants(), 9);
    let uncut = Octree::create(entities, 0);
    assert_eq!(uncut.octants(), 1);
}

#[test]
fn scene_of_boundless_entities_has_no_octants() {
    let tree = Octree::create(vec![endless(1), endless(2)], 4);
    assert_eq!(tree.octants(), 0);
    assert_eq!(tree.len(), 2);
}

#[test]
fn an_entity_astride_a_cut_is_tested_from_either_side() {
    let mut entities: Vec<SceneEntity> = (0..8).map(|i| solid(i, cube(-40 + 10 * i as i32, -40 + 10 * i as i32, 0, 2))).collect();
    entities.push(solid(99, AABB { min: Point3 { x: -40, y: -40, z: 0 }, max: Point3 { x: 32, y: 32, z: 2 } }));
    let tree = Octree::create(entities.clone(), 3);
    for x in [-39, 0, 31] {
        let ray = AxisRay { x: -100, y: x, z: 1 };
        let wide = tree.find_intersection(|b| ray.crosses(b), |e| if e == 8 { ray.hit(&entities[e], 0) } else { None });
        assert_eq!(wide.unwrap().entity, 8);
    }
}

#[test]
fn with_threshold_cuts_later() {
    let entities: Vec<SceneEntity> = (0..20).map(|i| solid(i, cube(10 * i as i32, 0, 0, 5))).collect();
    let coarse = Octree::with_threshold(entities.clone(), 4, 20);
    assert_eq!(coarse.octants(), 1);
    let fine = Octree::with_threshold(entities, 4, 19);
    assert!(fine.octants() >= 9);
    assert_eq!(fine.threshold(), 19);
}

#[test]
fn identities_count_up_from_one() {
    let mut id = 0;
    assert_eq!(next_id(&mut id), 1);
    assert_eq!(next_id(&mut id), 2);
    assert_eq!(next_id(&mut id), 3);
    assert_eq!(id, 3);
}

#[test]
fn a_tree_cut_where_the_caller_says_finds_the_same_hits() {
    let mut rng = Lcg(777);
    let entities = random_scene(&mut rng, 60, true);
    let plain = Octree::create(entities.clone(), 4);
    let lopsided = Octree::create_with(entities.clone(), 4, 4, |b: AABB| Point3 {
        x: b.min.x + (b.max.x - b.min.x) / 4,
        y: b.max.y,
        z: i32::MAX,
    });
    assert!(lopsided.octants() > 1);
    for _ in 0..200 {
        let ray = AxisRay { x: rng.next(300) - 150, y: rng.next(260) - 130, z: rng.next(260) - 130 };
        let a = plain.find_intersection(|b| ray.crosses(b), |e| ray.hit(&entities[e], 40));
        let b = lopsided.find_intersection(|b| ray.crosses(b), |e| ray.hit(&entities[e], 40));
        assert_eq!(a.map(|hit| hit.distance), b.map(|hit| hit.distance));
    }
}

#[test]
fn identities_are_checked_for_doubles() {
    let mut entities = vec![solid(1, cube(0, 0, 0, 1)), endless(2), solid(3, cube(5, 0, 0, 1))];
    assert!(ids_are_unique(&entities));
    assert!(ids_are_unique(&Vec::new()));
    entities.push(endless(1));
    assert!(!ids_are_unique(&entities));
    entities[3].id = 4;
    entities[1].id = 3;
    assert!(!ids_are_unique(&entities));
}
