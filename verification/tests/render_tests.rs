use rust_rt::geom::{Point3, AABB};
use rust_rt::image::ImageBuffer;
use rust_rt::integrator::{shade, SurfaceHit};
use rust_rt::kernel::{ray_aabb_intersect, ray_sphere, Margin, Reach, Slab};
use rust_rt::octree::Octree;
use rust_rt::scene::{EntityType, Intersection, NaiveScene, SceneEntity};
use rust_rt::scheduler::{render_row, render_rows, write_rows, ScanlineProducer, WorkerResult};

fn key(value: f32) -> i32 {
    if value == 0.0 {
        return 0;
    }
    let bits = value.to_bits() as i32;
    if bits < 0 {
        bits ^ i32::MAX
    } else {
        bits
    }
}

fn value(key: i32) -> f32 {
    let bits = if key < 0 { key ^ i32::MAX } else { key };
    f32::from_bits(bits as u32)
}

const EPSILON: f32 = 9.99999997475243E-07;

#[derive(Clone, Copy, Debug, PartialEq)]
struct Ray {
    origin: glm::Vec3,
    direction: glm::Vec3,
}

#[derive(Clone, Copy)]
struct Sphere {
    center: glm::Vec3,
    radius: f32,
    shade: f32,
    mirror: bool,
    glass: bool,
}

impl Sphere {
    fn bounds(&self) -> AABB {
        let r = self.radius;
        AABB {
            min: Point3 { x: key(self.center.x - r), y: key(self.center.y - r), z: key(self.center.z - r) },
            max: Point3 { x: key(self.center.x + r), y: key(self.center.y + r), z: key(self.center.z + r) },
        }
    }

    fn record(&self, id: u32) -> SceneEntity {
        SceneEntity { id, kind: EntityType::Sphere, bounds: Some(self.bounds()), emissive: false }
    }

    /// The arithmetic of the sphere test; the library picks the root.
    fn hit(&self, ray: &Ray) -> Option<(u64, f32)> {
        let to_center = self.center - ray.origin;
        let tca = glm::dot(to_center, ray.direction);
        let d2 = glm::dot(to_center, to_center) - tca * tca;
        let squared_radius = self.radius * self.radius;
        let thc = (squared_radius - d2).sqrt();
        ray_sphere(key(d2), key(squared_radius), key(tca - thc), key(tca + thc), key(0.0))
            .map(|t| (value(t).to_bits() as u64, value(t)))
    }
}

/// The arithmetic of the slab method; the library decides.
fn crosses(ray: &Ray, bounds: AABB) -> bool {
    let min = [value(bounds.min.x), value(bounds.min.y), value(bounds.min.z)];
    let max = [value(bounds.max.x), value(bounds.max.y), value(bounds.max.z)];
    let slab = |d: usize| Slab {
        direction: key(ray.direction[d]),
        origin: key(ray.origin[d]),
        min: key(min[d]),
        max: key(max[d]),
        t1: key((min[d] - ray.origin[d]) / ray.direction[d]),
        t2: key((max[d] - ray.origin[d]) / ray.direction[d]),
    };
    let reach = Reach { near: key(f32::MIN_POSITIVE), far: key(f32::MAX), zero: key(0.0) };
    let margin = Margin { below: key(-EPSILON), above: key(EPSILON) };
    ray_aabb_intersect(&[slab(0), slab(1), slab(2)], &margin, &reach)
}

struct Lcg(u64);

impl Lcg {
    fn unit(&mut self) -> f32 {
        self.0 = self.0.wrapping_mul(6364136223846793005).wrapping_add(1442695040888963407);
        ((self.0 >> 40) as f32) / ((1u64 << 24) as f32)
    }

    fn between(&mut self, low: f32, high: f32) -> f32 {
        low + (high - low) * self.unit()
    }
}

fn random_spheres(rng: &mut Lcg, count: usize) -> Vec<Sphere> {
    (0..count)
        .map(|i| Sphere {
            center: glm::vec3(rng.between(-20.0, 20.0), rng.between(-20.0, 20.0), rng.between(-60.0, -10.0)),
            radius: rng.between(0.5, 4.0),
            shade: 0.1 + 0.01 * i as f32,
            mirror: i % 5 == 0,
            glass: i % 7 == 3,
        })
        .collect()
}

/// The middle of a box, where the index is to cut it.
fn middle(b: AABB) -> Point3 {
    Point3 {
        x: key((value(b.min.x) + value(b.max.x)) * 0.5),
        y: key((value(b.min.y) + value(b.max.y)) * 0.5),
        z: key((value(b.min.z) + value(b.max.z)) * 0.5),
    }
}

fn index_of(spheres: &[Sphere], depth_limit: usize) -> Octree {
    Octree::create_with(spheres.iter().enumerate().map(|(i, s)| s.record(i as u32)).collect(), depth_limit, 4, middle)
}

fn nearest(tree: &Octree, spheres: &[Sphere], ray: &Ray) -> Option<Intersection<f32>> {
    tree.find_intersection(|b| crosses(ray, b), |e| spheres[e].hit(ray))
}

#[test]
fn index_and_scan_agree_on_random_rays_through_random_spheres() {
    let mut rng = Lcg(2021);
    for round in 0..12 {
        let spheres = random_spheres(&mut rng, 5 + 17 * round);
        let tree = index_of(&spheres, 1 + round % 5);
        let mut scene = NaiveScene::new();
        for (i, s) in spheres.iter().enumerate() {
            scene.add(s.record(i as u32));
        }
        let mut hits = 0;
        for _ in 0..200 {
            let ray = Ray {
                origin: glm::vec3(rng.between(-5.0, 5.0), rng.between(-5.0, 5.0), rng.between(0.0, 5.0)),
                direction: glm::normalize(glm::vec3(rng.between(-0.6, 0.6), rng.between(-0.6, 0.6), -1.0)),
            };
            let indexed = nearest(&tree, &spheres, &ray);
            let scanned = scene.trace(|e| spheres[e].hit(&ray));
            match (indexed, scanned) {
                (Some(a), Some(b)) => {
                    hits += 1;
                    assert_eq!(a.distance, b.distance);
                    assert!((a.detail - b.detail).abs() < 1e-4);
                    assert_eq!(spheres[a.entity].hit(&ray).unwrap().0, a.distance);
                }
                (None, None) => {}
                _ => panic!("the index and the scan disagree on whether the ray hits"),
            }
        }
        assert!(hits > 0);
    }
}

/// What a ray meets, with the rays that leave the surface.
fn surface(tree: &Octree, spheres: &[Sphere], ray: Ray) -> Option<SurfaceHit<Ray, f32>> {
    nearest(tree, spheres, &ray).map(|hit| {
        let sphere = spheres[hit.entity];
        let point = ray.origin + ray.direction * hit.detail;
        let normal = glm::normalize(point - sphere.center);
        let outside = point + normal * 0.01;
        SurfaceHit {
            entity: hit.entity,
            transparent: sphere.glass,
            reflective: sphere.mirror,
            refracted: Ray { origin: point + ray.direction * (2.0 * sphere.radius + 0.01), direction: ray.direction },
            reflected: Ray { origin: outside, direction: glm::reflect(ray.direction, normal) },
            shadow: Ray { origin: outside, direction: glm::vec3(0.0, 1.0, 0.0) },
            material: sphere.shade,
        }
    })
}

fn colour(shade_of_surface: f32, _seen: bool, mirrored: f32) -> f32 {
    0.5 * shade_of_surface + 0.5 * mirrored
}

fn camera_ray(x: usize, y: usize, width: usize, height: usize) -> Ray {
    let u = (x as f32 + 0.5) / width as f32 - 0.5;
    let v = (y as f32 + 0.5) / height as f32 - 0.5;
    Ray { origin: glm::vec3(0.0, 0.0, 0.0), direction: glm::normalize(glm::vec3(u, v, -1.0)) }
}

#[test]
fn a_render_in_rows_equals_a_render_pixel_by_pixel() {
    let mut rng = Lcg(99);
    let spheres = random_spheres(&mut rng, 40);
    let tree = index_of(&spheres, 4);
    let (width, height) = (24usize, 16usize);
    let pixel = |x: usize, y: usize| {
        let gathered = shade(&|r| surface(&tree, &spheres, r), &colour, 0.0f32, None, camera_ray(x, y, width, height), 3);
        (gathered, gathered * 0.5, 1.0 - gathered)
    };

    let producer = ScanlineProducer::new(height);
    let mut batches = vec![Vec::new(), Vec::new(), Vec::new()];
    let workers = [producer.clone(), producer.clone(), producer.clone()];
    let mut turn = 0;
    loop {
        let worker = turn % 3;
        turn += 1;
        match workers[worker].next() {
            Some(row) => {
                batches[worker].push(WorkerResult { scanline_number: row, pixels: render_row(row, width, &pixel) })
            }
            None => break,
        }
    }
    assert!(render_rows(&producer, width, &pixel).is_empty());
    assert_eq!(batches.iter().map(|batch| batch.len()).sum::<usize>(), height);
    let samples = 2;
    let weight = 1.0 / samples as f32;
    let mut image = ImageBuffer::new(width, height, 0.0f32);
    for _ in 0..samples {
        for batch in batches.iter().rev() {
            write_rows(&mut image, batch, &|acc: f32, c: f32| acc + c * weight);
        }
    }

    let mut lit = 0;
    for y in 0..height {
        for x in 0..width {
            let expected = pixel(x, y);
            let found = image.pixel(x, y);
            assert!((found.0 - expected.0).abs() < 1e-6);
            assert!((found.1 - expected.1).abs() < 1e-6);
            assert!((found.2 - expected.2).abs() < 1e-6);
            if expected.0 > 0.0 {
                lit += 1;
            }
        }
    }
    assert!(lit > 0);
    let bytes = image.pixels_u8(|p: f32| (p * 255.0) as u8);
    assert_eq!(bytes.len(), width * height * 3);
    assert_eq!(bytes[0], (image.pixel(0, 0).0 * 255.0) as u8);
}

#[test]
fn cutting_in_the_middle_of_the_numbers_prunes_more_than_cutting_in_the_middle_of_the_keys() {
    let mut rng = Lcg(4242);
    let spheres: Vec<Sphere> = (0..200)
        .map(|_| Sphere {
            center: glm::vec3(rng.between(1.0, 100.0), rng.between(1.0, 100.0), rng.between(-100.0, -1.0)),
            radius: 0.5,
            shade: 0.5,
            mirror: false,
            glass: false,
        })
        .collect();
    let records: Vec<SceneEntity> = spheres.iter().enumerate().map(|(i, s)| s.record(i as u32)).collect();
    let by_numbers = Octree::create_with(records.clone(), 4, 4, middle);
    let by_keys = Octree::create(records, 4);
    let tested = std::cell::Cell::new(0usize);
    let mut counts = [0usize; 2];
    for (which, tree) in [&by_numbers, &by_keys].iter().enumerate() {
        tested.set(0);
        for i in 0..50 {
            let ray = Ray {
                origin: glm::vec3(50.0, 50.0, 0.0),
                direction: glm::normalize(glm::vec3(-0.5 + 0.02 * i as f32, 0.3, -1.0)),
            };
            let found = tree.find_intersection(
                |b| crosses(&ray, b),
                |e| {
                    tested.set(tested.get() + 1);
                    spheres[e].hit(&ray)
                },
            );
            let scanned = spheres.iter().filter_map(|s| s.hit(&ray)).map(|h| h.0).min();
            assert_eq!(found.map(|h| h.distance), scanned);
        }
        counts[which] = tested.get();
    }
    assert!(counts[0] < counts[1]);
}
