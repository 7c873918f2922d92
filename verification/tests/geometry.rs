use raycast::geometry::interval::Interval;
use raycast::geometry::sphere::Sphere;
use raycast::geometry::{HitRecord, Hittable, HittableList};
use raycast::ray::Ray;
use raycast::vector::{Point, Vec3};

const ONE: i64 = 1_000_000;

/// The fixed-point scalar that stands for `v`.
fn fx(v: f64) -> i64 {
    (v * 1_000_000.0).round() as i64
}

fn point(x: f64, y: f64, z: f64) -> Point {
    Point::new(fx(x), fx(y), fx(z))
}

fn whole() -> Interval {
    Interval::new(&(0..1000 * ONE))
}

/// The record that a miss must leave as it was.
fn marker() -> HitRecord {
    HitRecord { point: point(9.0, 9.0, 9.0), normal: point(8.0, 8.0, 8.0), hit_t: 77, front_face: true }
}

fn untouched(rec: &HitRecord) -> bool {
    let m = marker();
    (rec.point.x(), rec.point.y(), rec.point.z()) == (m.point.x(), m.point.y(), m.point.z())
        && (rec.normal.x(), rec.normal.y(), rec.normal.z())
            == (m.normal.x(), m.normal.y(), m.normal.z())
        && rec.hit_t == m.hit_t
        && rec.front_face == m.front_face
}

#[test]
fn ray_at_follows_the_direction() {
    let ray = Ray::new(point(1.0, 2.0, 3.0), point(0.5, -1.0, 2.0));
    let p = ray.at(fx(2.0));
    assert_eq!((p.x(), p.y(), p.z()), (fx(2.0), fx(0.0), fx(7.0)));
    let q = ray.at(fx(-0.5));
    assert_eq!((q.x(), q.y(), q.z()), (fx(0.75), fx(2.5), fx(2.0)));
    let o = ray.at(0);
    assert_eq!((o.x(), o.y(), o.z()), (fx(1.0), fx(2.0), fx(3.0)));
    assert_eq!(ray.origin().x(), fx(1.0));
    assert_eq!(ray.direction().y(), fx(-1.0));
}

#[test]
fn interval_keeps_its_bounds() {
    let iv = Interval::new(&(fx(0.5)..fx(7.0)));
    assert_eq!(iv.range.start, fx(0.5));
    assert_eq!(iv.range.end, fx(7.0));
}

#[test]
fn surrounds_means_strictly_inside() {
    let iv = Interval::new(&(fx(0.0)..fx(1.0)));
    assert!(iv.surrounds(&fx(0.5)));
    assert!(iv.surrounds(&1));
    assert!(iv.surrounds(&(fx(1.0) - 1)));
    assert!(!iv.surrounds(&fx(0.0)));
    assert!(!iv.surrounds(&fx(1.0)));
    assert!(!iv.surrounds(&fx(1.5)));
    assert!(!iv.surrounds(&fx(-0.5)));
    let extreme = Interval::new(&(i64::MIN..i64::MAX));
    assert!(!extreme.surrounds(&i64::MIN));
    assert!(!extreme.surrounds(&i64::MAX));
    assert!(extreme.surrounds(&0));
}

#[test]
fn empty_interval_surrounds_nothing() {
    for (start, end) in [(fx(3.0), fx(3.0)), (fx(5.0), fx(2.0)), (i64::MAX, i64::MIN)] {
        let iv = Interval::new(&(start..end));
        for value in [i64::MIN, fx(2.0), fx(3.0), fx(4.0), fx(5.0), i64::MAX] {
            assert!(!iv.surrounds(&value));
        }
    }
}

#[test]
fn head_on_ray_hits_at_distance_less_radius() {
    // From the distance d = 5 at a sphere of radius r = 2: roots d - r and d + r.
    let sphere = Sphere::new(point(0.0, 0.0, -5.0), fx(2.0));
    let ray = Ray::new(point(0.0, 0.0, 0.0), point(0.0, 0.0, -1.0));
    let mut rec = HitRecord::default();
    assert!(sphere.hit(&ray, &whole(), &mut rec));
    assert_eq!(rec.hit_t, fx(3.0));
    assert_eq!((rec.point.x(), rec.point.y(), rec.point.z()), (0, 0, fx(-3.0)));
    assert_eq!((rec.normal.x(), rec.normal.y(), rec.normal.z()), (0, 0, fx(1.0)));
    assert!(rec.front_face);
    assert_eq!(rec.get_normal().z(), fx(1.0));
    assert_eq!(rec.point().z(), fx(-3.0));
}

#[test]
fn far_root_is_taken_when_the_near_one_is_outside() {
    let sphere = Sphere::new(point(0.0, 0.0, -5.0), fx(2.0));
    let ray = Ray::new(point(0.0, 0.0, 0.0), point(0.0, 0.0, -1.0));
    let mut rec = HitRecord::default();
    // The near root, 3, is the lower bound itself, which is excluded.
    assert!(sphere.hit(&ray, &Interval::new(&(fx(3.0)..1000 * ONE)), &mut rec));
    assert_eq!(rec.hit_t, fx(7.0));
    assert_eq!((rec.point.x(), rec.point.y(), rec.point.z()), (0, 0, fx(-7.0)));
    // The ray leaves the sphere there: the outward normal points along it
    // and is turned around.
    assert!(!rec.front_face);
    assert_eq!((rec.normal.x(), rec.normal.y(), rec.normal.z()), (0, 0, fx(1.0)));
}

#[test]
fn head_on_ray_along_a_diagonal() {
    // A unit direction with rational components: (2, 3, 6) / 7.
    let ray = Ray::new(point(1.0, -2.0, 0.5), Vec3::new(285_714, 428_571, 857_143));
    let center = ray.at(fx(10.0));
    let sphere = Sphere::new(center, fx(4.0));
    let mut rec = HitRecord::default();
    assert!(sphere.hit(&ray, &whole(), &mut rec));
    assert!((rec.hit_t - fx(6.0)).abs() <= 20, "near root {}", rec.hit_t);
    assert!(sphere.hit(&ray, &Interval::new(&(fx(7.0)..1000 * ONE)), &mut rec));
    assert!((rec.hit_t - fx(14.0)).abs() <= 20, "far root {}", rec.hit_t);
}

#[test]
fn ray_passing_beyond_the_radius_misses() {
    let sphere = Sphere::new(point(0.0, 0.0, -5.0), fx(2.0));
    // Passes the center at distance 2.000001.
    let ray = Ray::new(Point::new(2_000_001, 0, 0), point(0.0, 0.0, -1.0));
    let mut rec = marker();
    assert!(!sphere.hit(&ray, &whole(), &mut rec));
    assert!(untouched(&rec));
    let steep = Ray::new(point(0.0, 0.0, 0.0), point(1.0, 0.0, -1.0));
    assert!(!sphere.hit(&steep, &whole(), &mut rec));
    assert!(untouched(&rec));
}

#[test]
fn tangent_ray_hits_once() {
    let sphere = Sphere::new(point(0.0, 0.0, -5.0), fx(2.0));
    let ray = Ray::new(point(2.0, 0.0, 0.0), point(0.0, 0.0, -1.0));
    let mut rec = HitRecord::default();
    assert!(sphere.hit(&ray, &whole(), &mut rec));
    assert_eq!(rec.hit_t, fx(5.0));
    assert_eq!((rec.point.x(), rec.point.y(), rec.point.z()), (fx(2.0), 0, fx(-5.0)));
    assert_eq!((rec.normal.x(), rec.normal.y(), rec.normal.z()), (fx(-1.0), 0, 0));
    // The ray runs across the outward normal, not against it.
    assert!(!rec.front_face);
    let mut other = marker();
    assert!(!sphere.hit(&ray, &Interval::new(&(fx(5.0)..1000 * ONE)), &mut other));
    assert!(untouched(&other));
}

#[test]
fn ray_from_inside_hits_the_back_face() {
    let sphere = Sphere::new(point(0.0, 0.0, 0.0), fx(2.0));
    let ray = Ray::new(point(0.0, 0.0, 0.0), point(0.0, 1.0, 0.0));
    let mut rec = HitRecord::default();
    assert!(sphere.hit(&ray, &whole(), &mut rec));
    assert_eq!(rec.hit_t, fx(2.0));
    assert!(!rec.front_face);
    assert_eq!((rec.normal.x(), rec.normal.y(), rec.normal.z()), (0, fx(-1.0), 0));
}

#[test]
fn bounds_of_the_interval_are_excluded() {
    let sphere = Sphere::new(point(0.0, 0.0, -5.0), fx(2.0));
    let ray = Ray::new(point(0.0, 0.0, 0.0), point(0.0, 0.0, -1.0));
    let mut rec = marker();
    // Roots at 3 and 7.
    assert!(!sphere.hit(&ray, &Interval::new(&(fx(3.0)..fx(7.0))), &mut rec));
    assert!(untouched(&rec));
    assert!(sphere.hit(&ray, &Interval::new(&(fx(3.0)..fx(7.0) + 1)), &mut rec));
    assert_eq!(rec.hit_t, fx(7.0));
    assert!(sphere.hit(&ray, &Interval::new(&(fx(3.0) - 1..fx(7.0))), &mut rec));
    assert_eq!(rec.hit_t, fx(3.0));
}

#[test]
fn empty_and_inverted_intervals_miss() {
    let sphere = Sphere::new(point(0.0, 0.0, -5.0), fx(2.0));
    let ray = Ray::new(point(0.0, 0.0, 0.0), point(0.0, 0.0, -1.0));
    let mut rec = marker();
    assert!(!sphere.hit(&ray, &Interval::new(&(fx(3.0)..fx(3.0))), &mut rec));
    assert!(!sphere.hit(&ray, &Interval::new(&(fx(10.0)..fx(1.0))), &mut rec));
    assert!(!sphere.hit(&ray, &Interval::new(&(i64::MAX..i64::MIN)), &mut rec));
    assert!(untouched(&rec));
    let mut world = HittableList::new();
    world.add(Box::new(sphere));
    assert!(!world.hit(&ray, &Interval::new(&(fx(10.0)..fx(1.0))), &mut rec));
    assert!(untouched(&rec));
}

#[test]
fn degenerate_sphere_and_ray_miss() {
    let ray = Ray::new(point(0.0, 0.0, 0.0), point(0.0, 0.0, -1.0));
    let mut rec = marker();
    let flat = Sphere::new(point(0.0, 0.0, -5.0), 0);
    assert!(!flat.hit(&ray, &whole(), &mut rec));
    let inverse = Sphere::new(point(0.0, 0.0, -5.0), fx(-2.0));
    assert!(!inverse.hit(&ray, &whole(), &mut rec));
    let sphere = Sphere::new(point(0.0, 0.0, 0.0), fx(2.0));
    let still = Ray::new(point(0.0, 0.0, 0.0), point(0.0, 0.0, 0.0));
    assert!(!sphere.hit(&still, &whole(), &mut rec));
    assert!(untouched(&rec));
}

#[test]
fn hit_at_the_edge_of_the_range() {
    let sphere = Sphere::new(Point::new(1_000_000_000, 1_000_000_000, 1_000_000_000), 1_000_000_000);
    let ray = Ray::new(
        Point::new(-1_000_000_000, -1_000_000_000, -1_000_000_000),
        Vec3::new(1_000_000_000, 1_000_000_000, 1_000_000_000),
    );
    let mut rec = HitRecord::default();
    assert!(sphere.hit(&ray, &Interval::new(&(i64::MIN..i64::MAX)), &mut rec));
    // The center is at parameter 2; the radius is 1 / sqrt(3) of the direction.
    assert_eq!(rec.hit_t, 1_422_649);
    assert!(rec.front_face);
    // 2 - 1 / sqrt(3) = 1.42264973..., and the point has all of it.
    assert_eq!(
        (rec.point.x(), rec.point.y(), rec.point.z()),
        (422_649_730, 422_649_730, 422_649_730)
    );
    assert_eq!(
        (rec.normal.x(), rec.normal.y(), rec.normal.z()),
        (-577_350, -577_350, -577_350)
    );
}

/// Whether the squared length of `n` is one within six millionths.
fn is_unit(n: &Vec3) -> bool {
    let squared = n.dot_exact(n);
    let unit = (ONE as i128) * (ONE as i128);
    (squared - unit).abs() <= 6_000_000
}

#[test]
fn normal_has_unit_length_and_faces_the_ray() {
    let sphere = Sphere::new(point(0.3, -0.2, -4.0), fx(1.5));
    let origin = point(0.0, 0.0, 0.0);
    let expected = [
        (-199_999, 133_333, 970_681),
        (-30_881, 217_892, 975_484),
        (-584_740, 325_703, 742_964),
        (332_917, -310_764, 890_276),
        (260_437, 501_683, 824_915),
    ];
    let directions = [(0.0, 0.0), (0.1, 0.05), (-0.2, 0.1), (0.3, -0.25), (0.25, 0.2)];
    for k in 0..5 {
        let (dx, dy) = directions[k];
        let ray = Ray::new(origin, point(dx, dy, -1.0));
        let mut rec = HitRecord::default();
        assert!(sphere.hit(&ray, &whole(), &mut rec));
        let n = rec.normal;
        assert_eq!((n.x(), n.y(), n.z()), expected[k]);
        assert!(is_unit(&n), "squared length {}", n.dot_exact(&n));
        let outward = rec.point - sphere.center;
        let against = ray.direction().dot_exact(&outward) < 0;
        assert_eq!(rec.front_face, against);
        assert!(ray.direction().dot_exact(&n) <= 0);
    }
}

#[test]
fn recorded_point_lies_on_the_sphere() {
    let cases = [
        (point(0.3, -0.2, -4.0), fx(1.5), point(0.1, 0.05, -1.0)),
        (point(0.0, 0.0, -1.0), fx(0.5), Point::new(4267, 100, -ONE)),
        (point(0.0, -100.5, -1.0), fx(100.0), point(0.2, -0.7, -1.0)),
        (point(3.0, 0.0, -4.0), fx(2.0), Vec3::new(600 * ONE, 0, -800 * ONE)),
        (point(3.0, 0.0, -4.0), fx(2.0), Vec3::new(6, 0, -8)),
    ];
    for (center, radius, direction) in cases {
        let sphere = Sphere::new(center, radius);
        let ray = Ray::new(point(0.0, 0.0, 0.0), direction);
        let mut rec = HitRecord::default();
        assert!(sphere.hit(&ray, &Interval::new(&(0..i64::MAX)), &mut rec));
        let offset = rec.point - center;
        let squared = offset.dot_exact(&offset);
        let r = radius as i128;
        assert!(r * r - 8 * r <= squared && squared <= r * r + 6 * r + 3, "squared {}", squared);
        assert!(is_unit(&rec.normal));
    }
}

#[test]
fn smallest_sphere_has_a_unit_normal() {
    let sphere = Sphere::new(point(3.0, 0.0, -4.0), 1);
    let ray = Ray::new(point(0.0, 0.0, 0.0), point(0.6, 0.0, -0.8));
    let mut rec = HitRecord::default();
    assert!(sphere.hit(&ray, &whole(), &mut rec));
    assert_eq!(rec.hit_t, 4_999_999);
    assert_eq!((rec.point.x(), rec.point.y(), rec.point.z()), (2_999_999, 0, -3_999_999));
    assert_eq!((rec.normal.x(), rec.normal.y(), rec.normal.z()), (-600_000, 0, 800_000));
    assert!(rec.front_face);
    assert!(is_unit(&rec.normal));
}

#[test]
fn point_is_taken_at_the_root_itself() {
    // The root is 0.4999995; the recorded parameter has six decimals of it,
    // the point all of it, whatever the length of the direction.
    let sphere = Sphere::new(point(0.0, 0.0, -500.0), fx(0.0005));
    let ray = Ray::new(point(0.0, 0.0, 0.0), point(0.0, 0.0, -1000.0));
    let mut rec = HitRecord::default();
    assert!(sphere.hit(&ray, &whole(), &mut rec));
    assert_eq!(rec.hit_t, 499_999);
    assert_eq!((rec.point.x(), rec.point.y(), rec.point.z()), (0, 0, -499_999_500));
    assert_eq!((rec.normal.x(), rec.normal.y(), rec.normal.z()), (0, 0, ONE));
}

#[test]
fn empty_scene_always_misses() {
    let world = HittableList::new();
    let mut rec = marker();
    for direction in [point(0.0, 0.0, -1.0), point(1.0, 2.0, 3.0), point(-5.0, 0.1, 0.0)] {
        let ray = Ray::new(point(0.5, 0.5, 0.5), direction);
        assert!(!world.hit(&ray, &whole(), &mut rec));
        assert!(!world.hit(&ray, &Interval::new(&(i64::MIN..i64::MAX)), &mut rec));
        assert!(untouched(&rec));
    }
}

fn spheres() -> Vec<Sphere> {
    vec![
        Sphere::new(point(0.0, 0.0, -9.0), fx(1.0)),
        Sphere::new(point(0.0, 0.0, -3.0), fx(1.0)),
        Sphere::new(point(0.0, 0.0, -6.0), fx(1.0)),
        Sphere::new(point(5.0, 5.0, -6.0), fx(1.0)),
    ]
}

fn nearest_in_order(order: &[usize], ray: &Ray, interval: &Interval) -> Option<HitRecord> {
    let mut world = HittableList::new();
    for k in order {
        let s = &spheres()[*k];
        world.add(Box::new(Sphere::new(s.center, s.radius)));
    }
    let mut rec = HitRecord::default();
    if world.hit(ray, interval, &mut rec) {
        Some(rec)
    } else {
        None
    }
}

#[test]
fn nearest_hit_does_not_depend_on_insertion_order() {
    let ray = Ray::new(point(0.0, 0.0, 0.0), point(0.0, 0.0, -1.0));
    let orders: [[usize; 4]; 6] =
        [[0, 1, 2, 3], [3, 2, 1, 0], [1, 0, 3, 2], [2, 3, 0, 1], [1, 2, 3, 0], [0, 3, 1, 2]];
    for order in orders {
        let rec = nearest_in_order(&order, &ray, &whole()).unwrap();
        assert_eq!(rec.hit_t, fx(2.0));
        assert_eq!((rec.point.x(), rec.point.y(), rec.point.z()), (0, 0, fx(-2.0)));
        assert_eq!((rec.normal.x(), rec.normal.y(), rec.normal.z()), (0, 0, fx(1.0)));
        assert!(rec.front_face);
        // Starting behind the first sphere, the second is the nearest.
        let later = nearest_in_order(&order, &ray, &Interval::new(&(fx(4.5)..1000 * ONE)));
        assert_eq!(later.unwrap().hit_t, fx(5.0));
        let none = nearest_in_order(&order, &ray, &Interval::new(&(fx(10.0)..1000 * ONE)));
        assert!(none.is_none());
    }
}

#[test]
fn closer_thing_added_later_replaces_the_earlier_hit() {
    let ray = Ray::new(point(0.0, 0.0, 0.0), point(0.0, 0.0, -1.0));
    let far_then_near = nearest_in_order(&[0, 2, 1], &ray, &whole()).unwrap();
    assert_eq!(far_then_near.hit_t, fx(2.0));
    let near_then_far = nearest_in_order(&[1, 2, 0], &ray, &whole()).unwrap();
    assert_eq!(near_then_far.hit_t, fx(2.0));
}

#[test]
fn of_two_crossings_at_one_parameter_the_first_added_wins() {
    // Both spheres pass through (0, 0, -1); the ray meets the second one
    // tangentially there.
    let ahead = Sphere::new(point(0.0, 0.0, -2.0), fx(1.0));
    let beside = Sphere::new(point(1.0, 0.0, -1.0), fx(1.0));
    let ray = Ray::new(point(0.0, 0.0, 0.0), point(0.0, 0.0, -1.0));
    let mut world = HittableList::new();
    world.add(Box::new(Sphere::new(ahead.center, ahead.radius)));
    world.add(Box::new(Sphere::new(beside.center, beside.radius)));
    let mut rec = HitRecord::default();
    assert!(world.hit(&ray, &whole(), &mut rec));
    assert_eq!(rec.hit_t, fx(1.0));
    assert_eq!((rec.normal.x(), rec.normal.y(), rec.normal.z()), (0, 0, fx(1.0)));
    let mut turned = HittableList::new();
    turned.add(Box::new(beside));
    turned.add(Box::new(ahead));
    assert!(turned.hit(&ray, &whole(), &mut rec));
    assert_eq!(rec.hit_t, fx(1.0));
    assert_eq!((rec.normal.x(), rec.normal.y(), rec.normal.z()), (fx(1.0), 0, 0));
}

#[test]
fn next_takes_the_last_thing_out() {
    let ray = Ray::new(point(0.0, 0.0, 0.0), point(0.0, 0.0, -1.0));
    let mut world = HittableList::new();
    assert!(world.next().is_none());
    world.add(Box::new(Sphere::new(point(0.0, 0.0, -3.0), fx(1.0))));
    world.add(Box::new(Sphere::new(point(0.0, 0.0, -9.0), fx(1.0))));
    let mut rec = HitRecord::default();
    let last = world.next().unwrap();
    assert!(last.hit(&ray, &whole(), &mut rec));
    assert_eq!(rec.hit_t, fx(8.0));
    let first = world.next().unwrap();
    assert!(first.hit(&ray, &whole(), &mut rec));
    assert_eq!(rec.hit_t, fx(2.0));
    assert!(world.next().is_none());
    assert!(!world.hit(&ray, &whole(), &mut rec));
}

#[test]
fn set_face_normal_turns_the_normal_against_the_ray() {
    let ray = Ray::new(point(0.0, 0.0, 0.0), point(0.0, 0.0, -1.0));
    let mut rec = marker();
    rec.set_face_normal(&ray, &point(0.0, 0.6, 0.8));
    assert!(rec.front_face);
    assert_eq!((rec.normal.x(), rec.normal.y(), rec.normal.z()), (0, fx(0.6), fx(0.8)));
    rec.set_face_normal(&ray, &point(0.0, 0.6, -0.8));
    assert!(!rec.front_face);
    assert_eq!((rec.normal.x(), rec.normal.y(), rec.normal.z()), (0, fx(-0.6), fx(0.8)));
    rec.set_face_normal(&ray, &point(1.0, 0.0, 0.0));
    assert!(!rec.front_face);
    assert_eq!((rec.normal.x(), rec.normal.y(), rec.normal.z()), (fx(-1.0), 0, 0));
    assert_eq!(rec.hit_t, 77);
    assert_eq!(rec.point.x(), fx(9.0));
}

#[test]
fn default_record_is_zero() {
    let rec = HitRecord::default();
    assert_eq!((rec.point.x(), rec.point.y(), rec.point.z()), (0, 0, 0));
    assert_eq!((rec.normal.x(), rec.normal.y(), rec.normal.z()), (0, 0, 0));
    assert_eq!(rec.hit_t, 0);
    assert!(!rec.front_face);
}

#[test]
fn range_of_the_intersection_test() {
    let limit = 1000 * ONE;
    assert!(Vec3::new(limit, -limit, 0).is_in_limit());
    assert!(!Vec3::new(limit + 1, 0, 0).is_in_limit());
    assert!(!Vec3::new(0, -limit - 1, 0).is_in_limit());
    assert!(!Vec3::new(0, 0, i64::MIN).is_in_limit());
    assert!(Ray::new(point(1.0, 2.0, 3.0), Vec3::new(0, 0, -limit)).is_in_limit());
    assert!(!Ray::new(Point::new(limit + 1, 0, 0), point(0.0, 0.0, -1.0)).is_in_limit());
    assert!(!Ray::new(point(0.0, 0.0, 0.0), Vec3::new(0, i64::MAX, 0)).is_in_limit());
    assert!(Sphere::new(Point::new(limit, limit, limit), limit).is_valid());
    assert!(Sphere::new(point(0.0, 0.0, 0.0), -limit).is_valid());
    assert!(!Sphere::new(point(0.0, 0.0, 0.0), limit + 1).is_valid());
    assert!(!Sphere::new(Point::new(0, 0, limit + 1), ONE).is_valid());
}
