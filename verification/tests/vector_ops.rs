use raycast::vector::Vec3;

/// The fixed-point scalar that stands for `v`.
fn fx(v: f64) -> i64 {
    (v * 1_000_000.0).round() as i64
}

#[test]
fn add_vec3() {
    let v1 = Vec3::new(fx(1.0), fx(2.0), fx(3.0));
    let v2 = Vec3::new(fx(4.0), fx(5.0), fx(6.0));

    let result = v1 + v2;

    assert_eq!(result.x(), fx(5.0));
    assert_eq!(result.y(), fx(7.0));
    assert_eq!(result.z(), fx(9.0));
}

#[test]
fn sub_vec3() {
    let v1 = Vec3::new(fx(1.0), fx(2.0), fx(3.0));
    let v2 = Vec3::new(fx(4.0), fx(5.0), fx(6.0));

    let result = v1 - v2;

    assert_eq!(result.x(), fx(-3.0));
    assert_eq!(result.y(), fx(-3.0));
    assert_eq!(result.z(), fx(-3.0));
}

#[test]
fn mul_vec3() {
    let v1 = Vec3::new(fx(1.0), fx(2.0), fx(3.0));
    let v2 = Vec3::new(fx(4.0), fx(5.0), fx(6.0));

    let result = v1 * v2;

    assert_eq!(result.x(), fx(4.0));
    assert_eq!(result.y(), fx(10.0));
    assert_eq!(result.z(), fx(18.0));
}

#[test]
fn div_vec3() {
    let v1 = Vec3::new(fx(1.0), fx(2.0), fx(3.0));
    let v2 = fx(4.0);

    let result = v1 / v2;

    assert_eq!(result.x(), fx(0.25));
    assert_eq!(result.y(), fx(0.5));
    assert_eq!(result.z(), fx(0.75));
}

#[test]
fn neg_vec3() {
    let v = Vec3::new(fx(1.0), fx(2.0), fx(3.0));

    let result = -v;

    assert_eq!(result.x(), fx(-1.0));
    assert_eq!(result.y(), fx(-2.0));
    assert_eq!(result.z(), fx(-3.0));
}

#[test]
fn index_vec3() {
    let v = Vec3::new(fx(1.0), fx(2.0), fx(3.0));

    let result = v[0];

    assert_eq!(result, fx(1.0));
}

#[test]
fn index_reaches_every_component() {
    let v = Vec3::new(fx(1.0), fx(2.0), fx(3.0));
    assert_eq!(v[1], fx(2.0));
    assert_eq!(v[2], fx(3.0));
}

#[test]
fn index_mut_replaces_one_component() {
    let mut v = Vec3::new(fx(1.0), fx(2.0), fx(3.0));
    v[1] = fx(-7.5);
    assert_eq!(v.x(), fx(1.0));
    assert_eq!(v.y(), fx(-7.5));
    assert_eq!(v.z(), fx(3.0));
}

#[test]
fn add_assign_adds_in_place() {
    let mut v = Vec3::new(fx(1.0), fx(2.0), fx(3.0));
    v += Vec3::new(fx(0.5), fx(-2.0), fx(10.0));
    assert_eq!(v.x(), fx(1.5));
    assert_eq!(v.y(), 0);
    assert_eq!(v.z(), fx(13.0));
}

#[test]
fn scalar_times_vector() {
    let v = Vec3::new(fx(1.0), fx(-2.0), fx(3.0));
    let result = fx(0.5) * v;
    assert_eq!(result.x(), fx(0.5));
    assert_eq!(result.y(), fx(-1.0));
    assert_eq!(result.z(), fx(1.5));
}

#[test]
fn products_round_toward_zero() {
    // 0.000003 * 0.5 = 0.0000015, which has no sixth decimal.
    let v = Vec3::new(3, -3, 1);
    let result = fx(0.5) * v;
    assert_eq!(result.x(), 1);
    assert_eq!(result.y(), -1);
    assert_eq!(result.z(), 0);
}

#[test]
fn quotients_round_toward_zero() {
    let v = Vec3::new(fx(1.0), fx(-1.0), fx(2.0));
    let result = v / fx(3.0);
    assert_eq!(result.x(), 333_333);
    assert_eq!(result.y(), -333_333);
    assert_eq!(result.z(), 666_666);
}

#[test]
fn division_by_a_negative_scalar() {
    let v = Vec3::new(fx(1.0), fx(-1.0), fx(0.0));
    let result = v / fx(-3.0);
    assert_eq!(result.x(), -333_333);
    assert_eq!(result.y(), 333_333);
    assert_eq!(result.z(), 0);
}

#[test]
fn from_array_and_zero() {
    let v = Vec3::from_array(&[4, 5, 6]);
    assert_eq!((v.x(), v.y(), v.z()), (4, 5, 6));
    let z = Vec3::zero();
    assert_eq!((z.x(), z.y(), z.z()), (0, 0, 0));
}

#[test]
fn dot_product() {
    let a = Vec3::new(fx(1.0), fx(2.0), fx(3.0));
    let b = Vec3::new(fx(4.0), fx(-5.0), fx(6.0));
    assert_eq!(a.dot(&b), fx(12.0));
    assert_eq!(a.dot_exact(&b), 12_000_000_000_000);
}

#[test]
fn dot_product_rounds_once() {
    // Each product is 0.0000005; their sum, 0.0000015, rounds to 0.000001.
    let a = Vec3::new(1, 1, 1);
    let b = Vec3::new(fx(0.5), fx(0.5), fx(0.5));
    assert_eq!(a.dot(&b), 1);
}

#[test]
fn cross_product() {
    let x = Vec3::new(fx(1.0), 0, 0);
    let y = Vec3::new(0, fx(1.0), 0);
    let z = x.cross(y);
    assert_eq!((z.x(), z.y(), z.z()), (0, 0, fx(1.0)));
    let back = y.cross(x);
    assert_eq!((back.x(), back.y(), back.z()), (0, 0, fx(-1.0)));
    let a = Vec3::new(fx(1.0), fx(2.0), fx(3.0));
    let b = Vec3::new(fx(4.0), fx(5.0), fx(6.0));
    let c = a.cross(b);
    assert_eq!((c.x(), c.y(), c.z()), (fx(-3.0), fx(6.0), fx(-3.0)));
}

#[test]
fn length_and_squared_length() {
    let v = Vec3::new(fx(3.0), fx(4.0), 0);
    assert_eq!(v.length(), fx(5.0));
    assert_eq!(v.squared_length(), fx(25.0));
    // The square root is rounded down: sqrt(2) = 1.41421356...
    let d = Vec3::new(fx(1.0), fx(1.0), 0);
    assert_eq!(d.length(), 1_414_213);
    assert_eq!(Vec3::zero().length(), 0);
}

#[test]
fn normalize_gives_unit_length() {
    let v = Vec3::new(fx(3.0), fx(-4.0), 0);
    let n = v.normalize();
    assert_eq!((n.x(), n.y(), n.z()), (fx(0.6), fx(-0.8), 0));
    let z = Vec3::zero().normalize();
    assert_eq!((z.x(), z.y(), z.z()), (0, 0, 0));
}

#[test]
fn normalize_of_the_shortest_vectors() {
    // 1 / sqrt(2) = 0.70710678...; the root is rounded down, so the quotient
    // is rounded up at most.
    let n = Vec3::new(1, 1, 0).normalize();
    assert_eq!((n.x(), n.y(), n.z()), (707_107, 707_107, 0));
    let m = Vec3::new(0, 0, -1).normalize();
    assert_eq!((m.x(), m.y(), m.z()), (0, 0, -1_000_000));
    let k = Vec3::new(2, -1, 2).normalize();
    assert_eq!((k.x(), k.y(), k.z()), (666_666, -333_333, 666_666));
}

#[test]
fn normalize_of_the_longest_vectors() {
    let n = Vec3::new(i64::MAX, i64::MIN, 5).normalize();
    assert_eq!((n.x(), n.y(), n.z()), (707_106, -707_106, 0));
    let m = Vec3::new(i64::MIN, 0, 0).normalize();
    assert_eq!((m.x(), m.y(), m.z()), (-1_000_000, 0, 0));
}

#[test]
fn normalized_vectors_have_unit_length() {
    let one: i128 = 1_000_000_000_000;
    let samples = [
        (1, 1, 0),
        (1, 1, 1),
        (3, -4, 12),
        (4267, 100, -1_000_000),
        (-123_456_789, 987_654_321, 555),
        (1_000_000_000, -1_000_000_000, 1_000_000_000),
        (999_999_999_999, 1, -1),
        (1_000_000_000_000, 3, 0),
        (i64::MAX, i64::MAX, i64::MIN),
        (0, -7, i64::MAX),
    ];
    for (x, y, z) in samples {
        let n = Vec3::new(x, y, z).normalize();
        let squared = (n.x() as i128) * (n.x() as i128) + (n.y() as i128) * (n.y() as i128)
            + (n.z() as i128) * (n.z() as i128);
        assert!((squared - one).abs() <= 6_000_000, "{:?}: {}", (x, y, z), squared);
        assert!(n.x().abs() <= 1_000_000 && n.y().abs() <= 1_000_000 && n.z().abs() <= 1_000_000);
    }
}

#[test]
fn normalize_at_the_edge_of_the_range() {
    let v = Vec3::new(1_000_000_000, -1_000_000_000, 1_000_000_000);
    let n = v.normalize();
    // 1 / sqrt(3) = 0.57735026...
    assert_eq!((n.x(), n.y(), n.z()), (577_350, -577_350, 577_350));
}

#[test]
fn products_of_long_vectors() {
    // Two million whole units times three million.
    let a = Vec3::new(2_000_000_000_000, 0, -1);
    let b = Vec3::new(3_000_000_000_000, 5, 0);
    assert_eq!(a.dot_exact(&b), 6_000_000_000_000_000_000_000_000);
    assert_eq!(a.dot(&b), 6_000_000_000_000_000_000);
    let c = a.cross(b);
    assert_eq!((c.x(), c.y(), c.z()), (0, -3_000_000, 10_000_000));
    let long = Vec3::new(3_000_000_000_000_000_000, -4_000_000_000_000_000_000, 0);
    assert_eq!(long.length(), 5_000_000_000_000_000_000);
    assert_eq!(Vec3::new(3_000_000_000, 0, 0).squared_length(), 9_000_000_000_000);
}
