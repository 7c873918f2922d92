//! The sphere, and the test that intersects it with a ray.
use vstd::prelude::*;
use crate::fixed::{abs, fits_i64, fmul, in_limit, int_sqrt, is_root, isqrt, quot, quot_wide,
    LIMIT, SCALE};
use crate::fixed::{lemma_isqrt, lemma_quot_bounds, lemma_quot_exact, lemma_quot_monotone};
use crate::geometry::interval::Interval;
use crate::geometry::nearest::{inside, is_nearest, lemma_nearest, nearest};
use crate::geometry::{facing, lemma_facing_keeps_length, HitRecord, HitView, Hittable};
use crate::ray::{Ray, RayView};
use crate::vector::{lemma_dot_exact_bound, lemma_normalized_unit, lemma_product_bound,
    unit_vector, Point, Vec3, V3};

verus! {

/// The set of points at distance `radius` from `center`.
pub struct Sphere {
    /// The center.
    pub center: Point,
    /// The radius. A sphere whose radius is not positive is never hit.
    pub radius: i64,
}

impl Sphere {
    /// The vector from the origin of `ray` to the center.
    pub open spec fn to_center(&self, ray: RayView) -> V3 {
        self.center@.minus(ray.origin)
    }

    /// The squared length of the direction of `ray`: the leading coefficient
    /// of the quadratic in the parameter.
    pub open spec fn quad_a(ray: RayView) -> int {
        ray.direction.dot_exact(ray.direction)
    }

    /// Half the linear coefficient of the quadratic, negated.
    pub open spec fn quad_h(&self, ray: RayView) -> int {
        self.to_center(ray).dot_exact(ray.direction)
    }

    /// The constant coefficient of the quadratic.
    pub open spec fn quad_c(&self, ray: RayView) -> int {
        self.to_center(ray).dot_exact(self.to_center(ray)) - self.radius * self.radius
    }

    /// A quarter of the discriminant of the quadratic.
    pub open spec fn discriminant(&self, ray: RayView) -> int {
        self.quad_h(ray) * self.quad_h(ray) - Self::quad_a(ray) * self.quad_c(ray)
    }

    /// The line of `ray` meets the sphere: the radius is positive, the
    /// direction is not zero and the quadratic has real roots.
    pub open spec fn meets(&self, ray: RayView) -> bool {
        self.radius > 0 && Self::quad_a(ray) > 0 && self.discriminant(ray) >= 0
    }

    /// The numerator of the smaller root: the root itself is this number
    /// over [`Self::quad_a`].
    pub open spec fn near_numerator(&self, ray: RayView) -> int {
        self.quad_h(ray) - isqrt(self.discriminant(ray))
    }

    /// The numerator of the larger root.
    pub open spec fn far_numerator(&self, ray: RayView) -> int {
        self.quad_h(ray) + isqrt(self.discriminant(ray))
    }

    /// The smaller root of the quadratic, as a fixed-point parameter.
    pub open spec fn near_root(&self, ray: RayView) -> int {
        quot(self.near_numerator(ray) * SCALE, Self::quad_a(ray))
    }

    /// The larger root of the quadratic, as a fixed-point parameter.
    pub open spec fn far_root(&self, ray: RayView) -> int {
        quot(self.far_numerator(ray) * SCALE, Self::quad_a(ray))
    }

    /// [`Self::quad_a`] times the exact vector from the center to the
    /// crossing at the root of numerator `n`. It points along the outward
    /// normal there.
    pub open spec fn root_offset(&self, ray: RayView, n: int) -> V3 {
        let a = Self::quad_a(ray);
        let oc = self.to_center(ray);
        V3 {
            x: n * ray.direction.x - a * oc.x,
            y: n * ray.direction.y - a * oc.y,
            z: n * ray.direction.z - a * oc.z,
        }
    }

    /// The unit normal that points away from the center at the crossing of
    /// numerator `n`.
    pub open spec fn outward_normal(&self, ray: RayView, n: int) -> V3 {
        self.root_offset(ray, n).normalized()
    }

    /// What is recorded of the crossing at the root of numerator `n`: the
    /// point of the ray at the root itself, the root rounded to a fixed-point
    /// parameter, and the unit normal turned against the ray.
    pub open spec fn crossing(&self, ray: RayView, n: int) -> HitView {
        let outward = self.outward_normal(ray, n);
        HitView {
            point: ray.at_ratio(n, Self::quad_a(ray)),
            normal: facing(ray.direction, outward),
            t: quot(n * SCALE, Self::quad_a(ray)),
            front_face: ray.direction.dot_exact(outward) < 0,
        }
    }

    /// Whether center and radius lie within the accepted range.
    pub fn is_valid(&self) -> (b: bool)
        ensures
            b == self.valid(),
    {
        self.center.is_in_limit() && -LIMIT <= self.radius && self.radius <= LIMIT
    }

    /// The sphere around `center` with the given radius.
    pub fn new(center: Point, radius: i64) -> (s: Sphere)
        ensures
            s.center == center,
            s.radius == radius,
    {
        Sphere { center, radius }
    }
}

impl Hittable for Sphere {
    open spec fn valid(&self) -> bool {
        self.center.in_limit() && in_limit(self.radius as int)
    }

    open spec fn crossings(&self, ray: RayView) -> Seq<HitView> {
        if self.meets(ray) {
            seq![
                self.crossing(ray, self.near_numerator(ray)),
                self.crossing(ray, self.far_numerator(ray)),
            ]
        } else {
            Seq::empty()
        }
    }

    fn hit(&self, ray: &Ray, t_range: &Interval, hit_record: &mut HitRecord) -> (found: bool)
        ensures
            found ==> on_surface(
                final(hit_record).point@.minus(self.center@),
                self.radius as int,
            ),
    {
        proof {
            lemma_sphere_nearest(*self, ray@, t_range.lo(), t_range.hi());
        }
        if self.radius <= 0 {
            return false;
        }
        let oc: Vec3 = self.center - ray.origin();
        proof {
            lemma_coefficient_bounds(*self, ray@);
        }
        let a: i128 = ray.direction().dot_exact(&ray.direction());
        let h: i128 = oc.dot_exact(&ray.direction());
        let c: i128 = oc.dot_exact(&oc) - (self.radius as i128) * (self.radius as i128);
        if a == 0 {
            return false;
        }
        let discriminant: i128 = h * h - a * c;
        if discriminant < 0 {
            return false;
        }
        let sqrtd: i128 = int_sqrt(discriminant as u128) as i128;
        let unit: i128 = SCALE as i128;
        let lo: i128 = t_range.range.start as i128;
        let hi: i128 = t_range.range.end as i128;
        proof {
            lemma_root_bound(sqrtd as int, discriminant as int);
        }

        let mut numerator: i128 = h - sqrtd;
        let mut root: i128 = quot_wide(numerator * unit, a);
        if root <= lo || hi <= root {
            numerator = h + sqrtd;
            root = quot_wide(numerator * unit, a);
            if root <= lo || hi <= root {
                return false;
            }
        }
        proof {
            lemma_crossing_bounds(*self, ray@, numerator as int);
            lemma_facing_keeps_length(ray.direction@, self.outward_normal(ray@, numerator as int));
            let d = ray.direction@;
            let w = self.root_offset(ray@, numerator as int);
            lemma_product_bound(numerator as int, d.x, 16_000_000_000_000_000_000, LIMIT as int);
            lemma_product_bound(numerator as int, d.y, 16_000_000_000_000_000_000, LIMIT as int);
            lemma_product_bound(numerator as int, d.z, 16_000_000_000_000_000_000, LIMIT as int);
            lemma_product_bound(a as int, oc.x as int, 3_000_000_000_000_000_000, 2 * LIMIT);
            lemma_product_bound(a as int, oc.y as int, 3_000_000_000_000_000_000, 2 * LIMIT);
            lemma_product_bound(a as int, oc.z as int, 3_000_000_000_000_000_000, 2 * LIMIT);
        }
        hit_record.hit_t = root as i64;
        hit_record.point = Point::new(
            along(ray.origin.x, numerator, ray.direction.x, a),
            along(ray.origin.y, numerator, ray.direction.y, a),
            along(ray.origin.z, numerator, ray.direction.z, a),
        );
        let outward_normal = unit_vector(
            numerator * (ray.direction.x as i128) - a * (oc.x as i128),
            numerator * (ray.direction.y as i128) - a * (oc.y as i128),
            numerator * (ray.direction.z as i128) - a * (oc.z as i128),
        );
        hit_record.set_face_normal(ray, &outward_normal);

        return true;
    }
}

/// One coordinate of the point of a ray at the parameter `n / a`.
fn along(o: i64, n: i128, d: i64, a: i128) -> (r: i64)
    requires
        a > 0,
        abs(n as int) <= 16_000_000_000_000_000_000,
        in_limit(d as int),
        fits_i64(o + quot(n * d, a as int)),
    ensures
        r == o + quot(n * d, a as int),
{
    proof {
        lemma_product_bound(n as int, d as int, 16_000_000_000_000_000_000, LIMIT as int);
        lemma_quot_bounds(n * d, a as int);
    }
    let step: i128 = quot_wide(n * (d as i128), a);
    ((o as i128) + step) as i64
}

/// The floor square root of a quarter discriminant is below `2^63.2`.
proof fn lemma_root_bound(s: int, disc: int)
    requires
        is_root(disc, s),
        disc <= 75_000_000_000_000_000_000_000_000_000_000_000_000,
    ensures
        s <= 9_000_000_000_000_000_000,
{
    if s > 9_000_000_000_000_000_000 {
        assert(s * s > 75_000_000_000_000_000_000_000_000_000_000_000_000) by (nonlinear_arith)
            requires
                s >= 9_000_000_000_000_000_001,
        ;
    }
}

/// The coefficients of the quadratic stay far inside `i128` for a sphere and
/// a ray within the accepted range.
pub proof fn lemma_coefficient_bounds(sphere: Sphere, ray: RayView)
    requires
        sphere.valid(),
        ray.origin.within(LIMIT as int),
        ray.direction.within(LIMIT as int),
    ensures
        sphere.to_center(ray).within(2 * LIMIT),
        0 <= Sphere::quad_a(ray) <= 3_000_000_000_000_000_000,
        abs(sphere.quad_h(ray)) <= 6_000_000_000_000_000_000,
        -1_000_000_000_000_000_000 <= sphere.quad_c(ray) <= 12_000_000_000_000_000_000,
        abs(sphere.quad_h(ray) * sphere.quad_h(ray))
            <= 36_000_000_000_000_000_000_000_000_000_000_000_000,
        abs(Sphere::quad_a(ray) * sphere.quad_c(ray))
            <= 36_000_000_000_000_000_000_000_000_000_000_000_000,
        sphere.radius * sphere.radius <= 1_000_000_000_000_000_000,
{
    let l = LIMIT as int;
    let oc = sphere.to_center(ray);
    let d = ray.direction;
    lemma_dot_exact_bound(d, d, l, l);
    lemma_dot_exact_bound(oc, d, 2 * l, l);
    lemma_dot_exact_bound(oc, oc, 2 * l, 2 * l);
    lemma_product_bound(sphere.radius as int, sphere.radius as int, l, l);
    assert(l * l == 1_000_000_000_000_000_000) by (nonlinear_arith)
        requires
            l == 1_000_000_000,
    ;
    assert((2 * l) * l == 2 * (l * l) && (2 * l) * (2 * l) == 4 * (l * l)) by (nonlinear_arith);
    assert(d.x * d.x >= 0 && d.y * d.y >= 0 && d.z * d.z >= 0) by (nonlinear_arith);
    assert(oc.x * oc.x >= 0 && oc.y * oc.y >= 0 && oc.z * oc.z >= 0) by (nonlinear_arith);
    assert(sphere.radius * sphere.radius >= 0) by (nonlinear_arith);
    let a = Sphere::quad_a(ray);
    let h = sphere.quad_h(ray);
    let c = sphere.quad_c(ray);
    lemma_product_bound(h, h, 6 * (l * l), 6 * (l * l));
    lemma_product_bound(a, c, 3 * (l * l), 12 * (l * l));
    assert((6 * (l * l)) * (6 * (l * l)) == 36_000_000_000_000_000_000_000_000_000_000_000_000)
        by (nonlinear_arith)
        requires
            l * l == 1_000_000_000_000_000_000,
    ;
    assert((3 * (l * l)) * (12 * (l * l)) == 36_000_000_000_000_000_000_000_000_000_000_000_000)
        by (nonlinear_arith)
        requires
            l * l == 1_000_000_000_000_000_000,
    ;
}

/// The crossing at a root of the quadratic, `n` being the numerator of the
/// root: the recorded point lies on the sphere up to the rounding of its
/// coordinates, and the outward normal has length one.
pub proof fn lemma_crossing_bounds(sphere: Sphere, ray: RayView, n: int)
    requires
        sphere.valid(),
        ray.origin.within(LIMIT as int),
        ray.direction.within(LIMIT as int),
        sphere.meets(ray),
        n == sphere.near_numerator(ray) || n == sphere.far_numerator(ray),
    ensures
        sphere.crossing(ray, n).point.minus(sphere.center@).within(sphere.radius as int),
        sphere.crossing(ray, n).point.within(2 * LIMIT),
        on_surface(sphere.crossing(ray, n).point.minus(sphere.center@), sphere.radius as int),
        !sphere.root_offset(ray, n).is_zero(),
        sphere.outward_normal(ray, n).is_unit(),
        sphere.outward_normal(ray, n).within(SCALE as int),
{
    let a = Sphere::quad_a(ray);
    let h = sphere.quad_h(ray);
    let r = sphere.radius as int;
    let d = ray.direction;
    let oc = sphere.to_center(ray);
    let disc = sphere.discriminant(ray);
    let s = isqrt(disc);
    lemma_isqrt(disc);
    assert((n - h) * (n - h) == s * s) by (nonlinear_arith)
        requires
            n == h - s || n == h + s,
    ;
    let w = sphere.root_offset(ray, n);
    lemma_chord_inside(d, oc, r, s, n);
    lemma_offset_not_zero(d, oc, r, s, n);
    lemma_normalized_unit(w);
    lemma_cauchy_schwarz(oc, d);
    assert(s <= a * r) by {
        let ar = a * r;
        assert(disc <= a * (r * r)) by (nonlinear_arith)
            requires
                disc == h * h - a * (oc.dot_exact(oc) - r * r),
                h * h <= oc.dot_exact(oc) * a,
        ;
        assert(a * (r * r) <= ar * ar) by (nonlinear_arith)
            requires
                ar == a * r,
                a >= 1,
        {
            assert(ar * ar == a * (a * (r * r)));
            assert(r * r >= 0);
        }
        assert(ar >= 0) by (nonlinear_arith)
            requires
                ar == a * r,
                a > 0,
                r > 0,
        ;
        lemma_square_le(s, ar);
    }
    let e = sphere.crossing(ray, n).point.minus(sphere.center@);
    lemma_rounded_offset(a, r, n, d.x, oc.x);
    lemma_rounded_offset(a, r, n, d.y, oc.y);
    lemma_rounded_offset(a, r, n, d.z, oc.z);
    assert(e.x == quot(n * d.x, a) - oc.x);
    assert(e.y == quot(n * d.y, a) - oc.y);
    assert(e.z == quot(n * d.z, a) - oc.z);
    lemma_distance(a, r, s, w, e);
}

/// The offset `offset` of a point from the center of a sphere of radius `r`
/// puts the point on the sphere, up to the rounding of the coordinates to
/// millionths: the squared distance differs from the squared radius by no
/// more than a few radii.
pub open spec fn on_surface(offset: V3, r: int) -> bool {
    r * r - 8 * r <= offset.dot_exact(offset) <= r * r + 6 * r + 3
}

/// The nearest crossing of a sphere inside `(lo, hi)`: the near root where
/// it lies inside, else the far root where that does, else none.
pub proof fn lemma_sphere_nearest(sphere: Sphere, ray: RayView, lo: int, hi: int)
    ensures
        nearest(sphere.crossings(ray), lo, hi) == if !sphere.meets(ray) {
            None
        } else if lo < sphere.near_root(ray) < hi {
            Some(sphere.crossing(ray, sphere.near_numerator(ray)))
        } else if lo < sphere.far_root(ray) < hi {
            Some(sphere.crossing(ray, sphere.far_numerator(ray)))
        } else {
            None
        },
{
    let cs = sphere.crossings(ray);
    lemma_nearest(cs, lo, hi);
    if sphere.meets(ray) {
        let a = Sphere::quad_a(ray);
        let h = sphere.quad_h(ray);
        lemma_isqrt(sphere.discriminant(ray));
        let s = isqrt(sphere.discriminant(ray));
        assert((h - s) * SCALE <= (h + s) * SCALE) by (nonlinear_arith)
            requires
                s >= 0,
                SCALE > 0,
        ;
        lemma_quot_monotone((h - s) * SCALE, (h + s) * SCALE, a);
        assert(cs[0].t == sphere.near_root(ray));
        assert(cs[1].t == sphere.far_root(ray));
        if lo < sphere.near_root(ray) < hi {
            assert(inside(cs, lo, hi, 0));
            assert(is_nearest(cs, lo, hi, 0));
        } else if lo < sphere.far_root(ray) < hi {
            assert(inside(cs, lo, hi, 1));
            assert(is_nearest(cs, lo, hi, 1));
        } else {
            assert forall|j: int| !#[trigger] inside(cs, lo, hi, j) by {}
        }
    } else {
        assert forall|j: int| !#[trigger] inside(cs, lo, hi, j) by {}
    }
}

/// A ray that passes the center at more than the radius misses the sphere,
/// whatever the interval. The squared distance between the center and the
/// line of the ray is `|oc|^2 - h^2 / a`; the premise compares it with the
/// squared radius, both multiplied by `a`.
pub proof fn lemma_passing_ray_misses(sphere: Sphere, ray: RayView, lo: int, hi: int)
    requires
        Sphere::quad_a(ray) > 0,
        Sphere::quad_a(ray) * sphere.to_center(ray).dot_exact(sphere.to_center(ray))
            - sphere.quad_h(ray) * sphere.quad_h(ray) > Sphere::quad_a(ray) * (sphere.radius
            * sphere.radius),
    ensures
        sphere.discriminant(ray) < 0,
        sphere.crossings(ray).len() == 0,
        nearest(sphere.crossings(ray), lo, hi) is None,
{
    let a = Sphere::quad_a(ray);
    let occ = sphere.to_center(ray).dot_exact(sphere.to_center(ray));
    let rr = sphere.radius * sphere.radius;
    assert(a * (occ - rr) == a * occ - a * rr) by (nonlinear_arith);
    lemma_sphere_nearest(sphere, ray, lo, hi);
}

/// A ray of unit length aimed straight at the center from the distance `d`,
/// outside the sphere, meets it at the parameters `d - radius` and
/// `d + radius` exactly.
pub proof fn lemma_head_on_roots(sphere: Sphere, ray: RayView, d: int)
    requires
        sphere.radius > 0,
        d > sphere.radius,
        Sphere::quad_a(ray) == SCALE * SCALE,
        sphere.to_center(ray).x * SCALE == d * ray.direction.x,
        sphere.to_center(ray).y * SCALE == d * ray.direction.y,
        sphere.to_center(ray).z * SCALE == d * ray.direction.z,
    ensures
        sphere.meets(ray),
        sphere.near_root(ray) == d - sphere.radius,
        sphere.far_root(ray) == d + sphere.radius,
{
    let sc = SCALE as int;
    let r = sphere.radius as int;
    let oc = sphere.to_center(ray);
    let dir = ray.direction;
    let a = Sphere::quad_a(ray);
    let h = sphere.quad_h(ray);
    let occ = oc.dot_exact(oc);
    lemma_aligned_term(oc.x, dir.x, d, dir.x);
    lemma_aligned_term(oc.y, dir.y, d, dir.y);
    lemma_aligned_term(oc.z, dir.z, d, dir.z);
    assert(h * sc == d * a) by (nonlinear_arith)
        requires
            h == oc.x * dir.x + oc.y * dir.y + oc.z * dir.z,
            a == dir.x * dir.x + dir.y * dir.y + dir.z * dir.z,
            (oc.x * dir.x) * sc == d * (dir.x * dir.x),
            (oc.y * dir.y) * sc == d * (dir.y * dir.y),
            (oc.z * dir.z) * sc == d * (dir.z * dir.z),
    ;
    assert(h == d * sc) by (nonlinear_arith)
        requires
            h * sc == d * (sc * sc),
            sc > 0,
    ;
    lemma_aligned_term(oc.x, dir.x, d, oc.x);
    lemma_aligned_term(oc.y, dir.y, d, oc.y);
    lemma_aligned_term(oc.z, dir.z, d, oc.z);
    assert(occ * sc == d * h) by (nonlinear_arith)
        requires
            h == oc.x * dir.x + oc.y * dir.y + oc.z * dir.z,
            occ == oc.x * oc.x + oc.y * oc.y + oc.z * oc.z,
            (oc.x * oc.x) * sc == d * (dir.x * oc.x),
            (oc.y * oc.y) * sc == d * (dir.y * oc.y),
            (oc.z * oc.z) * sc == d * (dir.z * oc.z),
    ;
    assert(occ == d * d) by (nonlinear_arith)
        requires
            occ * sc == d * (d * sc),
            sc > 0,
    ;
    let root = sc * r;
    assert(h * h == a * occ) by (nonlinear_arith)
        requires
            h == d * sc,
            a == sc * sc,
            occ == d * d,
    ;
    assert(a * (occ - r * r) == a * occ - a * (r * r)) by (nonlinear_arith);
    assert(a * (r * r) == root * root) by (nonlinear_arith)
        requires
            a == sc * sc,
            root == sc * r,
    ;
    assert(sphere.discriminant(ray) == root * root);
    assert(is_root(root * root, root)) by (nonlinear_arith)
        requires
            root >= 0,
    ;
    assert(root >= 0) by (nonlinear_arith)
        requires
            root == sc * r,
            sc > 0,
            r > 0,
    ;
    lemma_isqrt(root * root);
    assert((h - root) * sc == (d - r) * a && (h + root) * sc == (d + r) * a) by (nonlinear_arith)
        requires
            h == d * sc,
            root == sc * r,
            a == sc * sc,
    ;
    lemma_quot_exact(d - r, a);
    lemma_quot_exact(d + r, a);
}

/// With `o` equal to `d` times `e` over the scale, `o * x` is `d` times
/// `e * x` over the scale.
proof fn lemma_aligned_term(o: int, e: int, d: int, x: int)
    requires
        o * SCALE == d * e,
    ensures
        (o * x) * SCALE == d * (e * x),
{
    let sc = SCALE as int;
    assert((o * x) * sc == (o * sc) * x) by (nonlinear_arith);
    assert((d * e) * x == d * (e * x)) by (nonlinear_arith);
}

/// The recorded point against the point of the ray at the recorded
/// parameter: the two differ by what rounding the parameter to millionths
/// moves the point, which is a millionth of the direction, and by the
/// rounding of the two points themselves.
pub proof fn lemma_point_near_parameter(sphere: Sphere, ray: RayView, n: int)
    requires
        Sphere::quad_a(ray) > 0,
    ensures
        ({
            let gap = sphere.crossing(ray, n).point.minus(ray.at(sphere.crossing(ray, n).t));
            &&& abs(gap.x) * SCALE < abs(ray.direction.x) + 2 * SCALE
            &&& abs(gap.y) * SCALE < abs(ray.direction.y) + 2 * SCALE
            &&& abs(gap.z) * SCALE < abs(ray.direction.z) + 2 * SCALE
        }),
{
    let a = Sphere::quad_a(ray);
    lemma_step_near_parameter(a, n, ray.direction.x);
    lemma_step_near_parameter(a, n, ray.direction.y);
    lemma_step_near_parameter(a, n, ray.direction.z);
}

/// One axis of the above: the step `n * d / a` against the step `t * d` at
/// the rounded parameter `t`.
proof fn lemma_step_near_parameter(a: int, n: int, d: int)
    requires
        a > 0,
    ensures
        abs(quot(n * d, a) - fmul(quot(n * SCALE, a), d)) * SCALE < abs(d) + 2
            * SCALE,
{
    let sc = SCALE as int;
    let t = quot(n * sc, a);
    let p = quot(n * d, a);
    let q = quot(t * d, sc);
    lemma_quot_bounds(n * d, a);
    lemma_quot_bounds(n * sc, a);
    lemma_quot_bounds(t * d, sc);
    let rho1 = n * d - p * a;
    let rho2 = n * sc - t * a;
    let sigma = t * d - q * sc;
    let m = a * sc;
    let gap = p - q;
    assert(m * gap == rho2 * d + a * sigma - sc * rho1) by {
        assert(m * (p - q) == m * p - m * q) by (nonlinear_arith);
        assert(sc * (n * d - p * a) == sc * (n * d) - m * p) by (nonlinear_arith)
            requires
                m == a * sc,
        ;
        assert((n * sc - t * a) * d == sc * (n * d) - a * (t * d)) by (nonlinear_arith);
        assert(a * (t * d - q * sc) == a * (t * d) - m * q) by (nonlinear_arith)
            requires
                m == a * sc,
        ;
    }
    lemma_product_bound(rho2, d, a, abs(d));
    lemma_product_bound(a, sigma, a, sc);
    lemma_product_bound(sc, rho1, sc, a);
    assert(abs(rho2 * d) <= (a - 1) * abs(d)) by {
        lemma_product_bound(rho2, d, a - 1, abs(d));
    }
    assert(abs(a * sigma) <= a * (sc - 1)) by {
        lemma_product_bound(a, sigma, a, sc - 1);
    }
    assert((a - 1) * abs(d) + a * (sc - 1) + sc * a < a * (abs(d) + 2 * sc)) by (nonlinear_arith)
        requires
            a > 0,
            abs(d) >= 0,
            sc > 0,
    ;
    assert(abs(m * gap) == m * abs(gap)) by (nonlinear_arith)
        requires
            m == a * sc,
            a > 0,
            sc > 0,
    ;
    assert(abs(gap) * sc < abs(d) + 2 * sc) by (nonlinear_arith)
        requires
            m * abs(gap) < a * (abs(d) + 2 * sc),
            m == a * sc,
            a > 0,
    {
        assert(m * abs(gap) == a * (abs(gap) * sc));
    }
}

/// The recorded normal never points along the ray, and the front face is
/// recorded exactly where the ray runs against the outward normal.
pub proof fn lemma_normal_faces_ray(sphere: Sphere, ray: RayView, n: int)
    ensures
        sphere.crossing(ray, n).front_face == (ray.direction.dot_exact(
            sphere.outward_normal(ray, n),
        ) < 0),
        sphere.crossing(ray, n).front_face ==> sphere.crossing(ray, n).normal
            == sphere.outward_normal(ray, n),
        !sphere.crossing(ray, n).front_face ==> sphere.crossing(ray, n).normal
            == sphere.outward_normal(ray, n).negated(),
        ray.direction.dot_exact(sphere.crossing(ray, n).normal) <= 0,
{
    let d = ray.direction;
    let o = sphere.outward_normal(ray, n);
    assert(d.dot_exact(o.negated()) == -d.dot_exact(o)) by (nonlinear_arith)
        requires
            d.dot_exact(o.negated()) == d.x * (-o.x) + d.y * (-o.y) + d.z * (-o.z),
            d.dot_exact(o) == d.x * o.x + d.y * o.y + d.z * o.z,
    ;
}

/// For a root numerator `n` of the quadratic, the vector `w = n * D - a * oc`
/// is `a` times the exact offset of the crossing from the center. Because the
/// square root is rounded down, the crossing lies inside the sphere, short of
/// its surface by the rounding of the root at most.
pub proof fn lemma_chord_inside(d: V3, oc: V3, r: int, s: int, n: int)
    requires
        r > 0,
        d.dot_exact(d) > 0,
        is_root(oc.dot_exact(d) * oc.dot_exact(d) - d.dot_exact(d) * (oc.dot_exact(oc) - r * r), s),
        (n - oc.dot_exact(d)) * (n - oc.dot_exact(d)) == s * s,
    ensures
        ({
            let a = d.dot_exact(d);
            let w = V3::of(n * d.x - a * oc.x, n * d.y - a * oc.y, n * d.z - a * oc.z);
            &&& w.within(a * r)
            &&& w.dot_exact(w) <= (a * r) * (a * r)
            &&& w.dot_exact(w) >= (a * r) * (a * r) - a * (2 * s)
            &&& w.dot_exact(d) == a * (n - oc.dot_exact(d))
            &&& w.dot_exact(oc) == n * oc.dot_exact(d) - a * oc.dot_exact(oc)
        }),
{
    let a = d.dot_exact(d);
    let h = oc.dot_exact(d);
    let occ = oc.dot_exact(oc);
    let wx = n * d.x - a * oc.x;
    let wy = n * d.y - a * oc.y;
    let wz = n * d.z - a * oc.z;
    let nn = n * n;
    let na = n * a;
    let aa = a * a;
    lemma_square_of_difference(n, d.x, a, oc.x);
    lemma_square_of_difference(n, d.y, a, oc.y);
    lemma_square_of_difference(n, d.z, a, oc.z);
    let sum = wx * wx + wy * wy + wz * wz;
    assert(nn * (d.x * d.x) + nn * (d.y * d.y) + nn * (d.z * d.z) == nn * a)
        by (nonlinear_arith)
        requires
            a == d.x * d.x + d.y * d.y + d.z * d.z,
    ;
    assert(na * (oc.x * d.x) + na * (oc.y * d.y) + na * (oc.z * d.z) == na * h)
        by (nonlinear_arith)
        requires
            h == oc.x * d.x + oc.y * d.y + oc.z * d.z,
    ;
    assert(aa * (oc.x * oc.x) + aa * (oc.y * oc.y) + aa * (oc.z * oc.z) == aa * occ)
        by (nonlinear_arith)
        requires
            occ == oc.x * oc.x + oc.y * oc.y + oc.z * oc.z,
    ;
    assert(sum == nn * a - 2 * (na * h) + aa * occ);
    let ss = s * s;
    assert(nn * a - 2 * (na * h) == a * (ss - h * h)) by (nonlinear_arith)
        requires
            (n - h) * (n - h) == ss,
            nn == n * n,
            na == n * a,
    ;
    let ar = a * r;
    let disc = h * h - a * (occ - r * r);
    assert(a * (ss - h * h) + aa * occ == ar * ar - a * (disc - ss)) by (nonlinear_arith)
        requires
            disc == h * h - a * (occ - r * r),
            aa == a * a,
            ar == a * r,
    ;
    assert(0 <= disc - ss <= 2 * s) by (nonlinear_arith)
        requires
            ss == s * s,
            ss <= disc < (s + 1) * (s + 1),
    ;
    assert(0 <= a * (disc - ss) <= a * (2 * s)) by (nonlinear_arith)
        requires
            0 <= disc - ss <= 2 * s,
            a > 0,
    ;
    assert(sum <= ar * ar);
    assert(wx * wx >= 0 && wy * wy >= 0 && wz * wz >= 0) by (nonlinear_arith);
    assert(ar > 0) by (nonlinear_arith)
        requires
            ar == a * r,
            a > 0,
            r > 0,
    ;
    lemma_square_le(wx, ar);
    lemma_square_le(wy, ar);
    lemma_square_le(wz, ar);
    lemma_offset_times(n, a, d.x, oc.x, d.x);
    lemma_offset_times(n, a, d.y, oc.y, d.y);
    lemma_offset_times(n, a, d.z, oc.z, d.z);
    assert(n * (d.x * d.x) + n * (d.y * d.y) + n * (d.z * d.z) == n * a) by (nonlinear_arith)
        requires
            a == d.x * d.x + d.y * d.y + d.z * d.z,
    ;
    assert(a * (oc.x * d.x) + a * (oc.y * d.y) + a * (oc.z * d.z) == a * h) by (nonlinear_arith)
        requires
            h == oc.x * d.x + oc.y * d.y + oc.z * d.z,
    ;
    assert(a * (n - h) == n * a - a * h) by (nonlinear_arith);
    lemma_offset_times(n, a, d.x, oc.x, oc.x);
    lemma_offset_times(n, a, d.y, oc.y, oc.y);
    lemma_offset_times(n, a, d.z, oc.z, oc.z);
    assert(n * (d.x * oc.x) + n * (d.y * oc.y) + n * (d.z * oc.z) == n * h) by (nonlinear_arith)
        requires
            h == oc.x * d.x + oc.y * d.y + oc.z * d.z,
    ;
    assert(a * (oc.x * oc.x) + a * (oc.y * oc.y) + a * (oc.z * oc.z) == a * occ)
        by (nonlinear_arith)
        requires
            occ == oc.x * oc.x + oc.y * oc.y + oc.z * oc.z,
    ;
}

/// One term of a dot product with `n * d - a * o`.
proof fn lemma_offset_times(n: int, a: int, d: int, o: int, x: int)
    ensures
        (n * d - a * o) * x == n * (d * x) - a * (o * x),
{
    assert((n * d - a * o) * x == n * (d * x) - a * (o * x)) by (nonlinear_arith);
}

/// The square of a dot product is at most the product of the squared
/// lengths.
pub proof fn lemma_cauchy_schwarz(d: V3, o: V3)
    ensures
        d.dot_exact(o) * d.dot_exact(o) <= d.dot_exact(d) * o.dot_exact(o),
{
    let pxx = d.x * o.x;
    let pxy = d.x * o.y;
    let pxz = d.x * o.z;
    let pyx = d.y * o.x;
    let pyy = d.y * o.y;
    let pyz = d.y * o.z;
    let pzx = d.z * o.x;
    let pzy = d.z * o.y;
    let pzz = d.z * o.z;
    lemma_square_of_product(d.x, o.x);
    lemma_square_of_product(d.x, o.y);
    lemma_square_of_product(d.x, o.z);
    lemma_square_of_product(d.y, o.x);
    lemma_square_of_product(d.y, o.y);
    lemma_square_of_product(d.y, o.z);
    lemma_square_of_product(d.z, o.x);
    lemma_square_of_product(d.z, o.y);
    lemma_square_of_product(d.z, o.z);
    let a1 = d.x * d.x;
    let a2 = d.y * d.y;
    let a3 = d.z * d.z;
    let b1 = o.x * o.x;
    let b2 = o.y * o.y;
    let b3 = o.z * o.z;
    assert((a1 + a2 + a3) * (b1 + b2 + b3) == a1 * b1 + a1 * b2 + a1 * b3 + a2 * b1 + a2 * b2 + a2
        * b3 + a3 * b1 + a3 * b2 + a3 * b3) by (nonlinear_arith);
    let h = pxx + pyy + pzz;
    assert(h * h == pxx * pxx + pyy * pyy + pzz * pzz + 2 * (pxx * pyy) + 2 * (pyy * pzz) + 2 * (
    pxx * pzz)) by (nonlinear_arith)
        requires
            h == pxx + pyy + pzz,
    ;
    lemma_swap_factors(d.y, o.z, d.z, o.y);
    lemma_swap_factors(d.z, o.x, d.x, o.z);
    lemma_swap_factors(d.x, o.y, d.y, o.x);
    let cx = pyz - pzy;
    let cy = pzx - pxz;
    let cz = pxy - pyx;
    assert(cx * cx == pyz * pyz - 2 * (pyz * pzy) + pzy * pzy) by (nonlinear_arith)
        requires
            cx == pyz - pzy,
    ;
    assert(cy * cy == pzx * pzx - 2 * (pzx * pxz) + pxz * pxz) by (nonlinear_arith)
        requires
            cy == pzx - pxz,
    ;
    assert(cz * cz == pxy * pxy - 2 * (pxy * pyx) + pyx * pyx) by (nonlinear_arith)
        requires
            cz == pxy - pyx,
    ;
    assert(cx * cx >= 0 && cy * cy >= 0 && cz * cz >= 0) by (nonlinear_arith);
    assert(d.dot_exact(d) * o.dot_exact(o) - h * h == cx * cx + cy * cy + cz * cz);
}

/// `(a * b)^2 = a^2 * b^2`.
proof fn lemma_square_of_product(a: int, b: int)
    ensures
        (a * b) * (a * b) == (a * a) * (b * b),
{
    assert((a * b) * (a * b) == (a * a) * (b * b)) by (nonlinear_arith);
}

/// `(a * b) * (c * d) = (a * d) * (c * b)`.
proof fn lemma_swap_factors(a: int, b: int, c: int, d: int)
    ensures
        (a * b) * (c * d) == (a * d) * (c * b),
{
    assert((a * b) * (c * d) == (a * d) * (c * b)) by (nonlinear_arith);
}

/// The exact offset of a crossing from the center is never zero: a crossing
/// at the center itself would make the discriminant both zero and at least
/// one.
pub proof fn lemma_offset_not_zero(d: V3, oc: V3, r: int, s: int, n: int)
    requires
        r > 0,
        d.dot_exact(d) > 0,
        is_root(oc.dot_exact(d) * oc.dot_exact(d) - d.dot_exact(d) * (oc.dot_exact(oc) - r * r), s),
        (n - oc.dot_exact(d)) * (n - oc.dot_exact(d)) == s * s,
    ensures
        !V3::of(
            n * d.x - d.dot_exact(d) * oc.x,
            n * d.y - d.dot_exact(d) * oc.y,
            n * d.z - d.dot_exact(d) * oc.z,
        ).is_zero(),
{
    let a = d.dot_exact(d);
    let h = oc.dot_exact(d);
    let occ = oc.dot_exact(oc);
    let w = V3::of(n * d.x - a * oc.x, n * d.y - a * oc.y, n * d.z - a * oc.z);
    lemma_chord_inside(d, oc, r, s, n);
    if w.is_zero() {
        assert(w.dot_exact(d) == 0 && w.dot_exact(oc) == 0);
        assert(n == h) by (nonlinear_arith)
            requires
                a * (n - h) == 0,
                a > 0,
        ;
        assert(s == 0) by (nonlinear_arith)
            requires
                s * s == (n - h) * (n - h),
                n == h,
                s >= 0,
        ;
        assert(h * h - a * (occ - r * r) == a * (r * r)) by (nonlinear_arith)
            requires
                h * h - a * occ == 0,
        ;
        assert(a * (r * r) >= 1) by (nonlinear_arith)
            requires
                a >= 1,
                r >= 1,
        ;
        assert((s + 1) * (s + 1) == 1) by (nonlinear_arith)
            requires
                s == 0,
        ;
        assert(false);
    }
}

/// One axis of a recorded point: its offset `e` from the center, times `a`,
/// is within `a` of the exact `w = n * d - a * o`.
proof fn lemma_rounded_offset(a: int, r: int, n: int, d: int, o: int)
    requires
        a > 0,
        r > 0,
        abs(n * d - a * o) <= a * r,
    ensures
        abs(a * (quot(n * d, a) - o) - (n * d - a * o)) < a,
        abs(quot(n * d, a) - o) <= r,
{
    let q = quot(n * d, a);
    lemma_quot_bounds(n * d, a);
    assert(a * (q - o) == q * a - a * o) by (nonlinear_arith);
    let e = q - o;
    assert(abs(a * e) == a * abs(e)) by (nonlinear_arith)
        requires
            a > 0,
    ;
    assert(abs(a * e) < a * (r + 1)) by (nonlinear_arith)
        requires
            abs(a * e - (n * d - a * o)) < a,
            abs(n * d - a * o) <= a * r,
    ;
    assert(abs(e) <= r) by (nonlinear_arith)
        requires
            abs(a * e) < a * (r + 1),
            a > 0,
            abs(a * e) == a * abs(e),
    {
        assert(a * abs(e) < a * (r + 1));
    }
}

/// The squared length of the rounded offset `e` against the squared radius,
/// given the exact offset `w` over `a`.
proof fn lemma_distance(a: int, r: int, s: int, w: V3, e: V3)
    requires
        a > 0,
        r > 0,
        0 <= s <= a * r,
        w.within(a * r),
        w.dot_exact(w) <= (a * r) * (a * r),
        w.dot_exact(w) >= (a * r) * (a * r) - a * (2 * s),
        abs(a * e.x - w.x) < a,
        abs(a * e.y - w.y) < a,
        abs(a * e.z - w.z) < a,
    ensures
        on_surface(e, r),
{
    let ar = a * r;
    let aa = a * a;
    let ee = e.dot_exact(e);
    lemma_axis_square(a, ar, w.x, e.x);
    lemma_axis_square(a, ar, w.y, e.y);
    lemma_axis_square(a, ar, w.z, e.z);
    lemma_square_of_product(a, e.x);
    lemma_square_of_product(a, e.y);
    lemma_square_of_product(a, e.z);
    assert(aa * (e.x * e.x + e.y * e.y + e.z * e.z) == aa * (e.x * e.x) + aa * (e.y * e.y) + aa
        * (e.z * e.z)) by (nonlinear_arith);
    assert(aa * ee == (a * e.x) * (a * e.x) + (a * e.y) * (a * e.y) + (a * e.z) * (a * e.z));
    let ww = w.dot_exact(w);
    assert(aa * ee <= ww + 6 * (a * ar) + 3 * aa);
    assert(aa * ee >= ww - 6 * (a * ar));
    assert(ee <= r * r + 6 * r + 3) by (nonlinear_arith)
        requires
            aa * ee <= ar * ar + 6 * (a * ar) + 3 * aa,
            ar == a * r,
            aa == a * a,
            a > 0,
    {
        assert(ar * ar + 6 * (a * ar) + 3 * aa == aa * (r * r + 6 * r + 3));
    }
    assert(ee >= r * r - 8 * r) by (nonlinear_arith)
        requires
            aa * ee >= ar * ar - a * (2 * s) - 6 * (a * ar),
            0 <= s <= ar,
            ar == a * r,
            aa == a * a,
            a > 0,
    {
        assert(a * (2 * s) <= 2 * (a * ar));
        assert(ar * ar - 8 * (a * ar) == aa * (r * r - 8 * r));
    }
}

/// One axis of the above: the square of `a * e` against the square of `w`.
proof fn lemma_axis_square(a: int, ar: int, w: int, e: int)
    requires
        a > 0,
        abs(w) <= ar,
        abs(a * e - w) < a,
    ensures
        (a * e) * (a * e) <= w * w + 2 * (a * ar) + a * a,
        (a * e) * (a * e) >= w * w - 2 * (a * ar),
{
    let x = a * e;
    let rho = x - w;
    assert(x * x == w * w + 2 * (w * rho) + rho * rho) by (nonlinear_arith)
        requires
            rho == x - w,
    ;
    assert(abs(w * rho) <= ar * a) by {
        lemma_product_bound(w, rho, ar, a);
    }
    assert(ar * a == a * ar) by (nonlinear_arith);
    assert(0 <= rho * rho <= a * a) by (nonlinear_arith)
        requires
            abs(rho) < a,
    ;
}

/// The square of `n * d - a * o`, written out.
proof fn lemma_square_of_difference(n: int, d: int, a: int, o: int)
    ensures
        (n * d - a * o) * (n * d - a * o) == (n * n) * (d * d) - 2 * ((n * a) * (o * d)) + (a
            * a) * (o * o),
{
    let p = n * d;
    let q = a * o;
    assert((p - q) * (p - q) == p * p - 2 * (p * q) + q * q) by (nonlinear_arith);
    assert(p * p == (n * n) * (d * d)) by (nonlinear_arith)
        requires
            p == n * d,
    ;
    assert(q * q == (a * a) * (o * o)) by (nonlinear_arith)
        requires
            q == a * o,
    ;
    assert(p * q == (n * a) * (o * d)) by (nonlinear_arith)
        requires
            p == n * d,
            q == a * o,
    ;
}

/// `w * w <= b * b` with `b >= 0` gives `|w| <= b`.
proof fn lemma_square_le(w: int, b: int)
    requires
        b >= 0,
        w * w <= b * b,
    ensures
        abs(w) <= b,
{
    if abs(w) > b {
        assert(w * w > b * b) by (nonlinear_arith)
            requires
                abs(w) >= b + 1,
                b >= 0,
                abs(w) == w || abs(w) == -w,
        ;
    }
}

} // verus!
