//! Three-component vectors, used as directions, positions and colours.
use vstd::prelude::*;
use crate::fixed::{abs, fdiv, fits_i64, fmul, int_sqrt, isqrt, quot, quot_wide, LIMIT, SCALE,
    WIDE};
use crate::fixed::{lemma_isqrt, lemma_quot_abs, lemma_quot_bounds, lemma_quot_exact,
    lemma_quot_le};

pub mod ops;

verus! {

/// The mathematical value of a [`Vec3`]: three unbounded raw scalars.
pub struct V3 {
    pub x: int,
    pub y: int,
    pub z: int,
}

impl V3 {
    /// The vector with the three given components.
    pub open spec fn of(x: int, y: int, z: int) -> V3 {
        V3 { x, y, z }
    }

    /// Component-wise sum.
    pub open spec fn plus(self, o: V3) -> V3 {
        V3 { x: self.x + o.x, y: self.y + o.y, z: self.z + o.z }
    }

    /// Component-wise difference.
    pub open spec fn minus(self, o: V3) -> V3 {
        V3 { x: self.x - o.x, y: self.y - o.y, z: self.z - o.z }
    }

    /// The opposite vector.
    pub open spec fn negated(self) -> V3 {
        V3 { x: -self.x, y: -self.y, z: -self.z }
    }

    /// Component-wise fixed-point product.
    pub open spec fn times(self, o: V3) -> V3 {
        V3 { x: fmul(self.x, o.x), y: fmul(self.y, o.y), z: fmul(self.z, o.z) }
    }

    /// The vector multiplied by the fixed-point scalar `s`.
    pub open spec fn scaled(self, s: int) -> V3 {
        V3 { x: fmul(s, self.x), y: fmul(s, self.y), z: fmul(s, self.z) }
    }

    /// The vector divided by the fixed-point scalar `s`, for `s != 0`.
    pub open spec fn over(self, s: int) -> V3 {
        V3 { x: fdiv(self.x, s), y: fdiv(self.y, s), z: fdiv(self.z, s) }
    }

    /// The sum of the products of the raw components, without rounding. Its
    /// unit is the square of the scale.
    pub open spec fn dot_exact(self, o: V3) -> int {
        self.x * o.x + self.y * o.y + self.z * o.z
    }

    /// The fixed-point dot product, rounded once.
    pub open spec fn dot(self, o: V3) -> int {
        quot(self.dot_exact(o), SCALE as int)
    }

    /// The fixed-point cross product, each component rounded once.
    pub open spec fn cross(self, o: V3) -> V3 {
        V3 {
            x: quot(self.y * o.z - self.z * o.y, SCALE as int),
            y: quot(self.z * o.x - self.x * o.z, SCALE as int),
            z: quot(self.x * o.y - self.y * o.x, SCALE as int),
        }
    }

    /// The fixed-point squared length.
    pub open spec fn squared_length(self) -> int {
        self.dot(self)
    }

    /// The length: the floor square root of the exact squared length.
    pub open spec fn length(self) -> int {
        isqrt(self.dot_exact(self))
    }

    /// The largest magnitude among the components.
    pub open spec fn longest(self) -> int {
        let m = if abs(self.x) >= abs(self.y) {
            abs(self.x)
        } else {
            abs(self.y)
        };
        if m >= abs(self.z) {
            m
        } else {
            abs(self.z)
        }
    }

    /// The vector divided by the least whole number that brings every
    /// component below [`SHORT`]. A vector that is below it already stays as
    /// it is.
    pub open spec fn shortened(self) -> V3 {
        let f = self.longest() / (SHORT as int) + 1;
        V3 { x: quot(self.x, f), y: quot(self.y, f), z: quot(self.z, f) }
    }

    /// The vector brought to length one, or zero for the zero vector. Each
    /// component is divided by the length; the length is the square root
    /// taken at the square of the scale, so that it is right to twelve
    /// decimals before the division.
    pub open spec fn normalized(self) -> V3 {
        let u = self.shortened();
        let q = u.dot_exact(u);
        if q > 0 {
            let m = isqrt(q * (SCALE * SCALE));
            V3 {
                x: quot(u.x * (SCALE * SCALE), m),
                y: quot(u.y * (SCALE * SCALE), m),
                z: quot(u.z * (SCALE * SCALE), m),
            }
        } else {
            V3 { x: 0, y: 0, z: 0 }
        }
    }

    /// The vector has length one as far as millionths can tell: its exact
    /// squared length differs from one by at most [`UNIT_SLACK`].
    pub open spec fn is_unit(self) -> bool {
        abs(self.dot_exact(self) - SCALE * SCALE) <= UNIT_SLACK
    }

    /// The vector is zero.
    pub open spec fn is_zero(self) -> bool {
        self.x == 0 && self.y == 0 && self.z == 0
    }

    /// Every component has a magnitude of at most `m`.
    pub open spec fn within(self, m: int) -> bool {
        abs(self.x) <= m && abs(self.y) <= m && abs(self.z) <= m
    }

    /// Every component can be stored in an `i64`.
    pub open spec fn fits(self) -> bool {
        fits_i64(self.x) && fits_i64(self.y) && fits_i64(self.z)
    }
}

/// Components of this magnitude and beyond are shortened before a vector is
/// normalized (a million whole units).
pub const SHORT: i64 = 1_000_000_000_000;

/// By how much the exact squared length of a normalized vector can differ
/// from the square of the scale: six millionths of it, which is what rounding
/// three components to millionths can amount to.
pub const UNIT_SLACK: i64 = 6_000_000;

/// The largest magnitude of the components handed to [`unit_vector`].
pub const UNIT_INPUT_LIMIT: i128 = 1_000_000_000_000_000_000_000_000_000_000;

/// A vector of three fixed-point scalars.
#[derive(Debug, Clone, Copy)]
pub struct Vec3 {
    pub x: i64,
    pub y: i64,
    pub z: i64,
}

/// A position in space.
pub type Point = Vec3;

impl View for Vec3 {
    type V = V3;

    open spec fn view(&self) -> V3 {
        V3 { x: self.x as int, y: self.y as int, z: self.z as int }
    }
}

/// A vector whose components are within `m`, multiplied with one whose
/// components are within `n`, has an exact dot product within `3 * m * n`.
pub proof fn lemma_dot_exact_bound(a: V3, b: V3, m: int, n: int)
    requires
        a.within(m),
        b.within(n),
    ensures
        abs(a.dot_exact(b)) <= 3 * (m * n),
{
    lemma_product_bound(a.x, b.x, m, n);
    lemma_product_bound(a.y, b.y, m, n);
    lemma_product_bound(a.z, b.z, m, n);
}

/// `|a| <= m` and `|b| <= n` give `|a * b| <= m * n`.
pub proof fn lemma_product_bound(a: int, b: int, m: int, n: int)
    requires
        abs(a) <= m,
        abs(b) <= n,
    ensures
        abs(a * b) <= m * n,
{
    assert(abs(a * b) == abs(a) * abs(b)) by (nonlinear_arith);
    assert(abs(a) * abs(b) <= m * n) by (nonlinear_arith)
        requires
            0 <= abs(a) <= m,
            0 <= abs(b) <= n,
    ;
}

/// No component exceeds the length, and the length of a vector within `m` is
/// at most `2 * m`.
pub proof fn lemma_length_bounds(v: V3, m: int)
    requires
        v.within(m),
    ensures
        0 <= v.length(),
        abs(v.x) <= v.length(),
        abs(v.y) <= v.length(),
        abs(v.z) <= v.length(),
        v.length() <= 2 * m,
{
    let n = v.dot_exact(v);
    assert(v.x * v.x >= 0 && v.y * v.y >= 0 && v.z * v.z >= 0) by (nonlinear_arith);
    lemma_isqrt(n);
    let len = v.length();
    assert(abs(v.x) * abs(v.x) == v.x * v.x) by (nonlinear_arith);
    assert(abs(v.y) * abs(v.y) == v.y * v.y) by (nonlinear_arith);
    assert(abs(v.z) * abs(v.z) == v.z * v.z) by (nonlinear_arith);
    lemma_square_below(abs(v.x), len, n);
    lemma_square_below(abs(v.y), len, n);
    lemma_square_below(abs(v.z), len, n);
    lemma_dot_exact_bound(v, v, m, m);
    assert(len <= 2 * m) by (nonlinear_arith)
        requires
            len * len <= n,
            n <= 3 * (m * m),
            len >= 0,
            m >= 0,
    ;
}

/// Shortening keeps every component below [`SHORT`] and keeps a vector that
/// is not zero from becoming zero.
pub proof fn lemma_shortened(v: V3)
    ensures
        v.shortened().within(SHORT as int),
        v.longest() < SHORT ==> v.shortened() == v,
        !v.is_zero() ==> !v.shortened().is_zero(),
        v.is_zero() ==> v.shortened().is_zero(),
{
    let l = v.longest();
    let sh = SHORT as int;
    let f = l / sh + 1;
    vstd::arithmetic::div_mod::lemma_fundamental_div_mod(l, sh);
    vstd::arithmetic::div_mod::lemma_mod_bound(l, sh);
    vstd::arithmetic::div_mod::lemma_div_pos_is_pos(l, sh);
    assert(sh * f == sh * (l / sh) + sh) by (nonlinear_arith)
        requires
            f == l / sh + 1,
    ;
    assert(l <= sh * f);
    lemma_quot_le(v.x, f, sh);
    lemma_quot_le(v.y, f, sh);
    lemma_quot_le(v.z, f, sh);
    if l < sh {
        vstd::arithmetic::div_mod::lemma_basic_div(l, sh);
        lemma_quot_exact(v.x, 1);
        lemma_quot_exact(v.y, 1);
        lemma_quot_exact(v.z, 1);
    }
    if !v.is_zero() {
        assert(l >= 1);
        assert(f <= l) by {
            if l >= sh {
                vstd::arithmetic::div_mod::lemma_div_is_ordered_by_denominator(l, 2, sh);
                assert(l / sh <= l / 2);
            } else {
                vstd::arithmetic::div_mod::lemma_basic_div(l, sh);
            }
        }
        lemma_keeps_one(v.x, f);
        lemma_keeps_one(v.y, f);
        lemma_keeps_one(v.z, f);
    } else {
        lemma_quot_exact(0, f);
        assert(0 * f == 0);
    }
}

/// A number of at least the magnitude of the divisor keeps a quotient that is
/// not zero.
proof fn lemma_keeps_one(x: int, f: int)
    requires
        f >= 1,
    ensures
        abs(x) >= f ==> quot(x, f) != 0,
{
    if abs(x) >= f {
        lemma_quot_bounds(x, f);
        if quot(x, f) == 0 {
            assert(0 * f == 0);
        }
    }
}

/// A normalized vector has no component beyond one, and unless it came from
/// the zero vector it has length one, as far as millionths can tell.
pub proof fn lemma_normalized_unit(v: V3)
    ensures
        v.normalized().within(SCALE as int),
        !v.is_zero() ==> v.normalized().is_unit(),
        v.is_zero() ==> v.normalized().is_zero(),
{
    lemma_shortened(v);
    let u = v.shortened();
    let q = u.dot_exact(u);
    let sc = SCALE as int;
    let ss = sc * sc;
    assert(ss == 1_000_000_000_000) by (nonlinear_arith)
        requires
            ss == sc * sc,
            sc == 1_000_000,
    ;
    assert(u.x * u.x >= 0 && u.y * u.y >= 0 && u.z * u.z >= 0) by (nonlinear_arith);
    if !v.is_zero() {
        assert(q > 0) by (nonlinear_arith)
            requires
                q == u.x * u.x + u.y * u.y + u.z * u.z,
                u.x != 0 || u.y != 0 || u.z != 0,
        ;
        let n = q * ss;
        assert(n >= ss) by (nonlinear_arith)
            requires
                n == q * ss,
                q >= 1,
                ss > 0,
        ;
        lemma_isqrt(n);
        let m = isqrt(n);
        lemma_square_below(sc, m, n);
        let r = v.normalized();
        lemma_unit_component(u.x, q, m);
        lemma_unit_component(u.y, q, m);
        lemma_unit_component(u.z, q, m);
        let rr = r.dot_exact(r);
        let mm = m * m;
        assert(mm > 0) by (nonlinear_arith)
            requires
                mm == m * m,
                m > 0,
        ;
        assert(abs(u.x) * abs(u.x) == u.x * u.x && abs(u.y) * abs(u.y) == u.y * u.y && abs(u.z)
            * abs(u.z) == u.z * u.z) by (nonlinear_arith);
        // The squares of the three components, each times the square of the
        // root, against the squares of the dividends.
        let ax = abs(u.x) * ss;
        let ay = abs(u.y) * ss;
        let az = abs(u.z) * ss;
        assert(ax * ax + ay * ay + az * az == ss * n) by (nonlinear_arith)
            requires
                ax == abs(u.x) * ss,
                ay == abs(u.y) * ss,
                az == abs(u.z) * ss,
                abs(u.x) * abs(u.x) + abs(u.y) * abs(u.y) + abs(u.z) * abs(u.z) == q,
                n == q * ss,
        {
            assert(ax * ax == (abs(u.x) * abs(u.x)) * (ss * ss));
            assert(ay * ay == (abs(u.y) * abs(u.y)) * (ss * ss));
            assert(az * az == (abs(u.z) * abs(u.z)) * (ss * ss));
        }
        assert(rr * mm == (r.x * r.x) * mm + (r.y * r.y) * mm + (r.z * r.z) * mm)
            by (nonlinear_arith)
            requires
                rr == r.x * r.x + r.y * r.y + r.z * r.z,
        ;
        // From above.
        assert(rr * mm <= ss * n);
        assert(ss * n < (ss + 2 * sc + 1) * mm) by (nonlinear_arith)
            requires
                n < (m + 1) * (m + 1),
                m >= sc,
                ss == sc * sc,
                sc > 0,
                mm == m * m,
        {
            assert((m + 1) * (m + 1) == mm + 2 * m + 1);
            assert(ss * (2 * m) <= (2 * sc) * mm) by {
                assert(sc * m <= m * m);
                assert((sc * sc) * m == sc * (sc * m));
            }
            assert(ss <= mm);
        }
        assert(rr < ss + 2 * sc + 1) by (nonlinear_arith)
            requires
                rr * mm < (ss + 2 * sc + 1) * mm,
                mm > 0,
        ;
        // From below.
        assert(ax + ay + az <= 3 * (m * sc)) by (nonlinear_arith)
            requires
                abs(u.x) * sc <= m,
                abs(u.y) * sc <= m,
                abs(u.z) * sc <= m,
                ax == abs(u.x) * ss,
                ay == abs(u.y) * ss,
                az == abs(u.z) * ss,
                ss == sc * sc,
                sc > 0,
        {
            assert(ax == (abs(u.x) * sc) * sc);
            assert(ay == (abs(u.y) * sc) * sc);
            assert(az == (abs(u.z) * sc) * sc);
        }
        assert(2 * m * (ax + ay + az) == 2 * m * ax + 2 * m * ay + 2 * m * az)
            by (nonlinear_arith);
        assert(rr * mm >= ss * n - 2 * m * (ax + ay + az));
        assert(ss * n - 2 * m * (ax + ay + az) >= (ss - 6 * sc) * mm) by (nonlinear_arith)
            requires
                n >= mm,
                mm == m * m,
                ax + ay + az <= 3 * (m * sc),
                ss > 0,
                m > 0,
        {
            assert(ss * n >= ss * mm);
            assert(2 * m * (ax + ay + az) <= 2 * m * (3 * (m * sc)));
            assert(2 * m * (3 * (m * sc)) == (6 * sc) * (m * m));
        }
        assert(rr >= ss - 6 * sc) by (nonlinear_arith)
            requires
                rr * mm >= (ss - 6 * sc) * mm,
                mm > 0,
        ;
    }
}

/// One component `c` of a vector of squared length `q`, divided by the root
/// `m` of `q` at the square of the scale: the quotient is at most one, and its
/// square times the square of the root lies between the square of the
/// dividend, less twice the dividend times the root, and that square.
proof fn lemma_unit_component(c: int, q: int, m: int)
    requires
        c * c <= q,
        0 < m,
        m * m <= q * (SCALE * SCALE) < (m + 1) * (m + 1),
    ensures
        abs(c) * SCALE <= m,
        abs(quot(c * (SCALE * SCALE), m)) <= SCALE,
        (quot(c * (SCALE * SCALE), m) * quot(c * (SCALE * SCALE), m)) * (m * m) <= (abs(c) * (
        SCALE * SCALE)) * (abs(c) * (SCALE * SCALE)),
        (quot(c * (SCALE * SCALE), m) * quot(c * (SCALE * SCALE), m)) * (m * m) >= (abs(c) * (
        SCALE * SCALE)) * (abs(c) * (SCALE * SCALE)) - 2 * m * (abs(c) * (SCALE * SCALE)),
{
    let sc = SCALE as int;
    let ss = sc * sc;
    let n = q * ss;
    let ac = abs(c);
    assert((ac * sc) * (ac * sc) <= n) by (nonlinear_arith)
        requires
            c * c <= q,
            ac == abs(c),
            n == q * (sc * sc),
            sc > 0,
    {
        assert(ac * ac == c * c);
        assert((ac * sc) * (ac * sc) == (ac * ac) * (sc * sc));
    }
    assert(ac * sc >= 0) by (nonlinear_arith)
        requires
            ac >= 0,
            sc > 0,
    ;
    lemma_square_below(ac * sc, m, n);
    let a = c * ss;
    let y = ac * ss;
    assert(abs(a) == y) by (nonlinear_arith)
        requires
            a == c * ss,
            y == abs(c) * ss,
            ss > 0,
    ;
    assert(y <= sc * m) by (nonlinear_arith)
        requires
            y == ac * (sc * sc),
            ac * sc <= m,
            sc > 0,
    ;
    lemma_quot_le(a, m, sc);
    lemma_quot_abs(a, m);
    lemma_quot_bounds(a, m);
    let r = quot(a, m);
    let x = abs(r) * m;
    assert(x <= y);
    assert(x > y - m) by {
        assert((-r) * m == -(r * m)) by (nonlinear_arith);
    }
    assert((r * r) * (m * m) == x * x) by (nonlinear_arith)
        requires
            x == abs(r) * m,
    {
        assert(abs(r) * abs(r) == r * r);
    }
    assert(x * x <= y * y) by (nonlinear_arith)
        requires
            0 <= x <= y,
    ;
    assert(x * x >= y * y - 2 * m * y) by (nonlinear_arith)
        requires
            0 <= x,
            x > y - m,
            y >= 0,
            m > 0,
    {
        if y >= m {
            assert(x * x >= (y - m) * (y - m));
            assert((y - m) * (y - m) == y * y - 2 * m * y + m * m);
        } else {
            assert(y * y <= m * y);
        }
    }
}

/// A number whose square is at most `n` is at most the floor square root of
/// `n`.
pub proof fn lemma_square_below(a: int, r: int, n: int)
    requires
        0 <= a,
        a * a <= n,
        0 <= r,
        n < (r + 1) * (r + 1),
    ensures
        a <= r,
{
    if a > r {
        assert((r + 1) * (r + 1) <= a * a) by (nonlinear_arith)
            requires
                0 <= r,
                r + 1 <= a,
        ;
    }
}

impl Vec3 {
    /// Every component has a magnitude of at most [`LIMIT`].
    pub open spec fn in_limit(&self) -> bool {
        self@.within(LIMIT as int)
    }

    /// Whether every component has a magnitude of at most [`LIMIT`].
    pub fn is_in_limit(&self) -> (b: bool)
        ensures
            b == self.in_limit(),
    {
        -LIMIT <= self.x && self.x <= LIMIT && -LIMIT <= self.y && self.y <= LIMIT && -LIMIT
            <= self.z && self.z <= LIMIT
    }

    /// The vector with the components of `arr`.
    pub fn from_array(arr: &[i64; 3]) -> (r: Vec3)
        ensures
            r@ == V3::of(arr[0] as int, arr[1] as int, arr[2] as int),
    {
        Vec3 { x: arr[0], y: arr[1], z: arr[2] }
    }

    /// The vector with the three given components.
    pub fn new(e0: i64, e1: i64, e2: i64) -> (r: Vec3)
        ensures
            r@ == V3::of(e0 as int, e1 as int, e2 as int),
    {
        Vec3 { x: e0, y: e1, z: e2 }
    }

    /// The exact sum of the products of the components.
    pub fn dot_exact(&self, other: &Vec3) -> (r: i128)
        requires
            self@.within(WIDE as int),
            other@.within(WIDE as int),
        ensures
            r == self@.dot_exact(other@),
    {
        proof {
            lemma_dot_exact_bound(self@, other@, WIDE as int, WIDE as int);
            lemma_product_bound(self.x as int, other.x as int, WIDE as int, WIDE as int);
            lemma_product_bound(self.y as int, other.y as int, WIDE as int, WIDE as int);
            lemma_product_bound(self.z as int, other.z as int, WIDE as int, WIDE as int);
            lemma_wide_square();
        }
        (self.x as i128) * (other.x as i128) + (self.y as i128) * (other.y as i128) + (
        self.z as i128) * (other.z as i128)
    }

    /// The fixed-point dot product.
    pub fn dot(&self, other: &Vec3) -> (r: i64)
        requires
            self@.within(WIDE as int),
            other@.within(WIDE as int),
            fits_i64(self@.dot(other@)),
        ensures
            r == self@.dot(other@),
    {
        let wide: i128 = self.dot_exact(other);
        quot_wide(wide, SCALE as i128) as i64
    }

    /// The fixed-point cross product.
    pub fn cross(&self, other: Vec3) -> (r: Vec3)
        requires
            self@.within(WIDE as int),
            other@.within(WIDE as int),
            self@.cross(other@).fits(),
        ensures
            r@ == self@.cross(other@),
    {
        Vec3 {
            x: cross_term(self.y, other.z, self.z, other.y),
            y: cross_term(self.z, other.x, self.x, other.z),
            z: cross_term(self.x, other.y, self.y, other.x),
        }
    }

    /// The vector brought to length one, or zero for the zero vector.
    pub fn normalize(&self) -> (r: Vec3)
        ensures
            r@ == self@.normalized(),
            r@.within(SCALE as int),
            !self@.is_zero() ==> r@.is_unit(),
            self@.is_zero() ==> r@.is_zero(),
    {
        unit_vector(self.x as i128, self.y as i128, self.z as i128)
    }

    /// The length of the vector, rounded down.
    pub fn length(&self) -> (r: i64)
        requires
            self@.within(WIDE as int),
        ensures
            r == self@.length(),
            0 <= r,
    {
        let wide: i128 = self.dot_exact(self);
        proof {
            let v = self@;
            assert(v.x * v.x >= 0 && v.y * v.y >= 0 && v.z * v.z >= 0) by (nonlinear_arith);
            lemma_length_bounds(v, WIDE as int);
        }
        int_sqrt(wide as u128) as i64
    }

    /// The fixed-point squared length.
    pub fn squared_length(&self) -> (r: i64)
        requires
            self@.within(WIDE as int),
            fits_i64(self@.squared_length()),
        ensures
            r == self@.squared_length(),
    {
        self.dot(self)
    }

    /// The zero vector.
    pub fn zero() -> (r: Vec3)
        ensures
            r@ == V3::of(0, 0, 0),
    {
        Vec3::from_array(&[0, 0, 0])
    }

    /// The first component.
    pub fn x(&self) -> (r: i64)
        ensures
            r == self.x,
    {
        self.x
    }

    /// The second component.
    pub fn y(&self) -> (r: i64)
        ensures
            r == self.y,
    {
        self.y
    }

    /// The third component.
    pub fn z(&self) -> (r: i64)
        ensures
            r == self.z,
    {
        self.z
    }
}

/// The square of [`WIDE`], three times over, fits `i128`.
proof fn lemma_wide_square()
    ensures
        WIDE * WIDE == 16_000_000_000_000_000_000_000_000_000_000_000_000,
{
    assert(WIDE * WIDE == 16_000_000_000_000_000_000_000_000_000_000_000_000) by (nonlinear_arith)
        requires
            WIDE == 4_000_000_000_000_000_000,
    ;
}

/// One component of a cross product: `(a * b - c * d)` brought back to the
/// scale.
fn cross_term(a: i64, b: i64, c: i64, d: i64) -> (r: i64)
    requires
        abs(a as int) <= WIDE,
        abs(b as int) <= WIDE,
        abs(c as int) <= WIDE,
        abs(d as int) <= WIDE,
        fits_i64(quot(a * b - c * d, SCALE as int)),
    ensures
        r == quot(a * b - c * d, SCALE as int),
{
    proof {
        lemma_product_bound(a as int, b as int, WIDE as int, WIDE as int);
        lemma_product_bound(c as int, d as int, WIDE as int, WIDE as int);
        lemma_wide_square();
    }
    let wide: i128 = (a as i128) * (b as i128) - (c as i128) * (d as i128);
    quot_wide(wide, SCALE as i128) as i64
}

/// The largest of the magnitudes of three numbers.
fn longest_of(x: i128, y: i128, z: i128) -> (m: i128)
    requires
        abs(x as int) <= UNIT_INPUT_LIMIT,
        abs(y as int) <= UNIT_INPUT_LIMIT,
        abs(z as int) <= UNIT_INPUT_LIMIT,
    ensures
        m == V3::of(x as int, y as int, z as int).longest(),
        0 <= m <= UNIT_INPUT_LIMIT,
{
    let ax: i128 = if x < 0 { -x } else { x };
    let ay: i128 = if y < 0 { -y } else { y };
    let az: i128 = if z < 0 { -z } else { z };
    let m: i128 = if ax >= ay { ax } else { ay };
    if m >= az {
        m
    } else {
        az
    }
}

/// The vector with the given components brought to length one, or zero where
/// all three are zero. The components may be wider than a [`Vec3`] holds.
pub fn unit_vector(x: i128, y: i128, z: i128) -> (r: Vec3)
    requires
        abs(x as int) <= UNIT_INPUT_LIMIT,
        abs(y as int) <= UNIT_INPUT_LIMIT,
        abs(z as int) <= UNIT_INPUT_LIMIT,
    ensures
        r@ == V3::of(x as int, y as int, z as int).normalized(),
        r@.within(SCALE as int),
        !V3::of(x as int, y as int, z as int).is_zero() ==> r@.is_unit(),
        V3::of(x as int, y as int, z as int).is_zero() ==> r@.is_zero(),
{
    let ghost v = V3::of(x as int, y as int, z as int);
    proof {
        lemma_shortened(v);
        lemma_normalized_unit(v);
    }
    let divisor: i128 = longest_of(x, y, z) / (SHORT as i128) + 1;
    let ux: i128 = quot_wide(x, divisor);
    let uy: i128 = quot_wide(y, divisor);
    let uz: i128 = quot_wide(z, divisor);
    proof {
        lemma_dot_exact_bound(v.shortened(), v.shortened(), SHORT as int, SHORT as int);
        lemma_product_bound(ux as int, ux as int, SHORT as int, SHORT as int);
        lemma_product_bound(uy as int, uy as int, SHORT as int, SHORT as int);
        lemma_product_bound(uz as int, uz as int, SHORT as int, SHORT as int);
        assert(SHORT * SHORT == 1_000_000_000_000_000_000_000_000) by (nonlinear_arith)
            requires
                SHORT == 1_000_000_000_000,
        ;
        assert(ux * ux >= 0 && uy * uy >= 0 && uz * uz >= 0) by (nonlinear_arith);
    }
    let q: i128 = ux * ux + uy * uy + uz * uz;
    if q > 0 {
        let squared_scale: i128 = (SCALE as i128) * (SCALE as i128);
        proof {
            assert(q * squared_scale <= 3_000_000_000_000_000_000_000_000_000_000_000_000)
                by (nonlinear_arith)
                requires
                    0 <= q <= 3_000_000_000_000_000_000_000_000,
                    squared_scale == 1_000_000_000_000,
            ;
            lemma_isqrt(q * squared_scale);
        }
        let root: i128 = int_sqrt((q * squared_scale) as u128) as i128;
        proof {
            assert(SCALE * SCALE <= q * squared_scale) by (nonlinear_arith)
                requires
                    q >= 1,
                    squared_scale == SCALE * SCALE,
                    SCALE > 0,
            ;
            lemma_square_below(SCALE as int, root as int, q * squared_scale);
            lemma_product_bound(ux as int, squared_scale as int, SHORT as int, squared_scale as int);
            lemma_product_bound(uy as int, squared_scale as int, SHORT as int, squared_scale as int);
            lemma_product_bound(uz as int, squared_scale as int, SHORT as int, squared_scale as int);
        }
        Vec3 {
            x: quot_wide(ux * squared_scale, root) as i64,
            y: quot_wide(uy * squared_scale, root) as i64,
            z: quot_wide(uz * squared_scale, root) as i64,
        }
    } else {
        Vec3::zero()
    }
}

} // verus!
