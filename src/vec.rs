use vstd::prelude::*;

verus! {

/// A three-component vector over a copyable scalar.
#[derive(Copy, Clone)]
pub struct Vec3<T> where T: Copy {
    pub x: T,
    pub y: T,
    pub z: T,
}

impl<T> Vec3<T> where T: Copy {
    /// The vector whose three components all equal `a`.
    pub fn new_uniform(a: T) -> (r: Self)
        ensures
            r.x == a,
            r.y == a,
            r.z == a,
    {
        Vec3 { x: a, y: a, z: a }
    }
}

/// The fixed-point scale of a unit vector: `normalized` gives vectors of this length.
pub const UNIT: i64 = 65536;

/// The value fits an `i64`.
pub open spec fn in_i64(v: int) -> bool {
    i64::MIN <= v <= i64::MAX
}

/// Division rounding toward zero, as Rust's `/` does on signed integers.
pub open spec fn div_toward_zero(a: int, b: int) -> int {
    let q = abs(a) / abs(b);
    if (a >= 0) == (b >= 0) {
        q
    } else {
        -q
    }
}

/// The absolute value.
pub open spec fn abs(a: int) -> int {
    if a >= 0 {
        a
    } else {
        -a
    }
}

/// `a / b` rounded toward zero.
pub fn quot(a: i64, b: i64) -> (r: i64)
    requires
        b != 0,
        !(a == i64::MIN && b == -1),
    ensures
        r == div_toward_zero(a as int, b as int),
{
    let ua: u64 = if a >= 0 { a as u64 } else { (-(a as i128)) as u64 };
    let ub: u64 = if b >= 0 { b as u64 } else { (-(b as i128)) as u64 };
    let q: u64 = ua / ub;
    assert(ua == abs(a as int) && ub == abs(b as int));
    assert(q <= ua) by (nonlinear_arith)
        requires ub >= 1, q == ua / ub;
    assert(ub >= 2 ==> q * 2 <= ua) by (nonlinear_arith)
        requires ub >= 1, q == ua / ub;
    if (a >= 0) == (b >= 0) {
        q as i64
    } else {
        (-(q as i128)) as i64
    }
}

/// The dot product, exactly.
pub open spec fn dot_spec(a: Vec3<i64>, b: Vec3<i64>) -> int {
    a.x * b.x + a.y * b.y + a.z * b.z
}

/// The squared length, exactly.
pub open spec fn sqr_spec(a: Vec3<i64>) -> int {
    dot_spec(a, a)
}

/// `r` is `v` scaled to length `UNIT`: each component is `c * UNIT² / m` rounded toward
/// zero, where `m` is the floor of `UNIT` times the length of `v`. The zero vector stays as
/// it is.
pub open spec fn is_normalized_of(r: Vec3<i64>, v: Vec3<i64>) -> bool {
    if sqr_spec(v) > 0 {
        let m = root(sqr_spec(v) * (UNIT * UNIT));
        &&& r.x == div_toward_zero(v.x * (UNIT * UNIT), m)
        &&& r.y == div_toward_zero(v.y * (UNIT * UNIT), m)
        &&& r.z == div_toward_zero(v.z * (UNIT * UNIT), m)
    } else {
        r == v
    }
}

/// Every step of the dot product of `a` and `b` fits an `i64`.
pub open spec fn dot_fits(a: Vec3<i64>, b: Vec3<i64>) -> bool {
    &&& in_i64(a.x * b.x)
    &&& in_i64(a.y * b.y)
    &&& in_i64(a.z * b.z)
    &&& in_i64(a.x * b.x + a.y * b.y)
    &&& in_i64(dot_spec(a, b))
}

/// `r` is the floor of the square root of `n`.
pub open spec fn is_root(r: int, n: int) -> bool {
    0 <= r && r * r <= n && n < (r + 1) * (r + 1)
}

/// The floor of the square root of a non-negative `n`.
pub open spec fn root(n: int) -> int {
    choose|r: int| is_root(r, n)
}

/// The floor square root of `n` is unique.
pub proof fn lemma_root_unique(a: int, b: int, n: int)
    requires
        is_root(a, n),
        is_root(b, n),
    ensures
        a == b,
{
    if a < b {
        assert((a + 1) * (a + 1) <= b * b) by (nonlinear_arith)
            requires 0 <= a, a + 1 <= b;
    } else if b < a {
        assert((b + 1) * (b + 1) <= a * a) by (nonlinear_arith)
            requires 0 <= b, b + 1 <= a;
    }
}

/// Floor square root by bisection.
pub fn floor_sqrt(n: u128) -> (r: u128)
    ensures
        is_root(r as int, n as int),
        r == root(n as int),
{
    let mut lo: u128 = 0;
    let mut hi: u128 = 0x1_0000_0000_0000_0000;
    assert(n < 0x1_0000_0000_0000_0000 * 0x1_0000_0000_0000_0000);
    while hi - lo > 1
        invariant
            lo < hi <= 0x1_0000_0000_0000_0000,
            lo * lo <= n,
            n < hi * hi,
        decreases hi - lo,
    {
        let mid: u128 = lo + (hi - lo) / 2;
        assert(mid * mid < 0x1_0000_0000_0000_0000 * 0x1_0000_0000_0000_0000) by (nonlinear_arith)
            requires mid < 0x1_0000_0000_0000_0000;
        if mid * mid <= n {
            lo = mid;
        } else {
            hi = mid;
        }
    }
    assert(hi == lo + 1);
    assert(is_root(lo as int, n as int));
    proof {
        lemma_root_unique(lo as int, root(n as int), n as int);
    }
    lo
}

/// `c * UNIT² / m` rounded toward zero, for a component `c` whose square fits an `i64` and a
/// divisor `m` of at least `UNIT`.
fn unit_component(c: i64, m: u128) -> (r: i64)
    requires
        c * c <= i64::MAX,
        UNIT <= m < 0x1_0000_0000_0000_0000,
    ensures
        r == div_toward_zero(c * (UNIT * UNIT), m as int),
{
    proof {
        lemma_square_bound(c as int);
    }
    let a: u128 = if c >= 0 { c as u128 } else { (-(c as i128)) as u128 };
    assert(a <= 3037000499);
    assert(a * 4294967296 <= 3037000499 * 4294967296) by (nonlinear_arith)
        requires a <= 3037000499;
    let q: u128 = (a * 4294967296) / m;
    assert(q * 65536 <= a * 4294967296) by (nonlinear_arith)
        requires m >= 65536, q == (a * 4294967296) / (m as int);
    assert(abs(c * (UNIT * UNIT)) == a * 4294967296) by (nonlinear_arith)
        requires a == abs(c as int), UNIT == 65536;
    if c >= 0 {
        q as i64
    } else {
        -(q as i64)
    }
}

impl Vec3<i64> {
    /// The dot product `x*x' + y*y' + z*z'`.
    pub fn dot_product(self, rhs: Self) -> (r: i64)
        requires
            dot_fits(self, rhs),
        ensures
            r == dot_spec(self, rhs),
    {
        self.x * rhs.x + self.y * rhs.y + self.z * rhs.z
    }

    /// The squared length, the dot product of the vector with itself.
    pub fn sqr_magnitude(&self) -> (r: i64)
        requires
            sqr_spec(*self) <= i64::MAX,
        ensures
            r == sqr_spec(*self),
            r >= 0,
    {
        proof {
            lemma_squares_fit(*self);
        }
        self.x * self.x + self.y * self.y + self.z * self.z
    }

    /// The length, rounded down to an integer.
    pub fn magnitude(&self) -> (r: i64)
        requires
            sqr_spec(*self) <= i64::MAX,
        ensures
            r == root(sqr_spec(*self)),
            is_root(r as int, sqr_spec(*self)),
    {
        let s = self.sqr_magnitude();
        let m = floor_sqrt(s as u128);
        assert(m <= 3037000499) by {
            if m > 3037000499 {
                assert(m * m >= 3037000500 * 3037000500) by (nonlinear_arith)
                    requires m >= 3037000500;
            }
        }
        m as i64
    }

    /// The vector scaled to length `UNIT`, each component rounded toward zero; the zero
    /// vector is returned as it is.
    pub fn normalized(self) -> (r: Self)
        requires
            sqr_spec(self) <= i64::MAX,
        ensures
            is_normalized_of(r, self),
            sqr_spec(self) == 0 ==> r == self,
    {
        let s = self.sqr_magnitude();
        if s > 0 {
            let n: u128 = (s as u128) * 4294967296;
            let m = floor_sqrt(n);
            proof {
                lemma_unit_root(s as int, m as int);
                lemma_squares_fit(self);
            }
            Vec3 {
                x: unit_component(self.x, m),
                y: unit_component(self.y, m),
                z: unit_component(self.z, m),
            }
        } else {
            self
        }
    }

    /// Component-wise sum.
    pub fn add(self, rhs: Self) -> (r: Self)
        requires
            in_i64(self.x + rhs.x),
            in_i64(self.y + rhs.y),
            in_i64(self.z + rhs.z),
        ensures
            r.x == self.x + rhs.x,
            r.y == self.y + rhs.y,
            r.z == self.z + rhs.z,
    {
        Vec3 { x: self.x + rhs.x, y: self.y + rhs.y, z: self.z + rhs.z }
    }

    /// Component-wise difference.
    pub fn sub(self, rhs: Self) -> (r: Self)
        requires
            in_i64(self.x - rhs.x),
            in_i64(self.y - rhs.y),
            in_i64(self.z - rhs.z),
        ensures
            r.x == self.x - rhs.x,
            r.y == self.y - rhs.y,
            r.z == self.z - rhs.z,
    {
        Vec3 { x: self.x - rhs.x, y: self.y - rhs.y, z: self.z - rhs.z }
    }

    /// Component-wise product.
    pub fn mul(self, rhs: Self) -> (r: Self)
        requires
            in_i64(self.x * rhs.x),
            in_i64(self.y * rhs.y),
            in_i64(self.z * rhs.z),
        ensures
            r.x == self.x * rhs.x,
            r.y == self.y * rhs.y,
            r.z == self.z * rhs.z,
    {
        Vec3 { x: self.x * rhs.x, y: self.y * rhs.y, z: self.z * rhs.z }
    }

    /// Every component multiplied by the scalar `k`.
    pub fn scale(self, k: i64) -> (r: Self)
        requires
            in_i64(self.x * k),
            in_i64(self.y * k),
            in_i64(self.z * k),
        ensures
            r.x == self.x * k,
            r.y == self.y * k,
            r.z == self.z * k,
    {
        Vec3 { x: self.x * k, y: self.y * k, z: self.z * k }
    }

    /// Component-wise quotient, rounded toward zero.
    pub fn div(self, rhs: Self) -> (r: Self)
        requires
            rhs.x != 0,
            rhs.y != 0,
            rhs.z != 0,
            !(self.x == i64::MIN && rhs.x == -1),
            !(self.y == i64::MIN && rhs.y == -1),
            !(self.z == i64::MIN && rhs.z == -1),
        ensures
            r.x == div_toward_zero(self.x as int, rhs.x as int),
            r.y == div_toward_zero(self.y as int, rhs.y as int),
            r.z == div_toward_zero(self.z as int, rhs.z as int),
    {
        Vec3 { x: quot(self.x, rhs.x), y: quot(self.y, rhs.y), z: quot(self.z, rhs.z) }
    }

    /// Every component negated.
    pub fn neg(self) -> (r: Self)
        requires
            self.x != i64::MIN,
            self.y != i64::MIN,
            self.z != i64::MIN,
        ensures
            r.x == -self.x,
            r.y == -self.y,
            r.z == -self.z,
    {
        Vec3 { x: -self.x, y: -self.y, z: -self.z }
    }

    /// Adds `rhs` in place.
    pub fn add_assign(&mut self, rhs: Self)
        requires
            in_i64(old(self).x + rhs.x),
            in_i64(old(self).y + rhs.y),
            in_i64(old(self).z + rhs.z),
        ensures
            final(self).x == old(self).x + rhs.x,
            final(self).y == old(self).y + rhs.y,
            final(self).z == old(self).z + rhs.z,
    {
        *self = self.add(rhs);
    }

    /// Subtracts `rhs` in place.
    pub fn sub_assign(&mut self, rhs: Self)
        requires
            in_i64(old(self).x - rhs.x),
            in_i64(old(self).y - rhs.y),
            in_i64(old(self).z - rhs.z),
        ensures
            final(self).x == old(self).x - rhs.x,
            final(self).y == old(self).y - rhs.y,
            final(self).z == old(self).z - rhs.z,
    {
        *self = self.sub(rhs);
    }

    /// Multiplies by `rhs` component-wise in place.
    pub fn mul_assign(&mut self, rhs: Self)
        requires
            in_i64(old(self).x * rhs.x),
            in_i64(old(self).y * rhs.y),
            in_i64(old(self).z * rhs.z),
        ensures
            final(self).x == old(self).x * rhs.x,
            final(self).y == old(self).y * rhs.y,
            final(self).z == old(self).z * rhs.z,
    {
        *self = self.mul(rhs);
    }

    /// Divides by `rhs` component-wise in place, rounding toward zero.
    pub fn div_assign(&mut self, rhs: Self)
        requires
            rhs.x != 0,
            rhs.y != 0,
            rhs.z != 0,
            !(old(self).x == i64::MIN && rhs.x == -1),
            !(old(self).y == i64::MIN && rhs.y == -1),
            !(old(self).z == i64::MIN && rhs.z == -1),
        ensures
            final(self).x == div_toward_zero(old(self).x as int, rhs.x as int),
            final(self).y == div_toward_zero(old(self).y as int, rhs.y as int),
            final(self).z == div_toward_zero(old(self).z as int, rhs.z as int),
    {
        *self = self.div(rhs);
    }
}

impl Default for Vec3<i64> {
    /// The zero vector.
    fn default() -> (r: Self)
        ensures
            r.x == 0 && r.y == 0 && r.z == 0,
    {
        Vec3 { x: 0, y: 0, z: 0 }
    }
}

/// Every non-negative integer has a floor square root.
pub proof fn lemma_root_exists(n: int)
    requires
        n >= 0,
    ensures
        is_root(root(n), n),
    decreases n,
{
    if n == 0 {
        assert(is_root(0, 0));
    } else {
        lemma_root_exists(n - 1);
        let r = root(n - 1);
        if (r + 1) * (r + 1) <= n {
            assert((r + 1) * (r + 1) < (r + 2) * (r + 2)) by (nonlinear_arith)
                requires r >= 0;
            assert(is_root(r + 1, n));
        } else {
            assert(is_root(r, n));
        }
    }
}

/// The floor of `UNIT` times a nonzero length is at least `UNIT` and below 2^64.
pub proof fn lemma_unit_root(s: int, m: int)
    requires
        1 <= s <= i64::MAX,
        is_root(m, s * (UNIT * UNIT)),
    ensures
        UNIT <= m < 0x1_0000_0000_0000_0000,
{
    assert(UNIT <= m) by (nonlinear_arith)
        requires 0 <= m, s * (UNIT * UNIT) < (m + 1) * (m + 1), s >= 1, UNIT == 65536;
    assert(m < 0x1_0000_0000_0000_0000) by (nonlinear_arith)
        requires 0 <= m, m * m <= s * (UNIT * UNIT), s <= i64::MAX, UNIT == 65536;
}

/// One normalized component `q = c * k / m`, rounded toward zero, lies within one of the
/// exact quotient: `|q| * m <= |c| * k < (|q| + 1) * m`, and so for the squares.
pub proof fn lemma_component_rounding(c: int, k: int, m: int, q: int)
    requires
        m >= 1,
        k >= 0,
        q == div_toward_zero(c * k, m),
    ensures
        q * q * (m * m) <= c * c * (k * k),
        c * c * (k * k) < (abs(q) + 1) * (abs(q) + 1) * (m * m),
{
    let a = abs(c * k);
    let big_q = a / m;
    vstd::arithmetic::div_mod::lemma_fundamental_div_mod(a, m);
    vstd::arithmetic::div_mod::lemma_mod_pos_bound(a, m);
    assert(m * (big_q + 1) == m * big_q + m) by (nonlinear_arith);
    assert(abs(m) == m);
    assert(abs(q) == big_q);
    assert(m * big_q <= a && a < m * (big_q + 1));
    assert(a * a == c * c * (k * k)) by (nonlinear_arith)
        requires a == abs(c * k), k >= 0;
    assert(q * q == big_q * big_q) by (nonlinear_arith)
        requires abs(q) == big_q;
    assert((m * big_q) * (m * big_q) <= a * a) by (nonlinear_arith)
        requires 0 <= m * big_q, m * big_q <= a;
    assert(a * a < (m * (big_q + 1)) * (m * (big_q + 1))) by (nonlinear_arith)
        requires 0 <= a, a < m * (big_q + 1);
    assert(q * q * (m * m) == (m * big_q) * (m * big_q)) by (nonlinear_arith)
        requires q * q == big_q * big_q;
    assert((abs(q) + 1) * (abs(q) + 1) * (m * m) == (m * (big_q + 1)) * (m * (big_q + 1)))
        by (nonlinear_arith)
        requires abs(q) == big_q;
}

/// A nonzero vector, once normalized, has length `UNIT` up to the rounding of its
/// components: its squared length is below `(UNIT + 1)²`, and adding one to the magnitude
/// of each component takes the squared length past `UNIT²`.
pub proof fn lemma_normalized_length(v: Vec3<i64>, u: Vec3<i64>)
    requires
        0 < sqr_spec(v) <= i64::MAX,
        is_normalized_of(u, v),
    ensures
        sqr_spec(u) < (UNIT + 1) * (UNIT + 1),
        UNIT * UNIT < (abs(u.x as int) + 1) * (abs(u.x as int) + 1) + (abs(u.y as int) + 1) * (
        abs(u.y as int) + 1) + (abs(u.z as int) + 1) * (abs(u.z as int) + 1),
{
    let s = sqr_spec(v);
    let uu = UNIT * UNIT;
    assert(uu == 4294967296);
    let n = s * uu;
    assert(n >= 0) by (nonlinear_arith)
        requires s >= 0, uu >= 0, n == s * uu;
    lemma_root_exists(n);
    let m = root(n);
    lemma_unit_root(s, m);
    lemma_component_rounding(v.x as int, uu, m, u.x as int);
    lemma_component_rounding(v.y as int, uu, m, u.y as int);
    lemma_component_rounding(v.z as int, uu, m, u.z as int);
    let mm = m * m;
    let kk = uu * uu;
    assert(mm > 0) by (nonlinear_arith)
        requires m >= 1, mm == m * m;
    assert(sqr_spec(u) * mm == u.x * u.x * mm + u.y * u.y * mm + u.z * u.z * mm)
        by (nonlinear_arith)
        requires sqr_spec(u) == u.x * u.x + u.y * u.y + u.z * u.z;
    assert(kk * s == v.x * v.x * kk + v.y * v.y * kk + v.z * v.z * kk) by (nonlinear_arith)
        requires s == v.x * v.x + v.y * v.y + v.z * v.z;
    // Upper bound: |u|² m² <= s UNIT⁴ = n UNIT² < (m + 1)² UNIT² <= (UNIT + 1)² m².
    assert(sqr_spec(u) * mm <= kk * s);
    assert(kk * s == n * uu) by (nonlinear_arith)
        requires n == s * uu, kk == uu * uu;
    assert(n * uu < (m + 1) * (m + 1) * uu) by (nonlinear_arith)
        requires n < (m + 1) * (m + 1), uu > 0;
    assert((m + 1) * (m + 1) * uu <= (UNIT + 1) * (UNIT + 1) * mm) by (nonlinear_arith)
        requires UNIT <= m, uu == UNIT * UNIT, mm == m * m, UNIT > 0;
    assert(sqr_spec(u) < (UNIT + 1) * (UNIT + 1)) by (nonlinear_arith)
        requires
            sqr_spec(u) * mm < (UNIT + 1) * (UNIT + 1) * mm,
            mm > 0;
    // Lower bound: (sum of (|q| + 1)²) m² > s UNIT⁴ = n UNIT² >= m² UNIT².
    let ax = abs(u.x as int) + 1;
    let ay = abs(u.y as int) + 1;
    let az = abs(u.z as int) + 1;
    let t = ax * ax + ay * ay + az * az;
    assert(t * mm == ax * ax * mm + ay * ay * mm + az * az * mm) by (nonlinear_arith)
        requires t == ax * ax + ay * ay + az * az;
    assert(mm * uu <= n * uu) by (nonlinear_arith)
        requires mm <= n, uu >= 0;
    assert(uu < t) by (nonlinear_arith)
        requires uu * mm < t * mm, mm > 0;
}

/// A number whose square fits an `i64` is at most 3037000499 in absolute value.
pub proof fn lemma_square_bound(c: int)
    requires
        c * c <= i64::MAX,
    ensures
        -3037000499 <= c <= 3037000499,
{
    if c > 3037000499 {
        assert(c * c >= 3037000500 * 3037000500) by (nonlinear_arith)
            requires c >= 3037000500;
    } else if c < -3037000499 {
        assert(c * c >= 3037000500 * 3037000500) by (nonlinear_arith)
            requires c <= -3037000500;
    }
}

/// Each square is non-negative, so a squared length that fits keeps each step in range.
pub proof fn lemma_squares_fit(a: Vec3<i64>)
    ensures
        a.x * a.x >= 0,
        a.y * a.y >= 0,
        a.z * a.z >= 0,
        a.x * a.x <= sqr_spec(a),
        a.y * a.y <= sqr_spec(a),
        a.z * a.z <= sqr_spec(a),
        a.x * a.x + a.y * a.y <= sqr_spec(a),
{
    assert(a.x * a.x >= 0) by (nonlinear_arith);
    assert(a.y * a.y >= 0) by (nonlinear_arith);
    assert(a.z * a.z >= 0) by (nonlinear_arith);
}

} // verus!
