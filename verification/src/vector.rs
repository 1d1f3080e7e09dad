//! Points and vectors in three dimensions, in raw fixed-point units.

use vstd::prelude::*;
use crate::fixed::{div_round, div_toward_zero, floor_sqrt, fx_mul, isqrt, lemma_floor_sqrt,
    lemma_floor_sqrt_unique, lemma_product_bounded, lemma_quotient_bounded, mul_fx, mul_wide, LIMIT, ONE};

verus! {

/// The largest component, in raw units, of a vector that is scaled up before it is
/// normalised: a million units.
pub const SHORT: i64 = 1_000_000_000_000;

/// A triple of mathematical integers: the model of both points and vectors.
pub struct V3 {
    pub x: int,
    pub y: int,
    pub z: int,
}

impl V3 {
    /// The vector without length.
    pub open spec fn zero() -> V3 {
        V3 { x: 0, y: 0, z: 0 }
    }

    /// The sum, component by component.
    pub open spec fn plus(self, o: V3) -> V3 {
        V3 { x: self.x + o.x, y: self.y + o.y, z: self.z + o.z }
    }

    /// The difference, component by component.
    pub open spec fn minus(self, o: V3) -> V3 {
        V3 { x: self.x - o.x, y: self.y - o.y, z: self.z - o.z }
    }

    /// The sum of the products of the components, in squared raw units.
    pub open spec fn dot(self, o: V3) -> int {
        self.x * o.x + self.y * o.y + self.z * o.z
    }

    /// The fixed-point inner product.
    pub open spec fn dot_fx(self, o: V3) -> int {
        div_toward_zero(self.dot(o), ONE as int)
    }

    /// The square of the Euclidean length, in squared raw units.
    pub open spec fn norm_sq(self) -> int {
        self.dot(self)
    }

    /// The Euclidean length, rounded down to a whole raw unit.
    pub open spec fn length(self) -> int {
        floor_sqrt(self.norm_sq())
    }

    /// Each component multiplied by the fixed-point scalar `k`.
    pub open spec fn scaled(self, k: int) -> V3 {
        V3 { x: fx_mul(self.x, k), y: fx_mul(self.y, k), z: fx_mul(self.z, k) }
    }

    /// This vector, scaled up a million times if none of its components exceeds `SHORT`
    /// in magnitude.
    pub open spec fn stretched(self) -> V3 {
        if self.within(SHORT as int) {
            V3 { x: self.x * ONE, y: self.y * ONE, z: self.z * ONE }
        } else {
            self
        }
    }

    /// The vector of length one in the same direction; zero for the zero vector.
    ///
    /// A short vector is scaled up first, so that rounding its length down to a whole raw
    /// unit takes no more than a millionth of it.
    pub open spec fn unit(self) -> V3 {
        self.stretched().over_length()
    }

    /// Each component divided by the length that was rounded down to a whole raw unit;
    /// zero for the zero vector.
    pub open spec fn over_length(self) -> V3 {
        let l = self.length();
        if l == 0 {
            V3::zero()
        } else {
            V3 {
                x: div_toward_zero(self.x * ONE, l),
                y: div_toward_zero(self.y * ONE, l),
                z: div_toward_zero(self.z * ONE, l),
            }
        }
    }

    /// This direction less twice its part along the unit normal `n`.
    pub open spec fn mirrored(self, n: V3) -> V3 {
        self.minus(n.scaled(2 * self.dot_fx(n)))
    }

    /// The mirror image of this direction in the surface with unit normal `n`: this
    /// direction less twice its part along `n`, brought back to length one.
    pub open spec fn reflected(self, n: V3) -> V3 {
        self.mirrored(n).unit()
    }

    /// The length is one to within six millionths of its square.
    pub open spec fn is_unit(self) -> bool {
        ONE * ONE - 6 * ONE <= self.norm_sq() <= ONE * ONE + 6 * ONE
    }

    /// The length is at most one, to within six millionths of its square: so for the
    /// zero vector and for every vector of length one.
    pub open spec fn at_most_unit(self) -> bool {
        self.norm_sq() <= ONE * ONE + 6 * ONE
    }

    /// No component exceeds `b` in magnitude.
    pub open spec fn within(self, b: int) -> bool {
        &&& -b <= self.x <= b
        &&& -b <= self.y <= b
        &&& -b <= self.z <= b
    }
}

/// No component of a vector exceeds its length in magnitude.
pub proof fn lemma_component_le_length(v: V3)
    ensures
        v.length() >= 0,
        v.within(v.length()),
{
    let l = v.length();
    let n = v.norm_sq();
    assert(n >= 0 && v.x * v.x <= n && v.y * v.y <= n && v.z * v.z <= n) by (nonlinear_arith)
        requires
            n == v.x * v.x + v.y * v.y + v.z * v.z,
    ;
    lemma_floor_sqrt(n);
    assert(-l <= v.x <= l) by (nonlinear_arith)
        requires
            l >= 0,
            v.x * v.x < (l + 1) * (l + 1),
    ;
    assert(-l <= v.y <= l) by (nonlinear_arith)
        requires
            l >= 0,
            v.y * v.y < (l + 1) * (l + 1),
    ;
    assert(-l <= v.z <= l) by (nonlinear_arith)
        requires
            l >= 0,
            v.z * v.z < (l + 1) * (l + 1),
    ;
}

/// Scaling a component by a ratio of at most one in magnitude stays within the scale.
pub proof fn lemma_ratio_bounded(c: int, l: int, k: int)
    requires
        l > 0,
        k >= 0,
        -l <= c <= l,
    ensures
        -k <= div_toward_zero(c * k, l) <= k,
{
    if c >= 0 {
        assert(0 <= c * k <= l * k) by (nonlinear_arith)
            requires
                0 <= c <= l,
                k >= 0,
        ;
        assert(0 <= (c * k) / l <= k) by (nonlinear_arith)
            requires
                0 <= c * k <= l * k,
                l > 0,
        ;
    } else {
        assert(0 <= -(c * k) <= l * k) by (nonlinear_arith)
            requires
                -l <= c < 0,
                k >= 0,
        ;
        let a = -(c * k);
        assert(0 <= a / l <= k) by (nonlinear_arith)
            requires
                0 <= a <= l * k,
                l > 0,
        ;
        if c * k >= 0 {
            assert(c * k == 0);
        }
    }
}

/// A vector over its length has components of magnitude at most one.
pub proof fn lemma_over_length_within(v: V3)
    ensures
        v.over_length().within(ONE as int),
{
    lemma_component_le_length(v);
    let l = v.length();
    if l != 0 {
        lemma_ratio_bounded(v.x, l, ONE as int);
        lemma_ratio_bounded(v.y, l, ONE as int);
        lemma_ratio_bounded(v.z, l, ONE as int);
    }
}

/// How far a quotient rounded down falls short: for a dividend `a` and a divisor `l`,
/// the square of quotient times divisor lies between `a * a - 2 * a * l` and `a * a`.
pub proof fn lemma_quotient_square(a: int, l: int)
    requires
        a >= 0,
        l >= 1,
    ensures
        0 <= a / l,
        (a / l) * l <= a < (a / l) * l + l,
        (a / l) * (a / l) * l * l <= a * a,
        (a / l) * (a / l) * l * l >= a * a - 2 * a * l,
{
    let q = a / l;
    assert(0 <= q && q * l <= a < q * l + l) by (nonlinear_arith)
        requires
            q == a / l,
            a >= 0,
            l >= 1,
    ;
    let t = q * l;
    assert(q * q * l * l == t * t) by (nonlinear_arith)
        requires
            t == q * l,
    ;
    assert(t * t <= a * a) by (nonlinear_arith)
        requires
            0 <= t <= a,
    ;
    assert(t * t >= a * a - 2 * a * l) by (nonlinear_arith)
        requires
            0 <= t,
            t > a - l,
            a >= 0,
            l >= 1,
    ;
}

/// One component of a normalised vector: it has the sign of the component it comes
/// from, and times the length it falls short of that component by less than the length.
pub proof fn lemma_unit_component(c: int, l: int)
    requires
        l >= 1,
        -l <= c <= l,
    ensures
        ({
            let q = div_toward_zero(c * ONE, l);
            &&& q * c >= 0
            &&& c * ONE >= l ==> q * c > 0
            &&& -(c * ONE) >= l ==> q * c > 0
            &&& q * q * l * l <= (c * ONE) * (c * ONE)
            &&& q * q * l * l >= (c * ONE) * (c * ONE) - 2 * ONE * l * l
        }),
{
    let q = div_toward_zero(c * ONE, l);
    let a = if c >= 0 { c * ONE } else { -(c * ONE) };
    let m = a / l;
    lemma_quotient_square(a, l);
    assert(a * a == (c * ONE) * (c * ONE)) by (nonlinear_arith)
        requires
            a == c * ONE || a == -(c * ONE),
    ;
    assert(q * q == m * m) by (nonlinear_arith)
        requires
            q == m || q == -m,
    ;
    assert(2 * a * l <= 2 * ONE * l * l) by (nonlinear_arith)
        requires
            0 <= a <= l * ONE,
            l >= 1,
    ;
    assert(q * c >= 0) by (nonlinear_arith)
        requires
            (c >= 0 && q >= 0) || (c <= 0 && q <= 0),
    ;
    if a >= l {
        assert(m >= 1) by (nonlinear_arith)
            requires
                m * l + l > a,
                a >= l,
                l >= 1,
        ;
        assert(q * c > 0) by (nonlinear_arith)
            requires
                (c > 0 && q >= 1) || (c < 0 && q <= -1),
        ;
    }
}

/// A vector other than zero, over its length, points the same way and has length one to
/// within rounding: its square length is at least one less six millionths, and exceeds
/// one by no more than the vector's own length was rounded down.
pub proof fn lemma_over_length(v: V3)
    requires
        v != V3::zero(),
    ensures
        v.length() >= 1,
        v.over_length().dot(v) > 0,
        v.over_length().norm_sq() >= ONE * ONE - 6 * ONE,
        v.over_length().norm_sq() * v.length() * v.length() <= ONE * ONE * v.norm_sq(),
        v.norm_sq() < (v.length() + 1) * (v.length() + 1),
{
    let l = v.length();
    let n = v.over_length();
    let w = v.norm_sq();
    lemma_component_le_length(v);
    assert(w >= 1 && w == v.x * v.x + v.y * v.y + v.z * v.z && (3 * (v.x * v.x) >= w || 3 * (v.y
        * v.y) >= w || 3 * (v.z * v.z) >= w)) by (nonlinear_arith)
        requires
            w == v.x * v.x + v.y * v.y + v.z * v.z,
            v.x != 0 || v.y != 0 || v.z != 0,
    ;
    lemma_floor_sqrt(w);
    assert(l >= 1) by {
        if l == 0 {
            assert((l + 1) * (l + 1) == 1);
        }
    }
    lemma_unit_component(v.x, l);
    lemma_unit_component(v.y, l);
    lemma_unit_component(v.z, l);
    let ax = n.x * n.x * l * l;
    let ay = n.y * n.y * l * l;
    let az = n.z * n.z * l * l;
    let bx = (v.x * ONE) * (v.x * ONE);
    let by_ = (v.y * ONE) * (v.y * ONE);
    let bz = (v.z * ONE) * (v.z * ONE);
    assert(n.norm_sq() * l * l == ax + ay + az) by (nonlinear_arith)
        requires
            n.norm_sq() == n.x * n.x + n.y * n.y + n.z * n.z,
            ax == n.x * n.x * l * l,
            ay == n.y * n.y * l * l,
            az == n.z * n.z * l * l,
    ;
    assert(ONE * ONE * w == bx + by_ + bz) by (nonlinear_arith)
        requires
            w == v.x * v.x + v.y * v.y + v.z * v.z,
            bx == (v.x * ONE) * (v.x * ONE),
            by_ == (v.y * ONE) * (v.y * ONE),
            bz == (v.z * ONE) * (v.z * ONE),
    ;
    assert(ONE * ONE * w >= ONE * ONE * (l * l)) by (nonlinear_arith)
        requires
            w >= l * l,
    ;
    let k = ONE * ONE - 6 * ONE;
    let nn = n.norm_sq();
    let ll = l * l;
    let e = ONE * ll;
    assert(2 * ONE * l * l == 2 * e && nn * l * l == nn * ll && ll >= 1) by (nonlinear_arith)
        requires
            ll == l * l,
            e == ONE * ll,
            l >= 1,
    ;
    assert(nn * ll >= ONE * ONE * ll - 6 * e);
    assert(nn >= k) by (nonlinear_arith)
        requires
            nn * ll >= ONE * ONE * ll - 6 * e,
            e == ONE * ll,
            k == ONE * ONE - 6 * ONE,
            ll >= 1,
    ;
    assert(n.dot(v) > 0) by {
        assert(l * l <= w);
        if 3 * (v.x * v.x) >= w {
            assert(v.x * ONE >= l || -(v.x * ONE) >= l) by (nonlinear_arith)
                requires
                    3 * (v.x * v.x) >= l * l,
                    l >= 1,
            ;
        } else if 3 * (v.y * v.y) >= w {
            assert(v.y * ONE >= l || -(v.y * ONE) >= l) by (nonlinear_arith)
                requires
                    3 * (v.y * v.y) >= l * l,
                    l >= 1,
            ;
        } else {
            assert(v.z * ONE >= l || -(v.z * ONE) >= l) by (nonlinear_arith)
                requires
                    3 * (v.z * v.z) >= l * l,
                    l >= 1,
            ;
        }
    }
}

/// A vector at least half as long as one, over its length, has length one to within six
/// millionths of its square.
pub proof fn lemma_over_length_is_unit(v: V3)
    requires
        v.length() >= 500_000,
    ensures
        v.over_length().is_unit(),
{
    let l = v.length();
    let rs = v.over_length().norm_sq();
    let w = v.norm_sq();
    assert(v != V3::zero()) by {
        if v == V3::zero() {
            assert(w == 0) by (nonlinear_arith)
                requires
                    w == v.x * v.x + v.y * v.y + v.z * v.z,
                    v.x == 0,
                    v.y == 0,
                    v.z == 0,
            ;
        }
    }
    lemma_over_length(v);
    assert(ONE * ONE == 1_000_000_000_000) by (nonlinear_arith)
        requires
            ONE == 1_000_000,
    ;
    assert(rs <= 1_000_000_000_000 + 6_000_000) by (nonlinear_arith)
        requires
            rs * l * l <= 1_000_000 * 1_000_000 * w,
            w < (l + 1) * (l + 1),
            l >= 500_000,
    ;
}

/// The normalised form of any vector but zero has length one, to within six millionths
/// of its square, and points the same way; no component exceeds one.
pub proof fn lemma_unit(v: V3)
    ensures
        v.unit().within(ONE as int),
        v != V3::zero() ==> v.unit().is_unit(),
        v != V3::zero() ==> v.unit().dot(v) > 0,
        v == V3::zero() ==> v.unit() == V3::zero(),
        v.unit().at_most_unit(),
{
    let w = v.stretched();
    let n = v.unit();
    lemma_over_length_within(w);
    if v == V3::zero() {
        assert(w == V3::zero());
        lemma_floor_sqrt_unique(0, 0);
    } else {
        let vs = v.norm_sq();
        assert(vs >= 1 && (v.x * v.x <= vs && v.y * v.y <= vs && v.z * v.z <= vs))
            by (nonlinear_arith)
            requires
                vs == v.x * v.x + v.y * v.y + v.z * v.z,
                v.x != 0 || v.y != 0 || v.z != 0,
        ;
        let ws = w.norm_sq();
        if v.within(SHORT as int) {
            assert(ws == 1_000_000_000_000 * vs) by (nonlinear_arith)
                requires
                    ws == (v.x * 1_000_000) * (v.x * 1_000_000) + (v.y * 1_000_000) * (v.y
                        * 1_000_000) + (v.z * 1_000_000) * (v.z * 1_000_000),
                    vs == v.x * v.x + v.y * v.y + v.z * v.z,
            ;
            assert(n.dot(w) == 1_000_000 * n.dot(v)) by (nonlinear_arith)
                requires
                    n.dot(w) == n.x * (v.x * 1_000_000) + n.y * (v.y * 1_000_000) + n.z * (v.z
                        * 1_000_000),
                    n.dot(v) == n.x * v.x + n.y * v.y + n.z * v.z,
            ;
        } else {
            assert(ws >= 1_000_000_000_000) by (nonlinear_arith)
                requires
                    ws == v.x * v.x + v.y * v.y + v.z * v.z,
                    v.x > 1_000_000 || v.x < -1_000_000 || v.y > 1_000_000 || v.y < -1_000_000
                        || v.z > 1_000_000 || v.z < -1_000_000,
            ;
        }
        lemma_floor_sqrt(ws);
        let l = w.length();
        assert(l >= 500_000) by (nonlinear_arith)
            requires
                l >= 0,
                (l + 1) * (l + 1) > ws,
                ws >= 1_000_000_000_000,
        ;
        lemma_over_length_is_unit(w);
        assert(w != V3::zero());
        lemma_over_length(w);
    }
}

/// The product of two squares is the square of the product.
proof fn lemma_square_of_product(p: int, q: int)
    ensures
        (p * p) * (q * q) == (p * q) * (p * q),
{
    assert((p * p) * (q * q) == (p * q) * (p * q)) by (nonlinear_arith);
}

/// The square of an inner product is at most the product of the square lengths.
pub proof fn lemma_dot_square(a: V3, b: V3)
    ensures
        a.dot(b) * a.dot(b) <= a.norm_sq() * b.norm_sq(),
{
    let xx = a.x * b.x;
    let xy = a.x * b.y;
    let xz = a.x * b.z;
    let yx = a.y * b.x;
    let yy = a.y * b.y;
    let yz = a.y * b.z;
    let zx = a.z * b.x;
    let zy = a.z * b.y;
    let zz = a.z * b.z;
    assert(xx * yy == xy * yx) by (nonlinear_arith)
        requires
            xx == a.x * b.x,
            yy == a.y * b.y,
            xy == a.x * b.y,
            yx == a.y * b.x,
    ;
    assert(yy * zz == yz * zy) by (nonlinear_arith)
        requires
            yy == a.y * b.y,
            zz == a.z * b.z,
            yz == a.y * b.z,
            zy == a.z * b.y,
    ;
    assert(zz * xx == zx * xz) by (nonlinear_arith)
        requires
            zz == a.z * b.z,
            xx == a.x * b.x,
            zx == a.z * b.x,
            xz == a.x * b.z,
    ;
    let dot = a.dot(b);
    assert(dot * dot == xx * xx + yy * yy + zz * zz + 2 * (xx * yy) + 2 * (yy * zz) + 2 * (zz
        * xx)) by (nonlinear_arith)
        requires
            dot == xx + yy + zz,
    ;
    let sa = a.norm_sq();
    let sb = b.norm_sq();
    assert(sa * sb == xx * xx + xy * xy + xz * xz + yx * yx + yy * yy + yz * yz + zx * zx + zy
        * zy + zz * zz) by {
        assert(sa * sb == (a.x * a.x) * sb + (a.y * a.y) * sb + (a.z * a.z) * sb)
            by (nonlinear_arith)
            requires
                sa == a.x * a.x + a.y * a.y + a.z * a.z,
        ;
        lemma_square_of_product(a.x, b.x);
        lemma_square_of_product(a.x, b.y);
        lemma_square_of_product(a.x, b.z);
        assert((a.x * a.x) * sb == (a.x * a.x) * (b.x * b.x) + (a.x * a.x) * (b.y * b.y) + (a.x
            * a.x) * (b.z * b.z)) by (nonlinear_arith)
            requires
                sb == b.x * b.x + b.y * b.y + b.z * b.z,
        ;
        lemma_square_of_product(a.y, b.x);
        lemma_square_of_product(a.y, b.y);
        lemma_square_of_product(a.y, b.z);
        assert((a.y * a.y) * sb == (a.y * a.y) * (b.x * b.x) + (a.y * a.y) * (b.y * b.y) + (a.y
            * a.y) * (b.z * b.z)) by (nonlinear_arith)
            requires
                sb == b.x * b.x + b.y * b.y + b.z * b.z,
        ;
        lemma_square_of_product(a.z, b.x);
        lemma_square_of_product(a.z, b.y);
        lemma_square_of_product(a.z, b.z);
        assert((a.z * a.z) * sb == (a.z * a.z) * (b.x * b.x) + (a.z * a.z) * (b.y * b.y) + (a.z
            * a.z) * (b.z * b.z)) by (nonlinear_arith)
            requires
                sb == b.x * b.x + b.y * b.y + b.z * b.z,
        ;
    }
    assert((xy - yx) * (xy - yx) == xy * xy + yx * yx - 2 * (xy * yx) && (xy - yx) * (xy - yx)
        >= 0) by (nonlinear_arith);
    assert((yz - zy) * (yz - zy) == yz * yz + zy * zy - 2 * (yz * zy) && (yz - zy) * (yz - zy)
        >= 0) by (nonlinear_arith);
    assert((zx - xz) * (zx - xz) == zx * zx + xz * xz - 2 * (zx * xz) && (zx - xz) * (zx - xz)
        >= 0) by (nonlinear_arith);
}

/// The inner product of two vectors of length at most one is at most one in magnitude,
/// to within six millionths.
pub proof fn lemma_dot_at_most_one(a: V3, b: V3)
    requires
        a.at_most_unit(),
        b.at_most_unit(),
    ensures
        -(ONE + 6) <= a.dot_fx(b) <= ONE + 6,
{
    lemma_dot_square(a, b);
    let dot = a.dot(b);
    let sa = a.norm_sq();
    let sb = b.norm_sq();
    assert(sa >= 0 && sb >= 0) by (nonlinear_arith)
        requires
            sa == a.x * a.x + a.y * a.y + a.z * a.z,
            sb == b.x * b.x + b.y * b.y + b.z * b.z,
    ;
    assert(ONE * ONE + 6 * ONE == 1_000_006_000_000) by (nonlinear_arith)
        requires
            ONE == 1_000_000,
    ;
    assert(-1_000_006_000_000 <= dot <= 1_000_006_000_000) by (nonlinear_arith)
        requires
            dot * dot <= sa * sb,
            0 <= sa <= 1_000_006_000_000,
            0 <= sb <= 1_000_006_000_000,
    ;
    lemma_quotient_bounded(dot, ONE as int, 1_000_006);
}

/// A step along a direction is no longer than the direction is, times the step: one
/// component's share.
proof fn lemma_step_component(c: int, step: int)
    requires
        step >= 0,
    ensures
        1_000_000_000_000 * (fx_mul(c, step) * fx_mul(c, step)) <= (c * c) * (step * step),
{
    let a = if c >= 0 { c * step } else { -(c * step) };
    assert(a >= 0 && a * a == (c * c) * (step * step)) by (nonlinear_arith)
        requires
            a == c * step || a == -(c * step),
            (c >= 0 && a == c * step) || (c < 0 && a == -(c * step)),
            step >= 0,
    ;
    lemma_quotient_square(a, 1_000_000);
    let q = a / 1_000_000;
    let f = fx_mul(c, step);
    assert(f * f == q * q) by (nonlinear_arith)
        requires
            f == q || f == -q,
    ;
    assert(q * q * 1_000_000 * 1_000_000 == 1_000_000_000_000 * (q * q)) by (nonlinear_arith);
}

/// A step along a direction of length one is no longer than the step, to within
/// rounding of the direction.
pub proof fn lemma_step_length(dir: V3, step: int)
    requires
        step >= 0,
    ensures
        ONE * ONE * dir.scaled(step).norm_sq() <= dir.norm_sq() * (step * step),
{
    lemma_step_component(dir.x, step);
    lemma_step_component(dir.y, step);
    lemma_step_component(dir.z, step);
    let ss = step * step;
    assert(dir.norm_sq() * ss == (dir.x * dir.x) * ss + (dir.y * dir.y) * ss + (dir.z * dir.z)
        * ss) by (nonlinear_arith)
        requires
            dir.norm_sq() == dir.x * dir.x + dir.y * dir.y + dir.z * dir.z,
    ;
    assert(ONE * ONE == 1_000_000_000_000) by (nonlinear_arith)
        requires
            ONE == 1_000_000,
    ;
}

/// A displacement or direction.
#[derive(Clone, Copy, Debug, PartialEq, Eq, Structural)]
pub struct Vector3 {
    pub x: i64,
    pub y: i64,
    pub z: i64,
}

/// A position in space.
#[derive(Clone, Copy, Debug, PartialEq, Eq, Structural)]
pub struct Point3 {
    pub x: i64,
    pub y: i64,
    pub z: i64,
}

impl View for Vector3 {
    type V = V3;

    open spec fn view(&self) -> V3 {
        V3 { x: self.x as int, y: self.y as int, z: self.z as int }
    }
}

impl View for Point3 {
    type V = V3;

    open spec fn view(&self) -> V3 {
        V3 { x: self.x as int, y: self.y as int, z: self.z as int }
    }
}

fn square(c: i64) -> (r: u128)
    requires
        -2 * LIMIT <= c <= 2 * LIMIT,
    ensures
        r == c * c,
        r <= 4 * LIMIT * LIMIT,
{
    let m: u128 = if c < 0 {
        (-c) as u128
    } else {
        c as u128
    };
    assert(m * m == c * c && m * m <= 4 * LIMIT * LIMIT) by (nonlinear_arith)
        requires
            m == c || m == -c,
            0 <= m <= 2 * LIMIT,
    ;
    m * m
}

impl Vector3 {
    pub fn new(x: i64, y: i64, z: i64) -> (v: Vector3)
        ensures
            v.x == x,
            v.y == y,
            v.z == z,
    {
        Vector3 { x, y, z }
    }

    /// The Euclidean length, rounded down.
    pub fn norm(&self) -> (r: i64)
        requires
            self@.within(2 * LIMIT),
        ensures
            r == self@.length(),
            0 <= r <= 4 * LIMIT,
    {
        let n: u128 = square(self.x) + square(self.y) + square(self.z);
        let r: u64 = isqrt(n);
        assert(r <= 4 * LIMIT) by (nonlinear_arith)
            requires
                r * r <= n,
                n <= 12 * LIMIT * LIMIT,
                LIMIT == 1_000_000_000_000_000_000,
        ;
        r as i64
    }

    /// Whether no component exceeds `SHORT` in magnitude.
    fn is_short(&self) -> (b: bool)
        ensures
            b == self@.within(SHORT as int),
    {
        -SHORT <= self.x && self.x <= SHORT && -SHORT <= self.y && self.y <= SHORT && -SHORT
            <= self.z && self.z <= SHORT
    }

    /// The vector of length one in the same direction, to within six millionths of its
    /// square length; the zero vector is returned unchanged.
    pub fn normalize(&self) -> (r: Vector3)
        requires
            self@.within(2 * LIMIT),
        ensures
            r@ == self@.unit(),
            r@.within(ONE as int),
            self@ != V3::zero() ==> r@.is_unit(),
            self@ == V3::zero() ==> r@ == V3::zero(),
            r@.at_most_unit(),
    {
        proof {
            lemma_unit(self@);
        }
        let wide = if self.is_short() {
            Vector3 { x: self.x * ONE, y: self.y * ONE, z: self.z * ONE }
        } else {
            *self
        };
        proof {
            lemma_over_length_within(wide@);
        }
        let l: i64 = wide.norm();
        if l == 0 {
            Vector3 { x: 0, y: 0, z: 0 }
        } else {
            let x: i128 = div_round(mul_wide(wide.x, ONE), l as i128);
            let y: i128 = div_round(mul_wide(wide.y, ONE), l as i128);
            let z: i128 = div_round(mul_wide(wide.z, ONE), l as i128);
            Vector3 { x: x as i64, y: y as i64, z: z as i64 }
        }
    }

    /// The fixed-point inner product with a vector whose components are at most one.
    pub fn dot(&self, o: &Vector3) -> (r: i64)
        requires
            self@.within(2 * LIMIT),
            o@.within(ONE as int),
        ensures
            r == self@.dot_fx(o@),
            -6 * LIMIT <= r <= 6 * LIMIT,
            self@.within(ONE as int) ==> -3 * ONE <= r <= 3 * ONE,
            self@.at_most_unit() && o@.at_most_unit() ==> -(ONE + 6) <= r <= ONE + 6,
    {
        proof {
            if self@.at_most_unit() && o@.at_most_unit() {
                lemma_dot_at_most_one(self@, o@);
            }
            if self@.within(ONE as int) {
                lemma_product_bounded(self.x as int, o.x as int, ONE as int, ONE as int);
                lemma_product_bounded(self.y as int, o.y as int, ONE as int, ONE as int);
                lemma_product_bounded(self.z as int, o.z as int, ONE as int, ONE as int);
                lemma_quotient_bounded(self@.dot(o@), ONE as int, 3 * ONE);
            }
            lemma_product_bounded(self.x as int, o.x as int, 2 * LIMIT, ONE as int);
            lemma_product_bounded(self.y as int, o.y as int, 2 * LIMIT, ONE as int);
            lemma_product_bounded(self.z as int, o.z as int, 2 * LIMIT, ONE as int);
            lemma_quotient_bounded(self@.dot(o@), ONE as int, 6 * LIMIT);
        }
        let a: i128 = mul_wide(self.x, o.x);
        let b: i128 = mul_wide(self.y, o.y);
        let c: i128 = mul_wide(self.z, o.z);
        let q: i128 = div_round(a + b + c, ONE as i128);
        q as i64
    }
    /// Each component multiplied by the fixed-point scalar `k`.
    pub fn scaled(&self, k: i64) -> (r: Vector3)
        requires
            self@.within(ONE as int),
            -4 * LIMIT <= k <= 4 * LIMIT,
        ensures
            r@ == self@.scaled(k as int),
            r@.within(if k >= 0 { k as int } else { -k }),
    {
        Vector3 { x: mul_fx(self.x, k), y: mul_fx(self.y, k), z: mul_fx(self.z, k) }
    }

    /// The difference of two vectors.
    pub fn minus(&self, o: &Vector3) -> (r: Vector3)
        requires
            self@.within(4 * LIMIT),
            o@.within(4 * LIMIT),
        ensures
            r@ == self@.minus(o@),
    {
        Vector3 { x: self.x - o.x, y: self.y - o.y, z: self.z - o.z }
    }
}

impl Point3 {
    pub fn new(x: i64, y: i64, z: i64) -> (p: Point3)
        ensures
            p.x == x,
            p.y == y,
            p.z == z,
    {
        Point3 { x, y, z }
    }

    /// Every coordinate lies within the representable world.
    pub open spec fn in_world(&self) -> bool {
        self@.within(LIMIT as int)
    }

    /// Whether every coordinate lies within the representable world.
    pub fn is_in_world(&self) -> (b: bool)
        ensures
            b == self.in_world(),
    {
        -LIMIT <= self.x && self.x <= LIMIT && -LIMIT <= self.y && self.y <= LIMIT && -LIMIT
            <= self.z && self.z <= LIMIT
    }

    /// The displacement that leads from `o` to this point.
    pub fn minus(&self, o: &Point3) -> (r: Vector3)
        requires
            self.in_world(),
            o.in_world(),
        ensures
            r@ == self@.minus(o@),
            r@.within(2 * LIMIT),
    {
        Vector3 { x: self.x - o.x, y: self.y - o.y, z: self.z - o.z }
    }

    /// This point moved by `v`, or `None` when that leaves the representable world.
    pub fn translate(&self, v: &Vector3) -> (r: Option<Point3>)
        requires
            self.in_world(),
            v@.within(4 * LIMIT),
        ensures
            match r {
                Some(p) => p@ == self@.plus(v@) && p.in_world(),
                None => !self@.plus(v@).within(LIMIT as int),
            },
    {
        let p = Point3 { x: self.x + v.x, y: self.y + v.y, z: self.z + v.z };
        if p.is_in_world() {
            Some(p)
        } else {
            None
        }
    }
}

} // verus!
