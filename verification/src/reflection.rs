//! Reflection of a direction in a surface, and what it keeps.

use vstd::prelude::*;
use crate::fixed::{div_toward_zero, lemma_floor_sqrt, lemma_product_bounded,
    lemma_quotient_bounded, lemma_quotient_remainder, ONE};
use crate::vector::{lemma_unit, V3};

verus! {

/// What rounding leaves of one component of a scaled normal, times the component.
proof fn lemma_scaled_component(t: int, c: int, k: int)
    requires
        -ONE <= c <= ONE,
        t == div_toward_zero(c * (2 * k), ONE as int),
    ensures
        -1_000_000_000_000 <= 1_000_000 * (t * c) - 2 * (k * (c * c)) <= 1_000_000_000_000,
{
    lemma_quotient_remainder(c * (2 * k), ONE as int);
    let e = c * (2 * k) - t * 1_000_000;
    assert(1_000_000 * (t * c) - 2 * (k * (c * c)) == -(e * c)) by (nonlinear_arith)
        requires
            e == c * (2 * k) - t * 1_000_000,
    ;
    assert(-1_000_000_000_000 <= e * c <= 1_000_000_000_000) by (nonlinear_arith)
        requires
            -1_000_000 < e < 1_000_000,
            -1_000_000 <= c <= 1_000_000,
    ;
}

/// Mirroring a direction in a surface flips its part along the unit normal: the inner
/// products of the normal with the direction and with its mirror image are opposite,
/// to within forty-one millionths.
pub proof fn lemma_mirror_flips_normal_part(d: V3, n: V3)
    requires
        d.within(ONE as int),
        n.within(ONE as int),
        n.is_unit(),
    ensures
        -41 * ONE <= d.mirrored(n).dot(n) + d.dot(n) <= 41 * ONE,
{
    let a = d.dot(n);
    let k = d.dot_fx(n);
    let t = n.scaled(2 * k);
    let m = d.mirrored(n);
    lemma_product_bounded(d.x, n.x, 1_000_000, 1_000_000);
    lemma_product_bounded(d.y, n.y, 1_000_000, 1_000_000);
    lemma_product_bounded(d.z, n.z, 1_000_000, 1_000_000);
    lemma_quotient_bounded(a, ONE as int, 3_000_000);
    lemma_quotient_remainder(a, ONE as int);
    lemma_scaled_component(t.x, n.x, k);
    lemma_scaled_component(t.y, n.y, k);
    lemma_scaled_component(t.z, n.z, k);
    let nn = n.norm_sq();
    let delta = nn - 1_000_000_000_000;
    let qx = n.x * n.x;
    let qy = n.y * n.y;
    let qz = n.z * n.z;
    assert(k * nn == k * qx + k * qy + k * qz) by (nonlinear_arith)
        requires
            nn == qx + qy + qz,
    ;
    assert(k * nn == k * 1_000_000_000_000 + k * delta) by (nonlinear_arith)
        requires
            nn == 1_000_000_000_000 + delta,
    ;
    assert(-18_000_000_000_000 <= k * delta <= 18_000_000_000_000) by (nonlinear_arith)
        requires
            -3_000_000 <= k <= 3_000_000,
            -6_000_000 <= delta <= 6_000_000,
    ;
    let tn = t.dot(n);
    let mn = m.dot(n);
    assert(mn == a - tn) by (nonlinear_arith)
        requires
            mn == (d.x - t.x) * n.x + (d.y - t.y) * n.y + (d.z - t.z) * n.z,
            a == d.x * n.x + d.y * n.y + d.z * n.z,
            tn == t.x * n.x + t.y * n.y + t.z * n.z,
    ;
    assert(-3_000_000_000_000 <= 1_000_000 * tn - 2 * (k * nn) <= 3_000_000_000_000);
    assert(-41_000_000_000_000 <= 1_000_000 * (mn + a) <= 41_000_000_000_000);
}

/// One component of a mirrored direction: how its square differs from that of the
/// direction's component.
proof fn lemma_mirrored_component(dc: int, nc: int, t: int, k: int)
    requires
        -ONE <= dc <= ONE,
        -ONE <= nc <= ONE,
        -3 * ONE <= k <= 3 * ONE,
        t == div_toward_zero(nc * (2 * k), ONE as int),
    ensures
        -14_000_001_000_000_000_000 <= 1_000_000_000_000 * ((dc - t) * (dc - t) - dc * dc)
            + 4_000_000 * (k * (dc * nc)) - 4 * (k * k * (nc * nc)) <= 14_000_001_000_000_000_000,
{
    lemma_quotient_remainder(nc * (2 * k), ONE as int);
    let e = nc * (2 * k) - t * 1_000_000;
    let ot = t * 1_000_000;
    let u = dc * e;
    let v = k * (nc * e);
    let w = e * e;
    assert(1_000_000_000_000 * ((dc - t) * (dc - t) - dc * dc) == ot * ot - 2_000_000 * (dc * ot))
        by (nonlinear_arith)
        requires
            ot == t * 1_000_000,
    ;
    assert(ot * ot == 4 * (k * k * (nc * nc)) - 4 * v + w) by (nonlinear_arith)
        requires
            ot == nc * (2 * k) - e,
            v == k * (nc * e),
            w == e * e,
    ;
    assert(dc * ot == 2 * (k * (dc * nc)) - u) by (nonlinear_arith)
        requires
            ot == nc * (2 * k) - e,
            u == dc * e,
    ;
    assert(-1_000_000_000_000 <= u <= 1_000_000_000_000) by (nonlinear_arith)
        requires
            u == dc * e,
            -1_000_000 <= dc <= 1_000_000,
            -1_000_000 < e < 1_000_000,
    ;
    let ne = nc * e;
    assert(-1_000_000_000_000 <= ne <= 1_000_000_000_000) by (nonlinear_arith)
        requires
            ne == nc * e,
            -1_000_000 <= nc <= 1_000_000,
            -1_000_000 < e < 1_000_000,
    ;
    assert(-3_000_000_000_000_000_000 <= v <= 3_000_000_000_000_000_000) by (nonlinear_arith)
        requires
            v == k * ne,
            -3_000_000 <= k <= 3_000_000,
            -1_000_000_000_000 <= ne <= 1_000_000_000_000,
    ;
    assert(0 <= w <= 1_000_000_000_000) by (nonlinear_arith)
        requires
            w == e * e,
            -1_000_000 < e < 1_000_000,
    ;
}

/// Mirroring a unit direction in a surface with unit normal keeps its length: the
/// squares of the lengths differ by no more than 271 millionths.
pub proof fn lemma_mirror_keeps_length(d: V3, n: V3)
    requires
        d.within(ONE as int),
        n.within(ONE as int),
        n.is_unit(),
    ensures
        -271 * ONE <= d.mirrored(n).norm_sq() - d.norm_sq() <= 271 * ONE,
{
    let a = d.dot(n);
    let k = d.dot_fx(n);
    let t = n.scaled(2 * k);
    let m = d.mirrored(n);
    lemma_product_bounded(d.x, n.x, 1_000_000, 1_000_000);
    lemma_product_bounded(d.y, n.y, 1_000_000, 1_000_000);
    lemma_product_bounded(d.z, n.z, 1_000_000, 1_000_000);
    lemma_quotient_bounded(a, ONE as int, 3_000_000);
    lemma_quotient_remainder(a, ONE as int);
    let rho = a - k * 1_000_000;
    lemma_mirrored_component(d.x, n.x, t.x, k);
    lemma_mirrored_component(d.y, n.y, t.y, k);
    lemma_mirrored_component(d.z, n.z, t.z, k);
    let nn = n.norm_sq();
    let delta = nn - 1_000_000_000_000;
    let kk = k * k;
    assert(kk * nn == kk * (n.x * n.x) + kk * (n.y * n.y) + kk * (n.z * n.z)) by (nonlinear_arith)
        requires
            nn == n.x * n.x + n.y * n.y + n.z * n.z,
    ;
    assert(k * a == k * (d.x * n.x) + k * (d.y * n.y) + k * (d.z * n.z)) by (nonlinear_arith)
        requires
            a == d.x * n.x + d.y * n.y + d.z * n.z,
    ;
    assert(kk * nn == kk * 1_000_000_000_000 + kk * delta) by (nonlinear_arith)
        requires
            nn == 1_000_000_000_000 + delta,
    ;
    assert(k * a == kk * 1_000_000 + k * rho) by (nonlinear_arith)
        requires
            a == k * 1_000_000 + rho,
            kk == k * k,
    ;
    assert(0 <= kk <= 9_000_000_000_000) by (nonlinear_arith)
        requires
            kk == k * k,
            -3_000_000 <= k <= 3_000_000,
    ;
    let kd = kk * delta;
    assert(-54_000_000_000_000_000_000 <= kd <= 54_000_000_000_000_000_000) by (nonlinear_arith)
        requires
            kd == kk * delta,
            0 <= kk <= 9_000_000_000_000,
            -6_000_000 <= delta <= 6_000_000,
    ;
    let kr = k * rho;
    assert(-3_000_000_000_000 <= kr <= 3_000_000_000_000) by (nonlinear_arith)
        requires
            kr == k * rho,
            -3_000_000 <= k <= 3_000_000,
            -1_000_000 < rho < 1_000_000,
    ;
    let diff = m.norm_sq() - d.norm_sq();
    assert(diff == ((d.x - t.x) * (d.x - t.x) - d.x * d.x) + ((d.y - t.y) * (d.y - t.y) - d.y
        * d.y) + ((d.z - t.z) * (d.z - t.z) - d.z * d.z));
    assert(-271_000_000_000_000_000_000 <= 1_000_000_000_000 * diff
        <= 271_000_000_000_000_000_000);
}

/// One component of a reflected direction: it differs from the direction's component by
/// the normal's component times twice the direction's part along the normal, to within
/// 142 millionths.
proof fn lemma_reflected_component(dc: int, nc: int, k: int, mc: int, rc: int, lw: int)
    requires
        mc == dc - div_toward_zero(nc * (2 * k), ONE as int),
        rc == div_toward_zero((mc * ONE) * ONE, lw),
        999_860_000_000 <= lw <= 1_000_140_000_000,
        -1_000_200 <= mc <= 1_000_200,
    ensures
        -142 * ONE <= ONE * (rc - dc) + 2 * k * nc <= 142 * ONE,
        -lw < mc * 1_000_000_000_000 - rc * lw < lw,
{
    let t = div_toward_zero(nc * (2 * k), ONE as int);
    lemma_quotient_remainder(nc * (2 * k), ONE as int);
    lemma_quotient_remainder((mc * ONE) * ONE, lw);
    assert((mc * ONE) * ONE == mc * 1_000_000_000_000) by (nonlinear_arith)
        requires
            ONE == 1_000_000,
    ;
    let f = mc * 1_000_000_000_000 - rc * lw;
    let g = 1_000_000_000_000 - lw;
    let h = rc - mc;
    assert(lw * h == g * mc - f) by (nonlinear_arith)
        requires
            f == mc * 1_000_000_000_000 - rc * lw,
            g == 1_000_000_000_000 - lw,
            h == rc - mc,
    ;
    let gm = g * mc;
    assert(-141 * lw <= gm <= 141 * lw) by (nonlinear_arith)
        requires
            gm == g * mc,
            -140_000_000 <= g <= 140_000_000,
            -1_000_200 <= mc <= 1_000_200,
            lw >= 999_860_000_000,
    ;
    assert(-141 <= h <= 141) by (nonlinear_arith)
        requires
            -142 * lw < lw * h < 142 * lw,
            lw > 0,
    ;
    assert(2 * k * nc == nc * (2 * k)) by (nonlinear_arith);
}

/// Reflection in a surface: for a unit direction `d` and a unit normal `n`, the
/// reflected direction has length one, its part along the normal is that of `d` with the
/// sign flipped, and it differs from `d` by a multiple of the normal only, so that the
/// part across the normal is kept. Each holds to within rounding: the inner products
/// with the normal to within 465 millionths, the components to within 142.
pub proof fn lemma_reflection(d: V3, n: V3)
    requires
        d.within(ONE as int),
        n.within(ONE as int),
        d.is_unit(),
        n.is_unit(),
    ensures
        d.reflected(n).is_unit(),
        d.reflected(n).within(ONE as int),
        -465 * ONE <= d.reflected(n).dot(n) + d.dot(n) <= 465 * ONE,
        -142 * ONE <= ONE * (d.reflected(n).x - d.x) + 2 * d.dot_fx(n) * n.x <= 142 * ONE,
        -142 * ONE <= ONE * (d.reflected(n).y - d.y) + 2 * d.dot_fx(n) * n.y <= 142 * ONE,
        -142 * ONE <= ONE * (d.reflected(n).z - d.z) + 2 * d.dot_fx(n) * n.z <= 142 * ONE,
{
    let a = d.dot(n);
    let k = d.dot_fx(n);
    let m = d.mirrored(n);
    let r = d.reflected(n);
    let ms = m.norm_sq();
    lemma_mirror_keeps_length(d, n);
    lemma_mirror_flips_normal_part(d, n);
    assert(ONE * ONE == 1_000_000_000_000) by (nonlinear_arith)
        requires
            ONE == 1_000_000,
    ;
    assert(1_000_000_000_000 - 277_000_000 <= ms <= 1_000_000_000_000 + 277_000_000);
    assert(m.within(1_000_200)) by (nonlinear_arith)
        requires
            ms == m.x * m.x + m.y * m.y + m.z * m.z,
            ms <= 1_000_000_000_000 + 277_000_000,
    ;
    assert(m != V3::zero()) by {
        if m == V3::zero() {
            assert(ms == 0) by (nonlinear_arith)
                requires
                    ms == m.x * m.x + m.y * m.y + m.z * m.z,
                    m.x == 0,
                    m.y == 0,
                    m.z == 0,
            ;
        }
    }
    lemma_unit(m);
    let w = m.stretched();
    let ws = w.norm_sq();
    let lw = w.length();
    assert(ws == 1_000_000_000_000 * ms) by (nonlinear_arith)
        requires
            ws == (m.x * 1_000_000) * (m.x * 1_000_000) + (m.y * 1_000_000) * (m.y * 1_000_000)
                + (m.z * 1_000_000) * (m.z * 1_000_000),
            ms == m.x * m.x + m.y * m.y + m.z * m.z,
    ;
    lemma_floor_sqrt(ws);
    assert(999_860_000_000 <= lw <= 1_000_140_000_000) by (nonlinear_arith)
        requires
            lw >= 0,
            lw * lw <= ws < (lw + 1) * (lw + 1),
            1_000_000_000_000 * (1_000_000_000_000 - 277_000_000) <= ws <= 1_000_000_000_000
                * (1_000_000_000_000 + 277_000_000),
    ;
    lemma_reflected_component(d.x, n.x, k, m.x, r.x, lw);
    lemma_reflected_component(d.y, n.y, k, m.y, r.y, lw);
    lemma_reflected_component(d.z, n.z, k, m.z, r.z, lw);
    let fx = m.x * 1_000_000_000_000 - r.x * lw;
    let fy = m.y * 1_000_000_000_000 - r.y * lw;
    let fz = m.z * 1_000_000_000_000 - r.z * lw;
    let rn = r.dot(n);
    let mn = m.dot(n);
    let fnn = fx * n.x + fy * n.y + fz * n.z;
    assert(lw * (r.x * n.x) == 1_000_000_000_000 * (m.x * n.x) - fx * n.x) by (nonlinear_arith)
        requires
            fx == m.x * 1_000_000_000_000 - r.x * lw,
    ;
    assert(lw * (r.y * n.y) == 1_000_000_000_000 * (m.y * n.y) - fy * n.y) by (nonlinear_arith)
        requires
            fy == m.y * 1_000_000_000_000 - r.y * lw,
    ;
    assert(lw * (r.z * n.z) == 1_000_000_000_000 * (m.z * n.z) - fz * n.z) by (nonlinear_arith)
        requires
            fz == m.z * 1_000_000_000_000 - r.z * lw,
    ;
    assert(lw * rn == lw * (r.x * n.x) + lw * (r.y * n.y) + lw * (r.z * n.z))
        by (nonlinear_arith)
        requires
            rn == r.x * n.x + r.y * n.y + r.z * n.z,
    ;
    assert(lw * rn == 1_000_000_000_000 * mn - fnn);
    lemma_product_bounded(fx, n.x, 1_000_140_000_000, 1_000_000);
    lemma_product_bounded(fy, n.y, 1_000_140_000_000, 1_000_000);
    lemma_product_bounded(fz, n.z, 1_000_140_000_000, 1_000_000);
    lemma_product_bounded(d.x, n.x, 1_000_000, 1_000_000);
    lemma_product_bounded(d.y, n.y, 1_000_000, 1_000_000);
    lemma_product_bounded(d.z, n.z, 1_000_000, 1_000_000);
    let g = lw - 1_000_000_000_000;
    let ga = g * a;
    assert(-420_000_000_000_000_000_000 <= ga <= 420_000_000_000_000_000_000)
        by (nonlinear_arith)
        requires
            ga == g * a,
            -140_000_000 <= g <= 140_000_000,
            -3_000_000_000_000 <= a <= 3_000_000_000_000,
    ;
    let x = rn + a;
    assert(lw * x == 1_000_000_000_000 * (mn + a) + ga - fnn) by (nonlinear_arith)
        requires
            lw * rn == 1_000_000_000_000 * mn - fnn,
            x == rn + a,
            ga == g * a,
            g == lw - 1_000_000_000_000,
    ;
    assert(-465_000_000 <= x <= 465_000_000) by (nonlinear_arith)
        requires
            -464_000_420_000_000_000_000 <= lw * x <= 464_000_420_000_000_000_000,
            999_860_000_000 <= lw <= 1_000_140_000_000,
    ;
}

} // verus!
