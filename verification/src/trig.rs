//! The tangent of half an angle, from its power series.

use vstd::prelude::*;
use crate::fixed::ONE;

verus! {

/// The scale of the intermediate values: they count million-millionths.
pub const FINE: i128 = 1_000_000_000_000;

/// Pi, in million-millionths.
pub const PI_FINE: i128 = 3_141_592_653_590;

/// A straight angle, in millionths of a degree.
pub const STRAIGHT: i64 = 180_000_000;

/// One step of Horner's scheme for the sine and cosine series: one less the `k`-th part
/// of the product of `y` and `acc`.
pub open spec fn series_step(y: int, acc: int, k: int) -> int {
    FINE - (y * acc / (FINE as int)) / k
}

/// The cosine of an angle whose square is `y`, to the twelfth power of the angle.
pub open spec fn cos_series(y: int) -> int {
    series_step(
        y,
        series_step(
            y,
            series_step(y, series_step(y, series_step(y, series_step(y, FINE as int, 132), 90), 56), 30),
            12,
        ),
        2,
    )
}

/// The sine of the angle `x`, whose square is `y`, to the eleventh power of the angle.
pub open spec fn sin_series(x: int, y: int) -> int {
    x * series_step(
        y,
        series_step(y, series_step(y, series_step(y, series_step(y, FINE as int, 110), 72), 42), 20),
        6,
    ) / (FINE as int)
}

/// Half of `angle`, given in millionths of a degree, as radians in million-millionths.
pub open spec fn half_radians(angle: int) -> int {
    angle * PI_FINE / 360_000_000
}

/// The tangent of half of `angle`, which is given in millionths of a degree and lies
/// strictly between zero and a straight angle.
///
/// Up to a right angle it is the quotient of the sine and cosine series of the half
/// angle; beyond, the quotient of the cosine and sine series of the rest to the
/// straight angle. The quotient is rounded to the nearest millionth.
pub open spec fn tan_half(angle: int) -> int {
    if angle <= 90_000_000 {
        let x = half_radians(angle);
        let y = x * x / (FINE as int);
        (sin_series(x, y) * ONE + cos_series(y) / 2) / cos_series(y)
    } else {
        let x = half_radians(STRAIGHT - angle);
        let y = x * x / (FINE as int);
        (cos_series(y) * ONE + sin_series(x, y) / 2) / sin_series(x, y)
    }
}

/// The tangent of half of 45 degrees, 0.41421356..., to the nearest millionth.
pub proof fn lemma_tan_half_of_45_degrees()
    ensures
        tan_half(45_000_000) == 414_214,
{
    let x = half_radians(45_000_000);
    assert(x == 392_699_081_698);
    let y = x * x / (FINE as int);
    assert(y == 154_212_568_766);
    let c0 = series_step(y, FINE as int, 132);
    assert(c0 == 998_831_722_964);
    let c1 = series_step(y, c0, 90);
    assert(c1 == 998_288_528_825);
    let c2 = series_step(y, c1, 56);
    assert(c2 == 997_250_917_172);
    let c3 = series_step(y, c2, 30);
    assert(c3 == 994_873_712_479);
    let c4 = series_step(y, c3, 12);
    assert(c4 == 987_214_830_767);
    let c5 = series_step(y, c4, 2);
    assert(c5 == 923_879_532_512);
    let s0 = series_step(y, FINE as int, 110);
    assert(s0 == 998_598_067_557);
    let s1 = series_step(y, s0, 72);
    assert(s1 == 997_861_161_484);
    let s2 = series_step(y, s1, 42);
    assert(s2 == 996_336_125_406);
    let s3 = series_step(y, s2, 20);
    assert(s3 == 992_317_622_338);
    let s4 = series_step(y, s3, 6);
    assert(s4 == 974_495_358_405);
    assert(cos_series(y) == 923_879_532_512);
    assert(sin_series(x, y) == 382_683_432_364);
}

/// The tangent of half of 60 degrees, 0.57735026..., to the nearest millionth.
pub proof fn lemma_tan_half_of_60_degrees()
    ensures
        tan_half(60_000_000) == 577_350,
{
    let x = half_radians(60_000_000);
    assert(x == 523_598_775_598);
    let y = x * x / (FINE as int);
    assert(y == 274_155_677_807);
    let c0 = series_step(y, FINE as int, 132);
    assert(c0 == 997_923_063_047);
    let c1 = series_step(y, c0, 90);
    assert(c1 == 996_960_152_514);
    let c2 = series_step(y, c1, 56);
    assert(c2 == 995_119_244_887);
    let c3 = series_step(y, c2, 30);
    assert(c3 == 990_906_080_298);
    let c4 = series_step(y, c3, 12);
    assert(c4 == 977_361_455_993);
    let c5 = series_step(y, c4, 2);
    assert(c5 == 866_025_403_785);
    let s0 = series_step(y, FINE as int, 110);
    assert(s0 == 997_507_675_657);
    let s1 = series_step(y, s0, 72);
    assert(s1 == 996_201_772_321);
    let s2 = series_step(y, s1, 42);
    assert(s2 == 993_497_276_855);
    let s3 = series_step(y, s2, 20);
    assert(s3 == 986_381_354_034);
    let s4 = series_step(y, s3, 6);
    assert(s4 == 954_929_658_552);
    assert(cos_series(y) == 866_025_403_785);
    assert(sin_series(x, y) == 500_000_000_000);
}

/// The tangent of half a right angle is one.
pub proof fn lemma_tan_half_of_90_degrees()
    ensures
        tan_half(90_000_000) == 1_000_000,
{
    let x = half_radians(90_000_000);
    assert(x == 785_398_163_397);
    let y = x * x / (FINE as int);
    assert(y == 616_850_275_067);
    let c0 = series_step(y, FINE as int, 132);
    assert(c0 == 995_326_891_856);
    let c1 = series_step(y, c0, 90);
    assert(c1 == 993_178_137_034);
    let c2 = series_step(y, c1, 56);
    assert(c2 == 989_059_960_589);
    let c3 = series_step(y, c2, 30);
    assert(c3 == 979_663_269_709);
    let c4 = series_step(y, c3, 12);
    assert(c4 == 949_641_203_551);
    let c5 = series_step(y, c4, 2);
    assert(c5 == 707_106_781_188);
    let s0 = series_step(y, FINE as int, 110);
    assert(s0 == 994_392_270_227);
    let s1 = series_step(y, s0, 72);
    assert(s1 == 991_480_678_536);
    let s2 = series_step(y, s1, 42);
    assert(s2 == 985_438_211_208);
    let s3 = series_step(y, s2, 20);
    assert(s3 == 969_606_608_418);
    let s4 = series_step(y, s3, 6);
    assert(s4 == 900_316_316_149);
    assert(cos_series(y) == 707_106_781_188);
    assert(sin_series(x, y) == 707_106_781_179);
}

/// The tangent of half of 120 degrees, 1.73205080..., to the nearest millionth.
pub proof fn lemma_tan_half_of_120_degrees()
    ensures
        tan_half(120_000_000) == 1_732_051,
{
    assert(STRAIGHT - 120_000_000 == 60_000_000);
    let x = half_radians(60_000_000);
    assert(x == 523_598_775_598);
    let y = x * x / (FINE as int);
    assert(y == 274_155_677_807);
    let c0 = series_step(y, FINE as int, 132);
    assert(c0 == 997_923_063_047);
    let c1 = series_step(y, c0, 90);
    assert(c1 == 996_960_152_514);
    let c2 = series_step(y, c1, 56);
    assert(c2 == 995_119_244_887);
    let c3 = series_step(y, c2, 30);
    assert(c3 == 990_906_080_298);
    let c4 = series_step(y, c3, 12);
    assert(c4 == 977_361_455_993);
    let c5 = series_step(y, c4, 2);
    assert(c5 == 866_025_403_785);
    let s0 = series_step(y, FINE as int, 110);
    assert(s0 == 997_507_675_657);
    let s1 = series_step(y, s0, 72);
    assert(s1 == 996_201_772_321);
    let s2 = series_step(y, s1, 42);
    assert(s2 == 993_497_276_855);
    let s3 = series_step(y, s2, 20);
    assert(s3 == 986_381_354_034);
    let s4 = series_step(y, s3, 6);
    assert(s4 == 954_929_658_552);
    assert(cos_series(y) == 866_025_403_785);
    assert(sin_series(x, y) == 500_000_000_000);
    assert((866_025_403_785int * 1_000_000 + 500_000_000_000int / 2) / 500_000_000_000int == 1_732_051);
}

/// A step of the series stays between zero and one.
pub proof fn lemma_series_step(y: int, acc: int, k: int)
    requires
        0 <= y <= FINE,
        0 <= acc <= FINE,
        k >= 2,
    ensures
        FINE / 2 <= series_step(y, acc, k) <= FINE,
        0 <= y * acc <= FINE * FINE,
        0 <= y * acc / (FINE as int) <= FINE,
{
    let f = FINE as int;
    assert(0 <= y * acc <= f * f) by (nonlinear_arith)
        requires
            0 <= y <= f,
            0 <= acc <= f,
    ;
    let p = y * acc;
    assert(0 <= p / f <= f) by (nonlinear_arith)
        requires
            0 <= p <= f * f,
            f > 0,
    ;
    let q = p / f;
    assert(0 <= q / k <= f / 2) by (nonlinear_arith)
        requires
            0 <= q <= f,
            k >= 2,
            f == 1_000_000_000_000,
    ;
}

fn step(y: i128, acc: i128, k: i128) -> (r: i128)
    requires
        0 <= y <= FINE,
        0 <= acc <= FINE,
        k >= 2,
    ensures
        r == series_step(y as int, acc as int, k as int),
        FINE / 2 <= r <= FINE,
{
    proof {
        lemma_series_step(y as int, acc as int, k as int);
    }
    FINE - (y * acc / FINE) / k
}

fn cosine(y: i128) -> (r: i128)
    requires
        0 <= y <= FINE,
    ensures
        r == cos_series(y as int),
        FINE / 2 <= r <= FINE,
{
    step(y, step(y, step(y, step(y, step(y, step(y, FINE, 132), 90), 56), 30), 12), 2)
}

fn sine(x: i128, y: i128) -> (r: i128)
    requires
        0 <= x <= FINE,
        0 <= y <= FINE,
    ensures
        r == sin_series(x as int, y as int),
        x / 2 <= r <= x,
{
    let h: i128 = step(y, step(y, step(y, step(y, step(y, FINE, 110), 72), 42), 20), 6);
    assert(x * (FINE / 2) <= x * h <= x * FINE) by (nonlinear_arith)
        requires
            0 <= x,
            FINE / 2 <= h <= FINE,
    ;
    assert(x * h <= FINE * FINE) by (nonlinear_arith)
        requires
            0 <= x <= FINE,
            x * h <= x * FINE,
    ;
    x * h / FINE
}

/// The tangent of half of `angle`, which is given in millionths of a degree.
pub fn tan_half_angle(angle: i64) -> (r: i64)
    requires
        0 < angle < STRAIGHT,
    ensures
        r == tan_half(angle as int),
        0 <= r <= 1_000_000_000_000_000,
{
    let fold: bool = angle > 90_000_000;
    let a: i128 = if fold {
        (STRAIGHT - angle) as i128
    } else {
        angle as i128
    };
    let x: i128 = a * PI_FINE / 360_000_000;
    assert(x * x <= FINE * FINE) by (nonlinear_arith)
        requires
            0 <= x <= 785_398_163_398,
            FINE == 1_000_000_000_000,
    ;
    let y: i128 = x * x / FINE;
    let s: i128 = sine(x, y);
    let c: i128 = cosine(y);
    if fold {
        assert(s >= 4000);
        let t: i128 = (c * (ONE as i128) + s / 2) / s;
        assert(0 <= t <= 1_000_000_000_000_000) by (nonlinear_arith)
            requires
                t == (c * 1_000_000 + s / 2) / (s as int),
                0 <= c <= 1_000_000_000_000,
                s >= 4000,
        ;
        t as i64
    } else {
        let t: i128 = (s * (ONE as i128) + c / 2) / c;
        assert(0 <= t <= 1_000_000_000_000_000) by (nonlinear_arith)
            requires
                t == (s * 1_000_000 + c / 2) / (c as int),
                0 <= s <= 1_000_000_000_000,
                500_000_000_000 <= c <= 1_000_000_000_000,
        ;
        t as i64
    }
}

} // verus!
