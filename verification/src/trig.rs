use vstd::prelude::*;

verus! {

/// Fixed-point unit: the value 1.0 as a coordinate, and one full turn as an
/// angle, are both `FP` (2 to the 30th).
pub const FP: i64 = 0x4000_0000;

/// `FP` as an unsigned value, for magnitude arithmetic.
pub const FPU: u64 = 0x4000_0000;

/// 2*pi at `FP` scale, rounded to the nearest integer.
pub const TWO_PI_FP: u64 = 6746518852u64;

// ---------------------------------------------------------------------------
// small division helpers
// ---------------------------------------------------------------------------

pub proof fn lemma_div_le(a: int, b: int, c: int)
    requires
        b >= 1,
        0 <= a,
        a <= b * c,
    ensures
        a / b <= c,
{
    assert(a / b <= c) by (nonlinear_arith)
        requires
            b >= 1,
            0 <= a,
            a <= b * c,
    ;
}

pub proof fn lemma_div_lt(a: int, b: int, c: int)
    requires
        b >= 1,
        0 <= a,
        a < b * c,
    ensures
        a / b < c,
{
    assert(a / b < c) by (nonlinear_arith)
        requires
            b >= 1,
            0 <= a,
            a < b * c,
    ;
}

pub proof fn lemma_div_nonneg(a: int, b: int)
    requires
        b >= 1,
        0 <= a,
    ensures
        0 <= a / b <= a,
{
    assert(0 <= a / b <= a) by (nonlinear_arith)
        requires
            b >= 1,
            0 <= a,
    ;
}

pub proof fn lemma_div_mono(a1: int, a2: int, b: int)
    requires
        b >= 1,
        0 <= a1 <= a2,
    ensures
        a1 / b <= a2 / b,
{
    assert(a1 / b <= a2 / b) by (nonlinear_arith)
        requires
            b >= 1,
            0 <= a1 <= a2,
    ;
}

/// The scaled product `x * y / d` stays below each factor when the other is
/// at most `d`.
pub proof fn lemma_mul_div_le(x: int, y: int, d: int)
    requires
        1 <= d,
        0 <= x,
        0 <= y <= d,
    ensures
        0 <= x * y / d <= x,
{
    assert(0 <= x * y / d <= x) by (nonlinear_arith)
        requires
            1 <= d,
            0 <= x,
            0 <= y <= d,
    ;
}

// ---------------------------------------------------------------------------
// integer square root
// ---------------------------------------------------------------------------

/// The integer square root, defined by searching up from zero.
pub open spec fn sqrt_floor(n: int) -> int
    decreases n,
{
    if n <= 0 {
        0
    } else {
        let r = sqrt_floor(n - 1);
        if (r + 1) * (r + 1) <= n {
            r + 1
        } else {
            r
        }
    }
}

pub proof fn lemma_sqrt_floor_bounds(n: int)
    requires
        0 <= n,
    ensures
        0 <= sqrt_floor(n),
        sqrt_floor(n) * sqrt_floor(n) <= n,
        n < (sqrt_floor(n) + 1) * (sqrt_floor(n) + 1),
    decreases n,
{
    if n == 0 {
        assert(sqrt_floor(n) == 0);
    } else {
        lemma_sqrt_floor_bounds(n - 1);
        let r = sqrt_floor(n - 1);
        assert(r * r <= n - 1);
        assert(n - 1 < (r + 1) * (r + 1));
        if (r + 1) * (r + 1) <= n {
            assert(sqrt_floor(n) == r + 1);
            assert(sqrt_floor(n) * sqrt_floor(n) <= n);
            assert(n < (sqrt_floor(n) + 1) * (sqrt_floor(n) + 1)) by (nonlinear_arith)
                requires
                    0 <= r,
                    sqrt_floor(n) == r + 1,
                    n <= (r + 1) * (r + 1),
            ;
        } else {
            assert(sqrt_floor(n) == r);
            assert(sqrt_floor(n) * sqrt_floor(n) <= n);
            assert(n < (sqrt_floor(n) + 1) * (sqrt_floor(n) + 1));
        }
    }
}

pub proof fn lemma_sqrt_floor_unique(n: int, r: int)
    requires
        0 <= n,
        0 <= r,
        r * r <= n,
        n < (r + 1) * (r + 1),
    ensures
        r == sqrt_floor(n),
{
    lemma_sqrt_floor_bounds(n);
    let s = sqrt_floor(n);
    if r < s {
        assert(false) by (nonlinear_arith)
            requires
                0 <= r,
                r < s,
                s * s <= n,
                n < (r + 1) * (r + 1),
        ;
    }
    if s < r {
        assert(false) by (nonlinear_arith)
            requires
                0 <= s,
                s < r,
                r * r <= n,
                n < (s + 1) * (s + 1),
        ;
    }
}

/// Binary search for the integer square root.
pub fn isqrt(n: u64) -> (r: u64)
    requires
        n < 0x4000_0000_0000_0000u64,
    ensures
        r == sqrt_floor(n as int),
        r < 0x8000_0000u64,
        (r as int) * (r as int) <= n as int,
        (n as int) < (r as int + 1) * (r as int + 1),
{
    let mut lo: u64 = 0;
    let mut hi: u64 = 0x8000_0000u64;
    proof {
        assert(0x8000_0000int * 0x8000_0000int == 0x4000_0000_0000_0000int)
            by (nonlinear_arith);
    }
    while lo + 1 < hi
        invariant
            lo < hi,
            hi <= 0x8000_0000u64,
            (lo as int) * (lo as int) <= n as int,
            (n as int) < (hi as int) * (hi as int),
        decreases hi - lo,
    {
        let mid: u64 = lo + (hi - lo) / 2;
        proof {
            assert((mid as int) * (mid as int) < 0x4000_0000_0000_0000int)
                by (nonlinear_arith)
                requires
                    0 <= mid as int,
                    (mid as int) < 0x8000_0000int,
            ;
        }
        if mid * mid <= n {
            lo = mid;
        } else {
            hi = mid;
        }
    }
    proof {
        lemma_sqrt_floor_unique(n as int, lo as int);
    }
    lo
}

// ---------------------------------------------------------------------------
// arctangent
// ---------------------------------------------------------------------------

/// atan(v / FP) in turn units: a Taylor sum up to the 7th power, in radians
/// at `FP` scale, then converted from radians to turns.
pub open spec fn spec_atan_poly(v: int) -> int {
    let fp = FP as int;
    let v2 = v * v / fp;
    let t3 = v2 * v / fp;
    let t5 = t3 * v2 / fp;
    let t7 = t5 * v2 / fp;
    let s = v - t3 / 3 + (t5 / 5 - t7 / 7);
    s * fp / (TWO_PI_FP as int)
}

/// The Taylor branch is accurate for slopes up to a little under one half.
fn atan_poly(v: u64) -> (r: u64)
    requires
        20 * v <= 9 * FPU,
    ensures
        r == spec_atan_poly(v as int),
        8 * r <= FPU,
{
    proof {
        assert((v as int) * (v as int) <= 0x4000_0000_0000_0000int) by (nonlinear_arith)
            requires
                0 <= v as int <= 0x4000_0000int,
        ;
    }
    let v2: u64 = v * v / FPU;
    proof {
        lemma_mul_div_le(v as int, v as int, FP as int);
        assert((v2 as int) * (v as int) <= 0x4000_0000_0000_0000int) by (nonlinear_arith)
            requires
                0 <= v2 as int <= 0x4000_0000int,
                0 <= v as int <= 0x4000_0000int,
        ;
    }
    let t3: u64 = v2 * v / FPU;
    proof {
        assert((v2 as int) * (v as int) == (v as int) * (v2 as int)) by (nonlinear_arith);
        lemma_mul_div_le(v as int, v2 as int, FP as int);
        assert((t3 as int) * (v2 as int) <= 0x4000_0000_0000_0000int) by (nonlinear_arith)
            requires
                0 <= t3 as int <= 0x4000_0000int,
                0 <= v2 as int <= 0x4000_0000int,
        ;
    }
    let t5: u64 = t3 * v2 / FPU;
    proof {
        lemma_mul_div_le(t3 as int, v2 as int, FP as int);
        assert((t5 as int) * (v2 as int) <= 0x4000_0000_0000_0000int) by (nonlinear_arith)
            requires
                0 <= t5 as int <= 0x4000_0000int,
                0 <= v2 as int <= 0x4000_0000int,
        ;
    }
    let t7: u64 = t5 * v2 / FPU;
    proof {
        lemma_mul_div_le(t5 as int, v2 as int, FP as int);
        lemma_div_nonneg(t3 as int, 3);
        lemma_div_nonneg(t5 as int, 5);
        lemma_div_nonneg(t7 as int, 7);
        lemma_div_mono(t7 as int, t5 as int, 7);
        assert(t5 as int / 7 <= t5 as int / 5) by (nonlinear_arith)
            requires
                0 <= t5 as int,
        ;
    }
    let s: u64 = v - t3 / 3 + (t5 / 5 - t7 / 7);
    proof {
        lemma_div_mono(t5 as int, v as int, 5);
        assert((s as int) * (FP as int) <= (TWO_PI_FP as int) * ((FP as int) / 8)
            && 0 <= (s as int) * (FP as int)) by (nonlinear_arith)
            requires
                0 <= s as int,
                s as int <= v as int + (v as int) / 5,
                0 <= v as int,
                20 * (v as int) <= 9 * 0x4000_0000int,
        ;
        lemma_div_le((s as int) * (FP as int), TWO_PI_FP as int, (FP as int) / 8);
        lemma_div_nonneg((s as int) * (FP as int), TWO_PI_FP as int);
    }
    let r: u64 = s * FPU / TWO_PI_FP;
    r
}

/// atan(v / FP) in turn units for any slope in [0, 1]: slopes above two
/// fifths go through the identity atan(v) = pi/4 - atan((1 - v) / (1 + v)).
pub open spec fn spec_atan_units(v: int) -> int {
    let fp = FP as int;
    if v == fp {
        fp / 8
    } else if 5 * v > 2 * fp {
        fp / 8 - spec_atan_poly((fp - v) * fp / (fp + v))
    } else {
        spec_atan_poly(v)
    }
}

fn atan_units(v: u64) -> (r: u64)
    requires
        v <= FPU,
    ensures
        r == spec_atan_units(v as int),
        8 * r <= FPU,
{
    if v == FPU {
        FPU / 8
    } else if 5 * v > 2 * FPU {
        proof {
            assert(0 <= ((FPU - v) as int) * (FP as int)
                && ((FPU - v) as int) * (FP as int) <= 0x4000_0000_0000_0000int
                && ((FPU - v) as int) * (FP as int)
                    <= ((FPU + v) as int) * (9 * (FP as int) / 20)) by (nonlinear_arith)
                requires
                    5 * (v as int) > 2 * 0x4000_0000int,
                    v as int <= 0x4000_0000int,
                    (FPU - v) as int == 0x4000_0000int - v as int,
                    (FPU + v) as int == 0x4000_0000int + v as int,
            ;
            lemma_div_le(((FPU - v) as int) * (FP as int), (FPU + v) as int,
                9 * (FP as int) / 20);
            lemma_div_nonneg(((FPU - v) as int) * (FP as int), (FPU + v) as int);
        }
        let u: u64 = (FPU - v) * FPU / (FPU + v);
        FPU / 8 - atan_poly(u)
    } else {
        atan_poly(v)
    }
}

/// The angle of the direction (x, y), measured from the positive y axis
/// towards the positive x axis, in turn units in [-FP/2, FP/2].
pub open spec fn spec_atan2_units(x: int, y: int) -> int {
    let fp = FP as int;
    if x == 0 {
        if y >= 0 {
            0
        } else {
            fp / 2
        }
    } else if y == 0 {
        if x > 0 {
            fp / 4
        } else {
            -(fp / 4)
        }
    } else {
        let ax = if x >= 0 { x } else { -x };
        let ay = if y >= 0 { y } else { -y };
        let t = if ax <= ay {
            spec_atan_units(ax * fp / ay)
        } else {
            fp / 4 - spec_atan_units(ay * fp / ax)
        };
        if x > 0 {
            if y > 0 {
                t
            } else {
                fp / 2 - t
            }
        } else {
            if y > 0 {
                -t
            } else {
                t - fp / 2
            }
        }
    }
}

pub fn atan2_units(x: i64, y: i64) -> (r: i64)
    requires
        -0x1_0000_0000i64 <= x <= 0x1_0000_0000i64,
        -0x1_0000_0000i64 <= y <= 0x1_0000_0000i64,
    ensures
        r == spec_atan2_units(x as int, y as int),
        -(FP / 2) <= r <= FP / 2,
        x > 0 ==> 0 <= r,
{
    if x == 0 {
        if y >= 0 {
            0
        } else {
            FP / 2
        }
    } else if y == 0 {
        if x > 0 {
            FP / 4
        } else {
            -(FP / 4)
        }
    } else {
        let ax: u64 = if x >= 0 { x as u64 } else { (-x) as u64 };
        let ay: u64 = if y >= 0 { y as u64 } else { (-y) as u64 };
        let t: u64 = if ax <= ay {
            proof {
                assert(0 <= (ax as int) * (FP as int)
                    && (ax as int) * (FP as int) <= (ay as int) * (FP as int)
                    && (ay as int) * (FP as int) <= 0x1_0000_0000int * 0x4000_0000int)
                    by (nonlinear_arith)
                    requires
                        0 <= ax as int <= ay as int,
                        ay as int <= 0x1_0000_0000int,
                ;
                lemma_div_le((ax as int) * (FP as int), ay as int, FP as int);
                lemma_div_nonneg((ax as int) * (FP as int), ay as int);
            }
            atan_units(ax * FPU / ay)
        } else {
            proof {
                assert(0 <= (ay as int) * (FP as int)
                    && (ay as int) * (FP as int) <= (ax as int) * (FP as int)
                    && (ax as int) * (FP as int) <= 0x1_0000_0000int * 0x4000_0000int)
                    by (nonlinear_arith)
                    requires
                        0 <= ay as int,
                        ay as int <= ax as int,
                        ax as int <= 0x1_0000_0000int,
                ;
                lemma_div_le((ay as int) * (FP as int), ax as int, FP as int);
                lemma_div_nonneg((ay as int) * (FP as int), ax as int);
            }
            FPU / 4 - atan_units(ay * FPU / ax)
        };
        let ti: i64 = t as i64;
        if x > 0 {
            if y > 0 {
                ti
            } else {
                FP / 2 - ti
            }
        } else {
            if y > 0 {
                -ti
            } else {
                ti - FP / 2
            }
        }
    }
}

// ---------------------------------------------------------------------------
// arccosine
// ---------------------------------------------------------------------------

/// acos(z / FP) in turn units in [0, FP/2], through
/// acos(z) = atan2(sqrt(1 - z^2), z).
pub open spec fn spec_acos_units(z: int) -> int {
    let fp = FP as int;
    if z == fp {
        0
    } else if z == -fp {
        fp / 2
    } else {
        let s = sqrt_floor(fp * fp - z * z);
        spec_atan2_units(s, z)
    }
}

pub fn acos_units(z: i64) -> (r: i64)
    requires
        -FP <= z <= FP,
    ensures
        r == spec_acos_units(z as int),
        0 <= r <= FP / 2,
{
    if z == FP {
        0
    } else if z == -FP {
        FP / 2
    } else {
        let az: u64 = if z >= 0 { z as u64 } else { (-z) as u64 };
        proof {
            assert((az as int) * (az as int) == (z as int) * (z as int)
                && (az as int) * (az as int) <= 0x4000_0000int * 0x4000_0000int)
                by (nonlinear_arith)
                requires
                    -0x4000_0000int <= z as int <= 0x4000_0000int,
                    az as int == (if z as int >= 0 { z as int } else { -(z as int) }),
            ;
            assert(0x4000_0000int * 0x4000_0000int == 0x1000_0000_0000_0000int)
                by (nonlinear_arith);
        }
        let zz: u64 = az * az;
        let s: u64 = isqrt(FPU * FPU - zz);
        proof {
            assert(s as int <= 0x4000_0000int) by (nonlinear_arith)
                requires
                    (s as int) * (s as int) <= 0x1000_0000_0000_0000int,
                    0 <= s as int,
            ;
            if s == 0 {
                assert((s as int + 1) * (s as int + 1) == 1) by (nonlinear_arith)
                    requires
                        s as int == 0,
                ;
                assert((z as int) * (z as int) > 0x1000_0000_0000_0000int - 1);
                assert(false) by (nonlinear_arith)
                    requires
                        -0x4000_0000int < (z as int) < 0x4000_0000int,
                        (z as int) * (z as int) > 0x1000_0000_0000_0000int - 1,
                ;
            }
        }
        let r: i64 = atan2_units(s as i64, z);
        r
    }
}

// ---------------------------------------------------------------------------
// sine and cosine of a rational fraction of a turn
// ---------------------------------------------------------------------------

/// sin(t / FP) at FP scale for a radian angle t in [0, FP]: Taylor up to the
/// 7th power.
pub open spec fn spec_sin_poly(t: int) -> int {
    let fp = FP as int;
    let t2 = t * t / fp;
    let t3 = t2 * t / fp;
    let t5 = t3 * t2 / fp;
    let t7 = t5 * t2 / fp;
    t - t3 / 6 + (t5 / 120 - t7 / 5040)
}

/// cos(t / FP) at FP scale for a radian angle t in [0, FP]: Taylor up to the
/// 8th power.
pub open spec fn spec_cos_poly(t: int) -> int {
    let fp = FP as int;
    let t2 = t * t / fp;
    let t4 = t2 * t2 / fp;
    let t6 = t4 * t2 / fp;
    let t8 = t6 * t2 / fp;
    fp - t2 / 2 + (t4 / 24 - t6 / 720) + t8 / 40320
}

fn sin_poly(t: u64) -> (r: u64)
    requires
        t <= FPU,
    ensures
        r == spec_sin_poly(t as int),
        r <= FPU,
{
    proof {
        assert((t as int) * (t as int) <= 0x4000_0000_0000_0000int) by (nonlinear_arith)
            requires
                0 <= t as int <= 0x4000_0000int,
        ;
    }
    let t2: u64 = t * t / FPU;
    proof {
        lemma_mul_div_le(t as int, t as int, FP as int);
        assert((t2 as int) * (t as int) <= 0x4000_0000_0000_0000int) by (nonlinear_arith)
            requires
                0 <= t2 as int <= 0x4000_0000int,
                0 <= t as int <= 0x4000_0000int,
        ;
    }
    let t3: u64 = t2 * t / FPU;
    proof {
        assert((t2 as int) * (t as int) == (t as int) * (t2 as int)) by (nonlinear_arith);
        lemma_mul_div_le(t as int, t2 as int, FP as int);
        assert((t3 as int) * (t2 as int) <= 0x4000_0000_0000_0000int) by (nonlinear_arith)
            requires
                0 <= t3 as int <= 0x4000_0000int,
                0 <= t2 as int <= 0x4000_0000int,
        ;
    }
    let t5: u64 = t3 * t2 / FPU;
    proof {
        lemma_mul_div_le(t3 as int, t2 as int, FP as int);
        assert((t5 as int) * (t2 as int) <= 0x4000_0000_0000_0000int) by (nonlinear_arith)
            requires
                0 <= t5 as int <= 0x4000_0000int,
                0 <= t2 as int <= 0x4000_0000int,
        ;
    }
    let t7: u64 = t5 * t2 / FPU;
    proof {
        lemma_mul_div_le(t5 as int, t2 as int, FP as int);
        lemma_div_nonneg(t3 as int, 6);
        lemma_div_nonneg(t5 as int, 120);
        lemma_div_nonneg(t7 as int, 5040);
        lemma_div_mono(t7 as int, t5 as int, 5040);
        assert(t5 as int / 5040 <= t5 as int / 120) by (nonlinear_arith)
            requires
                0 <= t5 as int,
        ;
        lemma_div_mono(t3 as int, t as int, 6);
    }
    t - t3 / 6 + (t5 / 120 - t7 / 5040)
}

fn cos_poly(t: u64) -> (r: u64)
    requires
        t <= FPU,
    ensures
        r == spec_cos_poly(t as int),
        r <= FPU,
{
    proof {
        assert((t as int) * (t as int) <= 0x4000_0000_0000_0000int) by (nonlinear_arith)
            requires
                0 <= t as int <= 0x4000_0000int,
        ;
    }
    let t2: u64 = t * t / FPU;
    proof {
        lemma_mul_div_le(t as int, t as int, FP as int);
        assert((t2 as int) * (t2 as int) <= 0x4000_0000_0000_0000int) by (nonlinear_arith)
            requires
                0 <= t2 as int <= 0x4000_0000int,
        ;
    }
    let t4: u64 = t2 * t2 / FPU;
    proof {
        lemma_mul_div_le(t2 as int, t2 as int, FP as int);
        assert((t4 as int) * (t2 as int) <= 0x4000_0000_0000_0000int) by (nonlinear_arith)
            requires
                0 <= t4 as int <= 0x4000_0000int,
                0 <= t2 as int <= 0x4000_0000int,
        ;
    }
    let t6: u64 = t4 * t2 / FPU;
    proof {
        lemma_mul_div_le(t4 as int, t2 as int, FP as int);
        assert((t6 as int) * (t2 as int) <= 0x4000_0000_0000_0000int) by (nonlinear_arith)
            requires
                0 <= t6 as int <= 0x4000_0000int,
                0 <= t2 as int <= 0x4000_0000int,
        ;
    }
    let t8: u64 = t6 * t2 / FPU;
    proof {
        lemma_mul_div_le(t6 as int, t2 as int, FP as int);
        lemma_div_nonneg(t2 as int, 2);
        lemma_div_nonneg(t4 as int, 24);
        lemma_div_nonneg(t6 as int, 720);
        lemma_div_nonneg(t8 as int, 40320);
        lemma_div_mono(t2 as int, FP as int, 2);
        lemma_div_mono(t4 as int, t2 as int, 24);
        lemma_div_mono(t6 as int, t4 as int, 720);
        lemma_div_mono(t8 as int, t6 as int, 40320);
        assert(t4 as int / 24 <= t2 as int / 2) by (nonlinear_arith)
            requires
                0 <= t4 as int <= t2 as int,
        ;
        assert(t6 as int / 720 <= t4 as int / 24) by (nonlinear_arith)
            requires
                0 <= t6 as int <= t4 as int,
        ;
        assert(t8 as int / 40320 <= t6 as int / 720) by (nonlinear_arith)
            requires
                0 <= t8 as int <= t6 as int,
        ;
    }
    let c: u64 = FPU - t2 / 2 + (t4 / 24 - t6 / 720) + t8 / 40320;
    c
}

/// sine and cosine of the quarter-turn fraction bb / (4 den), at FP scale.
/// Angles up to an eighth of a turn go through the sine series directly; the
/// rest of the quarter through the complement.
pub open spec fn spec_sincos_quarter(bb: int, den: int) -> (int, int) {
    let tp = TWO_PI_FP as int;
    if 2 * bb <= den {
        let th = bb * tp / (4 * den);
        (spec_sin_poly(th), spec_cos_poly(th))
    } else {
        let th = (den - bb) * tp / (4 * den);
        (spec_cos_poly(th), spec_sin_poly(th))
    }
}

fn sincos_quarter(bb: u64, den: u64) -> (sc: (u64, u64))
    requires
        1 <= den <= 0x100_0000u64,
        bb < den,
    ensures
        sc.0 == spec_sincos_quarter(bb as int, den as int).0,
        sc.1 == spec_sincos_quarter(bb as int, den as int).1,
        sc.0 <= FPU,
        sc.1 <= FPU,
{
    if 2 * bb <= den {
        proof {
            assert(0 <= (bb as int) * (TWO_PI_FP as int)
                && (bb as int) * (TWO_PI_FP as int) <= 0x4000_0000_0000_0000int
                && (bb as int) * (TWO_PI_FP as int)
                    <= (4 * (den as int)) * (FP as int)) by (nonlinear_arith)
                requires
                    0 <= bb as int,
                    2 * (bb as int) <= den as int,
                    1 <= den as int <= 0x100_0000int,
            ;
            lemma_div_le((bb as int) * (TWO_PI_FP as int), 4 * (den as int), FP as int);
            lemma_div_nonneg((bb as int) * (TWO_PI_FP as int), 4 * (den as int));
        }
        let th: u64 = bb * TWO_PI_FP / (4 * den);
        let s = sin_poly(th);
        let c = cos_poly(th);
        (s, c)
    } else {
        let cc: u64 = den - bb;
        proof {
            assert(0 <= (cc as int) * (TWO_PI_FP as int)
                && (cc as int) * (TWO_PI_FP as int) <= 0x4000_0000_0000_0000int
                && (cc as int) * (TWO_PI_FP as int)
                    <= (4 * (den as int)) * (FP as int)) by (nonlinear_arith)
                requires
                    0 <= cc as int,
                    2 * (cc as int) <= den as int,
                    1 <= den as int <= 0x100_0000int,
            ;
            lemma_div_le((cc as int) * (TWO_PI_FP as int), 4 * (den as int), FP as int);
            lemma_div_nonneg((cc as int) * (TWO_PI_FP as int), 4 * (den as int));
        }
        let th: u64 = cc * TWO_PI_FP / (4 * den);
        let c = cos_poly(th);
        let s = sin_poly(th);
        (c, s)
    }
}

/// sine and cosine of the angle (num / den) of a full turn, at FP scale:
/// reduce to a quadrant exactly, then to the quarter-turn kernel.
pub open spec fn spec_sincos_turn(num: int, den: int) -> (int, int) {
    let a = num % den;
    let q = 4 * a / den;
    let bb = (4 * a) % den;
    let sc = spec_sincos_quarter(bb, den);
    if q == 0 {
        sc
    } else if q == 1 {
        (sc.1, -sc.0)
    } else if q == 2 {
        (-sc.0, -sc.1)
    } else {
        (-sc.1, sc.0)
    }
}

pub fn sincos_turn(num: u64, den: u64) -> (sc: (i64, i64))
    requires
        1 <= den <= 0x100_0000u64,
    ensures
        sc.0 == spec_sincos_turn(num as int, den as int).0,
        sc.1 == spec_sincos_turn(num as int, den as int).1,
        -FP <= sc.0 <= FP,
        -FP <= sc.1 <= FP,
{
    let a: u64 = num % den;
    let q: u64 = 4 * a / den;
    let bb: u64 = (4 * a) % den;
    proof {
        lemma_div_lt(4 * (a as int), den as int, 4);
        lemma_div_nonneg(4 * (a as int), den as int);
    }
    let sc = sincos_quarter(bb, den);
    let s0: i64 = sc.0 as i64;
    let s1: i64 = sc.1 as i64;
    if q == 0 {
        (s0, s1)
    } else if q == 1 {
        (s1, -s0)
    } else if q == 2 {
        (-s0, -s1)
    } else {
        (-s1, s0)
    }
}

} // verus!
