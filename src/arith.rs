use vstd::prelude::*;

verus! {

/// One unit of aspect ratio (and of height tolerance): values are in millionths.
pub const SCALE: u64 = 1_000_000;

// The three limits below are machine limits, not layout rules: they keep every
// intermediate value of the exact arithmetic inside 128 bits. The widest one is
// the share of a justified row's overshoot, `(i + 1) * error`, which with these
// limits stays below 2^118.

/// Largest container width, padding, spacing or target row height, in pixels.
pub const MAX_PIXELS: u64 = 65536;

/// Largest aspect ratio or tolerance, in millionths (about 4295.0).
pub const MAX_RATIO: u64 = 4_294_967_296;

/// Largest number of items in one layout computation.
pub const MAX_ITEMS: usize = 1_048_576;

/// Bound on the magnitude of an unclamped row height handed to a row.
pub const MAX_RAW_HEIGHT: i128 = 1_152_921_504_606_846_976;

/// `a / b` rounded to the nearest integer, halves away from zero.
pub open spec fn round_div(a: int, b: int) -> int {
    if a >= 0 {
        (2 * a + b) / (2 * b)
    } else {
        -((-2 * a + b) / (2 * b))
    }
}

/// `a / 2` rounded down.
pub open spec fn floor_half(a: int) -> int {
    a / 2
}

pub open spec fn abs(a: int) -> int {
    if a >= 0 { a } else { -a }
}

/// Rounded division: the nearest integer to `a / b`, halves away from zero.
pub fn round_div_exec(a: i128, b: i128) -> (r: i128)
    requires
        0 < b < 0x1000_0000_0000_0000_0000_0000_0000_0000,
        -0x1000_0000_0000_0000_0000_0000_0000_0000 < a < 0x1000_0000_0000_0000_0000_0000_0000_0000,
    ensures
        r == round_div(a as int, b as int),
{
    if a >= 0 {
        let q: u128 = ((2 * a + b) as u128) / ((2 * b) as u128);
        proof {
            assert(q <= (2 * a + b) as int) by (nonlinear_arith)
                requires q == ((2 * a + b) as int) / ((2 * b) as int), b > 0, a >= 0;
        }
        q as i128
    } else {
        let q: u128 = ((-2 * a + b) as u128) / ((2 * b) as u128);
        proof {
            assert(q <= (-2 * a + b) as int) by (nonlinear_arith)
                requires q == ((-2 * a + b) as int) / ((2 * b) as int), b > 0, a < 0;
        }
        -(q as i128)
    }
}

/// Magnitude of `a`.
pub fn abs_exec(a: i128) -> (r: i128)
    requires
        a > i128::MIN,
    ensures
        r == abs(a as int),
{
    if a >= 0 { a } else { -a }
}

/// Half of `a`, rounded down.
pub fn floor_half_exec(a: i128) -> (r: i128)
    requires
        -0x1000_0000_0000_0000_0000_0000_0000_0000 < a < 0x1000_0000_0000_0000_0000_0000_0000_0000,
    ensures
        r == floor_half(a as int),
{
    if a >= 0 {
        ((a as u128) / 2) as i128
    } else {
        let q: u128 = ((-a + 1) as u128) / 2;
        proof {
            assert(-(q as int) == (a as int) / 2);
        }
        -(q as i128)
    }
}

/// A rounded quotient is no larger in magnitude than `m + 1` when `|a| <= m * b`.
pub proof fn lemma_round_div_bound(a: int, b: int, m: int)
    requires
        b > 0,
        m >= 0,
        abs(a) <= m * b,
    ensures
        abs(round_div(a, b)) <= m + 1,
{
    if a >= 0 {
        let q = (2 * a + b) / (2 * b);
        assert(q * (2 * b) <= 2 * a + b) by (nonlinear_arith)
            requires q == (2 * a + b) / (2 * b), b > 0, a >= 0;
        assert(q <= m + 1) by (nonlinear_arith)
            requires q * (2 * b) <= 2 * a + b, a <= m * b, b > 0;
        assert(q >= 0) by (nonlinear_arith)
            requires q == (2 * a + b) / (2 * b), b > 0, a >= 0;
    } else {
        let q = (-2 * a + b) / (2 * b);
        assert(q * (2 * b) <= -2 * a + b) by (nonlinear_arith)
            requires q == (-2 * a + b) / (2 * b), b > 0, a < 0;
        assert(q <= m + 1) by (nonlinear_arith)
            requires q * (2 * b) <= -2 * a + b, -a <= m * b, b > 0;
        assert(q >= 0) by (nonlinear_arith)
            requires q == (-2 * a + b) / (2 * b), b > 0, a < 0;
    }
}

/// Dividing an exact multiple gives the quotient back.
pub proof fn lemma_round_div_exact(q: int, b: int)
    requires
        b > 0,
    ensures
        round_div(q * b, b) == q,
{
    if q >= 0 {
        assert(q * b >= 0) by (nonlinear_arith) requires q >= 0, b > 0;
        assert((2 * (q * b) + b) / (2 * b) == q) by (nonlinear_arith)
            requires b > 0, q >= 0;
    } else {
        assert(q * b < 0) by (nonlinear_arith) requires q < 0, b > 0;
        assert((-2 * (q * b) + b) / (2 * b) == -q) by (nonlinear_arith)
            requires b > 0, q < 0;
    }
}

} // verus!
