//! Fixed-point quantities and the test that decides whether two of them
//! are close enough for an edge.

use vstd::prelude::*;

verus! {

/// Number of fixed-point units that make up one whole.
pub const SCALE: i64 = 1_000_000;

/// Absolute difference of two quantities.
pub open spec fn gap(a: int, b: int) -> int {
    if a >= b {
        a - b
    } else {
        b - a
    }
}

/// The edge predicate: whether two scores differ by no more than
/// `threshold`. A difference equal to the threshold counts.
pub open spec fn close(a: int, b: int, threshold: int) -> bool {
    gap(a, b) <= threshold
}

/// `x` limited to the range from `lo` to `hi`.
pub open spec fn clamped(x: int, lo: int, hi: int) -> int {
    if x < lo {
        lo
    } else if x > hi {
        hi
    } else {
        x
    }
}

/// The difference of two scores where it is no more than `threshold`,
/// `None` where it is more.
pub fn bounded_gap(a: i128, b: i128, threshold: i64) -> (r: Option<i64>)
    ensures
        r == if close(a as int, b as int, threshold as int) {
            Some(gap(a as int, b as int) as i64)
        } else {
            None
        },
{
    if threshold < 0 {
        return None;
    }
    let (hi, lo): (i128, i128) = if a >= b { (a, b) } else { (b, a) };
    let limit: i128 = threshold as i128;
    if lo >= 0 || hi < 0 {
        let d: i128 = hi - lo;
        if d <= limit {
            Some(d as i64)
        } else {
            None
        }
    } else {
        // lo < 0 <= hi: the difference may not fit, so compare before subtracting
        if hi > limit {
            return None;
        }
        let room: i128 = limit - hi;
        if -room <= lo {
            Some((hi - lo) as i64)
        } else {
            None
        }
    }
}

/// Decides the edge predicate [`close`].
pub fn within_threshold(a: i128, b: i128, threshold: i64) -> (r: bool)
    ensures
        r == close(a as int, b as int, threshold as int),
{
    bounded_gap(a, b, threshold).is_some()
}

/// The edge predicate does not depend on the order of the two scores.
pub proof fn lemma_close_symmetric(a: int, b: int, threshold: int)
    ensures
        close(a, b, threshold) == close(b, a, threshold),
        gap(a, b) == gap(b, a),
{
}

/// Two scores whose difference is exactly the threshold are close.
pub proof fn lemma_close_inclusive(a: int, b: int, threshold: int)
    requires
        gap(a, b) == threshold,
    ensures
        close(a, b, threshold),
{
}

/// How far `hi` lies above `lo`.
pub fn span(hi: i128, lo: i128) -> (d: u128)
    requires
        lo <= hi,
    ensures
        d == hi - lo,
{
    if lo >= 0 || hi < 0 {
        (hi - lo) as u128
    } else {
        // lo < 0 <= hi: add the two magnitudes
        let below: u128 = (-(lo + 1)) as u128 + 1;
        hi as u128 + below
    }
}

/// Ten times `r`, divided by `whole` with remainder, for `r` below `whole`.
fn tenfold(r: u128, whole: u128) -> (out: (u128, u128))
    requires
        r < whole,
    ensures
        10 * r == out.0 * whole + out.1,
        out.1 < whole,
        out.0 <= 9,
{
    let mut carry: u128 = 0;
    let mut acc: u128 = 0;
    let mut t: u8 = 0;
    while t < 10
        invariant
            t <= 10,
            r < whole,
            acc < whole,
            carry <= t,
            t * r == carry * whole + acc,
        decreases 10 - t,
    {
        let ghost before = carry * whole;
        if acc >= whole - r {
            acc = acc - (whole - r);
            carry = carry + 1;
            proof {
                assert(carry * whole == before + whole) by (nonlinear_arith)
                    requires
                        carry * 1 == carry,
                        before == (carry - 1) * whole,
                ;
            }
        } else {
            acc = acc + r;
        }
        proof {
            assert((t + 1) * r == t * r + r) by (nonlinear_arith);
        }
        t = t + 1;
    }
    proof {
        if carry == 10 {
            assert(false) by (nonlinear_arith)
                requires
                    10 * r == 10 * whole + acc,
                    r < whole,
                    acc >= 0,
            ;
        }
    }
    (carry, acc)
}

/// The fraction `part / whole` as a fixed-point number, rounded down.
pub fn scale_fraction(part: u128, whole: u128) -> (q: i64)
    requires
        part <= whole,
        whole > 0,
    ensures
        q == part * SCALE / (whole as int),
        0 <= q <= SCALE,
{
    let mut q: u64 = 0;
    let mut r: u128 = part;
    if part == whole {
        q = 1;
        r = 0;
    }
    let mut p: u64 = 1;
    let mut digits: u8 = 0;
    proof {
        assert(part * 1 == q * whole + r) by (nonlinear_arith)
            requires
                (q == 0 && r == part) || (q == 1 && r == 0 && part == whole),
        ;
    }
    while digits < 6
        invariant
            digits <= 6,
            part <= whole,
            r < whole,
            q <= p,
            digits == 0 ==> p == 1,
            digits == 1 ==> p == 10,
            digits == 2 ==> p == 100,
            digits == 3 ==> p == 1_000,
            digits == 4 ==> p == 10_000,
            digits == 5 ==> p == 100_000,
            digits == 6 ==> p == 1_000_000,
            part * p == q * whole + r,
        decreases 6 - digits,
    {
        let (carry, rest) = tenfold(r, whole);
        let ghost old_q = q;
        let ghost old_p = p;
        let ghost old_r = r;
        proof {
            assert(part * (10 * old_p) == (10 * old_q + carry) * whole + rest) by (nonlinear_arith)
                requires
                    part * old_p == old_q * whole + old_r,
                    10 * old_r == carry * whole + rest,
            ;
            // the quotient stays within the power of ten
            assert(10 * old_q + carry <= 10 * old_p) by (nonlinear_arith)
                requires
                    part * (10 * old_p) == (10 * old_q + carry) * whole + rest,
                    part <= whole,
                    rest >= 0,
                    whole > 0,
                    old_p >= 0,
            ;
        }
        q = 10 * q + carry as u64;
        r = rest;
        p = 10 * p;
        digits = digits + 1;
    }
    proof {
        let n = part * 1_000_000;
        assert(n == q * whole + r);
        assert(n == whole * q + r) by (nonlinear_arith)
            requires
                n == q * whole + r,
        ;
        vstd::arithmetic::div_mod::lemma_fundamental_div_mod_converse(
            n,
            whole as int,
            q as int,
            r as int,
        );
    }
    q as i64
}

} // verus!
