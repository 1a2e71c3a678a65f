//! Revisit time from the three-gap theorem: the continued-fraction
//! convergents of the longitude shift between successive in-plane passes.
//!
//! Successive passes of one plane cross the equator `shift` further on, on an
//! equator of `circumference`. The gaps between the crossing points
//! `{n·shift mod circumference}` are governed by the convergents `p/q` of
//! `shift / circumference`: once the residual `|p·circumference − q·shift|`
//! drops below the coverage width, `q` passes cover the equator.
use vstd::prelude::*;

verus! {

/// Absolute value.
pub open spec fn abs_int(x: int) -> int {
    if x < 0 {
        -x
    } else {
        x
    }
}

/// `x` is representable as an `i64`.
pub open spec fn fits_i64(x: int) -> bool {
    i64::MIN <= x <= i64::MAX
}

/// Denominator of the first convergent `h/k` of `shift / circumference`
/// whose residual `|h·circumference − k·shift|` is below `width`, continuing
/// the expansion from the Euclid state `x / y` with the two previous
/// convergents `h1/k1` and `h2/k2`. `None` when the expansion ends first, or
/// once a convergent's terms leave `i64`.
pub open spec fn first_convergent(
    x: int,
    y: int,
    h1: int,
    k1: int,
    h2: int,
    k2: int,
    shift: int,
    circumference: int,
    width: int,
) -> Option<int>
    decreases y,
{
    if y <= 0 {
        None
    } else {
        let a = x / y;
        let r = x % y;
        let h = a * h1 + h2;
        let k = a * k1 + k2;
        if !fits_i64(h) || !fits_i64(k) {
            None
        } else if abs_int(h * circumference - k * shift) < width {
            Some(k)
        } else if r == 0 {
            None
        } else {
            first_convergent(y, r, h, k, h1, k1, shift, circumference, width)
        }
    }
}

/// Number of passes `N` after which the equator is covered: the denominator
/// of the first convergent of `shift / circumference` whose residual is
/// below `width`, the expansion starting from the convergents `1/0` and `0/1`.
pub open spec fn covering_passes(shift: int, circumference: int, width: int) -> Option<int> {
    first_convergent(shift, circumference, 1, 0, 0, 1, shift, circumference, width)
}

/// Revisit time at the equator when the in-plane passes leave gaps:
/// `pass_interval · N`, where `pass_interval` is the time between successive
/// in-plane passes, `shift` the longitude the equator turns between them, and
/// `N` the denominator of the first continued-fraction convergent of
/// `shift / circumference` whose residual `|p·circumference − N·shift|` is
/// below the coverage width `swath`. `None` when no convergent qualifies, or
/// when a convergent or the time leaves `i64`.
pub fn convergent_revisit(pass_interval: i64, shift: i64, circumference: i64, swath: i64) -> (r:
    Option<i64>)
    requires
        circumference > 0,
    ensures
        r == match covering_passes(shift as int, circumference as int, swath as int) {
            Some(n) => if fits_i64(pass_interval * n) {
                Some((pass_interval * n) as i64)
            } else {
                None
            },
            None => None,
        },
{
    let ghost target = covering_passes(shift as int, circumference as int, swath as int);
    let mut x: i64 = shift;
    let mut y: i64 = circumference;
    let mut h1: i64 = 1;
    let mut k1: i64 = 0;
    let mut h2: i64 = 0;
    let mut k2: i64 = 1;
    loop
        invariant
            y > 0,
            circumference > 0,
            target == covering_passes(shift as int, circumference as int, swath as int),
            first_convergent(
                x as int,
                y as int,
                h1 as int,
                k1 as int,
                h2 as int,
                k2 as int,
                shift as int,
                circumference as int,
                swath as int,
            ) == target,
        decreases y,
    {
        proof {
            assert(i64::MIN <= (x as int) / (y as int) <= i64::MAX) by (nonlinear_arith)
                requires
                    y >= 1,
                    i64::MIN <= x <= i64::MAX,
            ;
        }
        let a = x.checked_div_euclid(y).unwrap();
        let r = x.checked_rem_euclid(y).unwrap();
        proof {
            assert(-0x8000_0000_0000_0000int * 0x8000_0000_0000_0000int <= (a as int) * (h1 as int)
                <= 0x8000_0000_0000_0000int * 0x8000_0000_0000_0000int) by (nonlinear_arith)
                requires
                    -0x8000_0000_0000_0000int <= a <= 0x8000_0000_0000_0000int,
                    -0x8000_0000_0000_0000int <= h1 <= 0x8000_0000_0000_0000int,
            ;
            assert(-0x8000_0000_0000_0000int * 0x8000_0000_0000_0000int <= (a as int) * (k1 as int)
                <= 0x8000_0000_0000_0000int * 0x8000_0000_0000_0000int) by (nonlinear_arith)
                requires
                    -0x8000_0000_0000_0000int <= a <= 0x8000_0000_0000_0000int,
                    -0x8000_0000_0000_0000int <= k1 <= 0x8000_0000_0000_0000int,
            ;
        }
        let h_wide: i128 = (a as i128) * (h1 as i128) + (h2 as i128);
        let k_wide: i128 = (a as i128) * (k1 as i128) + (k2 as i128);
        if h_wide < i64::MIN as i128 || h_wide > i64::MAX as i128 || k_wide < i64::MIN as i128
            || k_wide > i64::MAX as i128 {
            proof {
                assert(first_convergent(
                    x as int,
                    y as int,
                    h1 as int,
                    k1 as int,
                    h2 as int,
                    k2 as int,
                    shift as int,
                    circumference as int,
                    swath as int,
                ) == None::<int>);
            }
            return None;
        }
        let h = h_wide as i64;
        let k = k_wide as i64;
        proof {
            assert(-0x8000_0000_0000_0000int * 0x7fff_ffff_ffff_ffffint <= (h as int) * (
            circumference as int) <= 0x8000_0000_0000_0000int * 0x7fff_ffff_ffff_ffffint)
                by (nonlinear_arith)
                requires
                    -0x8000_0000_0000_0000int <= h <= 0x7fff_ffff_ffff_ffffint,
                    0 < circumference <= 0x7fff_ffff_ffff_ffffint,
            ;
            assert(-0x8000_0000_0000_0000int * 0x8000_0000_0000_0000int <= (k as int) * (
            shift as int) <= 0x8000_0000_0000_0000int * 0x8000_0000_0000_0000int)
                by (nonlinear_arith)
                requires
                    -0x8000_0000_0000_0000int <= k <= 0x8000_0000_0000_0000int,
                    -0x8000_0000_0000_0000int <= shift <= 0x8000_0000_0000_0000int,
            ;
        }
        let diff: i128 = (h as i128) * (circumference as i128) - (k as i128) * (shift as i128);
        let residual: i128 = if diff < 0 {
            -diff
        } else {
            diff
        };
        if residual < swath as i128 {
            proof {
                assert(-0x8000_0000_0000_0000int * 0x8000_0000_0000_0000int <= (
                pass_interval as int) * (k as int) <= 0x8000_0000_0000_0000int
                    * 0x8000_0000_0000_0000int) by (nonlinear_arith)
                    requires
                        -0x8000_0000_0000_0000int <= k <= 0x8000_0000_0000_0000int,
                        -0x8000_0000_0000_0000int <= pass_interval <= 0x8000_0000_0000_0000int,
                ;
            }
            let t: i128 = (pass_interval as i128) * (k as i128);
            if t < i64::MIN as i128 || t > i64::MAX as i128 {
                return None;
            }
            return Some(t as i64);
        }
        if r == 0 {
            proof {
                assert(first_convergent(
                    x as int,
                    y as int,
                    h1 as int,
                    k1 as int,
                    h2 as int,
                    k2 as int,
                    shift as int,
                    circumference as int,
                    swath as int,
                ) == None::<int>);
            }
            return None;
        }
        x = y;
        y = r;
        h2 = h1;
        k2 = k1;
        h1 = h;
        k1 = k;
    }
}

} // verus!
