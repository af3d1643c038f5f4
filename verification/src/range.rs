//! Linear range mapping with clamping.
//!
//! A reading taken in one range (say a raw PWM count) is carried by a
//! linear transform into another (say a percentage), and the result is
//! clamped to the declared output bounds whichever way round they are
//! given. An empty input range is a configuration error, not a division
//! by zero.

use crate::error::{Error, ErrorV};
use crate::fixed::{fixed_wf, iabs, Fixed};
use vstd::arithmetic::div_mod::{
    lemma_div_is_ordered, lemma_div_multiples_vanish, lemma_div_nonincreasing,
    lemma_div_pos_is_pos,
};
use vstd::prelude::*;

verus! {

/// The smaller of two values.
pub open spec fn imin(a: int, b: int) -> int {
    if a <= b {
        a
    } else {
        b
    }
}

/// The larger of two values.
pub open spec fn imax(a: int, b: int) -> int {
    if a <= b {
        b
    } else {
        a
    }
}

/// `x` forced into `[lo, hi]`.
pub open spec fn clamp_spec(x: int, lo: int, hi: int) -> int {
    if x < lo {
        lo
    } else if x > hi {
        hi
    } else {
        x
    }
}

/// Division truncating toward zero, as machine division does.
pub open spec fn tdiv(n: int, m: int) -> int {
    if (n >= 0) == (m > 0) {
        iabs(n) / iabs(m)
    } else {
        -(iabs(n) / iabs(m))
    }
}

/// Where the linear map carrying `[in_min, in_max]` onto
/// `[out_min, out_max]` sends `v`, clamped to the declared output
/// bounds in either orientation.
pub open spec fn map_spec(v: int, in_min: int, in_max: int, out_min: int, out_max: int) -> int
    recommends
        in_min != in_max,
{
    let pre = tdiv((v - in_min) * (out_max - out_min), in_max - in_min) + out_min;
    clamp_spec(pre, imin(out_min, out_max), imax(out_min, out_max))
}

/// The output range of a sensor's linear map.
#[derive(Clone, Copy, Debug, PartialEq, Eq, Structural)]
pub struct SensorMap {
    /// Low end of the output range.
    pub min: Fixed,
    /// High end of the output range.
    pub max: Fixed,
}

proof fn lemma_abs_mul(x: int, y: int)
    ensures
        iabs(x * y) == iabs(x) * iabs(y),
        x * y > 0 ==> (x < 0) == (y < 0),
        (x != 0 && y != 0 && (x < 0) == (y < 0)) ==> x * y > 0,
{
    if x == 0 {
        assert(x * y == 0) by (nonlinear_arith)
            requires
                x == 0,
        ;
        assert(iabs(x) * iabs(y) == 0) by (nonlinear_arith)
            requires
                iabs(x) == 0,
        ;
    } else if y == 0 {
        assert(x * y == 0) by (nonlinear_arith)
            requires
                y == 0,
        ;
        assert(iabs(x) * iabs(y) == 0) by (nonlinear_arith)
            requires
                iabs(y) == 0,
        ;
    } else if x > 0 && y > 0 {
        assert(x * y > 0) by (nonlinear_arith)
            requires
                x > 0,
                y > 0,
        ;
    } else if x < 0 && y < 0 {
        assert(x * y > 0 && x * y == (-x) * (-y)) by (nonlinear_arith)
            requires
                x < 0,
                y < 0,
        ;
    } else if x > 0 && y < 0 {
        assert(x * y < 0 && -(x * y) == x * (-y)) by (nonlinear_arith)
            requires
                x > 0,
                y < 0,
        ;
    } else {
        assert(x * y < 0 && -(x * y) == (-x) * y) by (nonlinear_arith)
            requires
                x < 0,
                y > 0,
        ;
    }
}

impl SensorMap {
    /// Carries `value`, read against the input range `[min, max]`, into
    /// this map's output range and clamps it there. Fails with
    /// `InvalidRange` exactly when the input range is empty.
    pub fn map(&self, value: Fixed, min: Fixed, max: Fixed) -> (r: Result<Fixed, Error>)
        requires
            fixed_wf(value),
            fixed_wf(min),
            fixed_wf(max),
            fixed_wf(self.min),
            fixed_wf(self.max),
        ensures
            match r {
                Ok(f) => min.raw != max.raw && f.raw as int == map_spec(
                    value.raw as int,
                    min.raw as int,
                    max.raw as int,
                    self.min.raw as int,
                    self.max.raw as int,
                ) && fixed_wf(f),
                Err(e) => min.raw == max.raw && e@ == ErrorV::InvalidRange,
            },
    {
        if min.raw == max.raw {
            return Err(Error::InvalidRange);
        }
        let v: i128 = value.raw as i128;
        let a: i128 = min.raw as i128;
        let b: i128 = max.raw as i128;
        let c: i128 = self.min.raw as i128;
        let d: i128 = self.max.raw as i128;
        let dv: i128 = v - a;
        let dr: i128 = d - c;
        let den: i128 = b - a;
        let adv: i128 = if dv < 0 {
            -dv
        } else {
            dv
        };
        let adr: i128 = if dr < 0 {
            -dr
        } else {
            dr
        };
        let aden: i128 = if den < 0 {
            -den
        } else {
            den
        };
        proof {
            assert(adv as int == iabs(dv as int));
            assert(adr as int == iabs(dr as int));
            assert(aden as int == iabs(den as int));
            assert((adv as int) * (adr as int) <= 2_000_000_000_000_000int
                * 2_000_000_000_000_000int) by (nonlinear_arith)
                requires
                    0 <= adv as int <= 2_000_000_000_000_000int,
                    0 <= adr as int <= 2_000_000_000_000_000int,
            ;
        }
        let num_mag: u128 = (adv as u128) * (adr as u128);
        let q_mag: u128 = num_mag / (aden as u128);
        proof {
            lemma_div_nonincreasing(num_mag as int, aden as int);
            lemma_div_pos_is_pos(num_mag as int, aden as int);
        }
        let neg_res: bool = ((dv < 0) != (dr < 0)) != (den < 0);
        let pre: i128 = if neg_res {
            c - (q_mag as i128)
        } else {
            c + (q_mag as i128)
        };
        let lo: i128 = if c <= d {
            c
        } else {
            d
        };
        let hi: i128 = if c <= d {
            d
        } else {
            c
        };
        let res: i128 = if pre < lo {
            lo
        } else if pre > hi {
            hi
        } else {
            pre
        };
        proof {
            let n = (dv as int) * (dr as int);
            let m = den as int;
            lemma_abs_mul(dv as int, dr as int);
            assert(num_mag as int == iabs(n));
            assert(q_mag as int == iabs(n) / iabs(m));
            assert(pre as int == tdiv(n, m) + c as int) by {
                if q_mag == 0 {
                } else {
                    assert(n != 0);
                    assert(dv != 0 && dr != 0) by {
                        if dv == 0 {
                            assert((dv as int) * (dr as int) == 0) by (nonlinear_arith)
                                requires
                                    dv as int == 0,
                            ;
                        }
                        if dr == 0 {
                            assert((dv as int) * (dr as int) == 0) by (nonlinear_arith)
                                requires
                                    dr as int == 0,
                            ;
                        }
                    }
                    assert((n >= 0) == ((dv < 0) == (dr < 0)));
                    assert((m > 0) == !(den < 0));
                    assert(((n >= 0) == (m > 0)) == !neg_res);
                }
            }
            assert(res as int == clamp_spec(
                tdiv(n, m) + c as int,
                imin(c as int, d as int),
                imax(c as int, d as int),
            ));
        }
        Ok(Fixed { raw: res as i64 })
    }
}

/// Whatever the input, the mapped value lies between the two output
/// bounds, whichever way round they are declared.
pub proof fn lemma_map_in_output_range(v: int, a: int, b: int, c: int, d: int)
    requires
        a != b,
    ensures
        imin(c, d) <= map_spec(v, a, b, c, d) <= imax(c, d),
{
}

/// With an ascending input range, an input at or beyond either input
/// bound is sent exactly to the matching output bound: values are
/// clamped to the nearest edge of the output range.
pub proof fn lemma_map_saturates(v: int, a: int, b: int, c: int, d: int)
    requires
        a < b,
    ensures
        v >= b ==> map_spec(v, a, b, c, d) == d,
        v <= a ==> map_spec(v, a, b, c, d) == c,
{
    let n = (v - a) * (d - c);
    let m = b - a;
    lemma_abs_mul(v - a, d - c);
    if v >= b {
        if d >= c {
            assert(n >= m * (d - c) >= 0) by (nonlinear_arith)
                requires
                    v - a >= m > 0,
                    d - c >= 0,
                    n == (v - a) * (d - c),
            ;
            lemma_div_is_ordered(m * (d - c), n, m);
            lemma_div_multiples_vanish(d - c, m);
            assert(tdiv(n, m) >= d - c);
        } else {
            assert(iabs(n) == (v - a) * (c - d) >= m * (c - d) > 0) by (nonlinear_arith)
                requires
                    v - a >= m > 0,
                    c - d > 0,
                    iabs(n) == iabs(v - a) * iabs(d - c),
                    iabs(v - a) == v - a,
                    iabs(d - c) == c - d,
            ;
            lemma_div_is_ordered(m * (c - d), iabs(n), m);
            lemma_div_multiples_vanish(c - d, m);
            assert(n < 0) by (nonlinear_arith)
                requires
                    v - a > 0,
                    d - c < 0,
                    n == (v - a) * (d - c),
            ;
            assert(tdiv(n, m) <= -(c - d));
        }
    }
    if v <= a {
        if d >= c {
            assert(n <= 0) by (nonlinear_arith)
                requires
                    v - a <= 0,
                    d - c >= 0,
                    n == (v - a) * (d - c),
            ;
            lemma_div_pos_is_pos(iabs(n), iabs(m));
            assert(tdiv(n, m) <= 0);
        } else {
            assert(n >= 0) by (nonlinear_arith)
                requires
                    v - a <= 0,
                    d - c <= 0,
                    n == (v - a) * (d - c),
            ;
            lemma_div_pos_is_pos(iabs(n), iabs(m));
            assert(tdiv(n, m) >= 0);
        }
    }
}

/// The same clamping with a descending input range: an input at or
/// beyond either input bound is sent exactly to that bound's output.
pub proof fn lemma_map_saturates_reversed(v: int, a: int, b: int, c: int, d: int)
    requires
        b < a,
    ensures
        v <= b ==> map_spec(v, a, b, c, d) == d,
        v >= a ==> map_spec(v, a, b, c, d) == c,
{
    let n = (v - a) * (d - c);
    let m = b - a;
    lemma_abs_mul(v - a, d - c);
    if v <= b {
        if d >= c {
            assert(n <= 0 && iabs(n) == (a - v) * (d - c) >= (a - b) * (d - c)) by (
            nonlinear_arith)
                requires
                    a - v >= a - b > 0,
                    d - c >= 0,
                    n == (v - a) * (d - c),
                    iabs(n) == iabs(v - a) * iabs(d - c),
                    iabs(v - a) == a - v,
                    iabs(d - c) == d - c,
            ;
            assert(n == 0 ==> d == c) by (nonlinear_arith)
                requires
                    n == (v - a) * (d - c),
                    v - a < 0,
                    d - c >= 0,
            ;
            lemma_div_is_ordered((a - b) * (d - c), iabs(n), a - b);
            lemma_div_multiples_vanish(d - c, a - b);
            assert(tdiv(n, m) >= d - c);
        } else {
            assert(n > 0 && iabs(n) == (a - v) * (c - d) >= (a - b) * (c - d)) by (
            nonlinear_arith)
                requires
                    a - v >= a - b > 0,
                    c - d > 0,
                    n == (v - a) * (d - c),
                    iabs(n) == iabs(v - a) * iabs(d - c),
                    iabs(v - a) == a - v,
                    iabs(d - c) == c - d,
            ;
            lemma_div_is_ordered((a - b) * (c - d), iabs(n), a - b);
            lemma_div_multiples_vanish(c - d, a - b);
            assert(tdiv(n, m) <= -(c - d));
        }
    }
    if v >= a {
        if d >= c {
            assert(n >= 0) by (nonlinear_arith)
                requires
                    v - a >= 0,
                    d - c >= 0,
                    n == (v - a) * (d - c),
            ;
            lemma_div_pos_is_pos(iabs(n), iabs(m));
            assert(tdiv(n, m) <= 0);
        } else {
            assert(n <= 0) by (nonlinear_arith)
                requires
                    v - a >= 0,
                    d - c <= 0,
                    n == (v - a) * (d - c),
            ;
            lemma_div_pos_is_pos(iabs(n), iabs(m));
            assert(tdiv(n, m) >= 0);
        }
    }
}

} // verus!
