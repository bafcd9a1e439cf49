//! Linear fixed-point quantization of a coordinate, in micro-degrees.
//!
//! A coordinate offset into `[0, range]` is mapped to `[0, maxq]` by
//! rounding `v * maxq / range` to the nearest integer, and back by rounding
//! `q * range / maxq`; the round trip moves a value by at most half a
//! quantization step plus the final rounding.

use vstd::prelude::*;

verus! {

/// `num / den` rounded to the nearest integer, halves rounded up.
pub open spec fn round_div(num: int, den: int) -> int {
    (2 * num + den) / (2 * den)
}

/// The quantized form of an offset coordinate `v_plus` in `[0, range]`.
pub open spec fn spec_quantize(v_plus: int, range: int, maxq: int) -> int {
    round_div(v_plus * maxq, range)
}

/// The offset coordinate recovered from a quantized value in `[0, maxq]`.
pub open spec fn spec_dequantize_plus(q: int, range: int, maxq: int) -> int {
    round_div(q * range, maxq)
}

/// Quantizes an offset coordinate; the result never exceeds `maxq`.
pub fn quantize(v_plus: u64, range: u64, maxq: u64) -> (q: u64)
    requires
        1 <= range,
        1 <= maxq,
        v_plus <= range,
        2 * range * maxq + range <= u64::MAX,
    ensures
        q == spec_quantize(v_plus as int, range as int, maxq as int),
        q <= maxq,
{
    proof {
        assert(2 * v_plus * maxq <= 2 * range * maxq && 2 * range <= 2 * range * maxq
            && 2 * v_plus <= 2 * range * maxq) by (nonlinear_arith)
            requires
                v_plus <= range,
                maxq >= 1,
                range >= 1,
        ;
        assert(2 * v_plus * maxq == 2 * ((v_plus * maxq) as int)) by (nonlinear_arith);
    }
    let num: u64 = 2 * v_plus * maxq + range;
    let q: u64 = num / (2 * range);
    proof {
        assert(num < (2 * range) * (maxq + 1)) by (nonlinear_arith)
            requires
                num == 2 * range * maxq + range || num <= 2 * range * maxq + range,
                range >= 1,
        ;
        vstd::arithmetic::div_mod::lemma_multiply_divide_lt(
            num as int,
            2 * range as int,
            maxq as int + 1,
        );
    }
    q
}

/// Recovers the offset coordinate from a quantized value; the result never
/// exceeds `range`.
pub fn dequantize_plus(q: u64, range: u64, maxq: u64) -> (d: u64)
    requires
        1 <= range,
        1 <= maxq,
        q <= maxq,
        2 * maxq * range + maxq <= u64::MAX,
    ensures
        d == spec_dequantize_plus(q as int, range as int, maxq as int),
        d <= range,
{
    proof {
        assert(2 * q * range <= 2 * maxq * range && 2 * maxq <= 2 * maxq * range)
            by (nonlinear_arith)
            requires
                q <= maxq,
                range >= 1,
                maxq >= 1,
        ;
        assert(2 * q * range == 2 * ((q * range) as int)) by (nonlinear_arith);
    }
    let num: u64 = 2 * q * range + maxq;
    let d: u64 = num / (2 * maxq);
    proof {
        assert(num < (2 * maxq) * (range + 1)) by (nonlinear_arith)
            requires
                num <= 2 * maxq * range + maxq,
                maxq >= 1,
        ;
        vstd::arithmetic::div_mod::lemma_multiply_divide_lt(
            num as int,
            2 * maxq as int,
            range as int + 1,
        );
    }
    d
}

/// The quantized form of an offset coordinate in `[0, range]` lies in
/// `[0, maxq]`.
pub proof fn lemma_quantize_bounds(v_plus: int, range: int, maxq: int)
    requires
        0 <= v_plus <= range,
        1 <= range,
        1 <= maxq,
    ensures
        0 <= spec_quantize(v_plus, range, maxq) <= maxq,
{
    let n = 2 * (v_plus * maxq) + range;
    assert(0 <= n && n < (2 * range) * (maxq + 1)) by (nonlinear_arith)
        requires
            0 <= v_plus <= range,
            1 <= range,
            1 <= maxq,
            n == 2 * (v_plus * maxq) + range,
    ;
    vstd::arithmetic::div_mod::lemma_multiply_divide_lt(n, 2 * range, maxq + 1);
    vstd::arithmetic::div_mod::lemma_div_pos_is_pos(n, 2 * range);
}

/// Quantizing and dequantizing moves an offset coordinate by at most
/// `(range + 2 * maxq) / (2 * maxq)`, that is half a quantization step plus
/// the final rounding.
pub proof fn lemma_quant_round_trip(v_plus: int, range: int, maxq: int)
    requires
        0 <= v_plus <= range,
        1 <= range,
        1 <= maxq,
    ensures
        ({
            let q = spec_quantize(v_plus, range, maxq);
            let d = spec_dequantize_plus(q, range, maxq);
            &&& (d - v_plus) * (2 * maxq) <= range + 2 * maxq
            &&& (v_plus - d) * (2 * maxq) <= range + 2 * maxq
        }),
{
    let m = maxq;
    let r = range;
    let v = v_plus;
    let q = spec_quantize(v, r, m);
    let d = spec_dequantize_plus(q, r, m);
    let n1 = 2 * (v * m) + r;
    let n2 = 2 * (q * r) + m;
    vstd::arithmetic::div_mod::lemma_fundamental_div_mod(n1, 2 * r);
    vstd::arithmetic::div_mod::lemma_fundamental_div_mod(n2, 2 * m);
    vstd::arithmetic::div_mod::lemma_mod_bound(n1, 2 * r);
    vstd::arithmetic::div_mod::lemma_mod_bound(n2, 2 * m);
    let r1 = n1 % (2 * r);
    let r2 = n2 % (2 * m);
    assert(n1 == (2 * r) * q + r1);
    assert(n2 == (2 * m) * d + r2);
    assert(2 * m * (d - v) == r - r1 + m - r2) by (nonlinear_arith)
        requires
            n1 == 2 * (v * m) + r,
            n2 == 2 * (q * r) + m,
            n1 == (2 * r) * q + r1,
            n2 == (2 * m) * d + r2,
            r >= 1,
    ;
    assert(0 <= r1 < 2 * r);
    assert(0 <= r2 < 2 * m);
    assert((d - v_plus) * (2 * m) <= r + 2 * m) by (nonlinear_arith)
        requires
            2 * m * (d - v_plus) == r - r1 + m - r2,
            0 <= r1,
            0 <= r2,
            m >= 1,
            r >= 1,
    ;
    assert((v_plus - d) * (2 * m) <= r + 2 * m) by (nonlinear_arith)
        requires
            2 * m * (d - v_plus) == r - r1 + m - r2,
            r1 < 2 * r,
            r2 < 2 * m,
            m >= 1,
            r >= 1,
    ;
}

} // verus!
