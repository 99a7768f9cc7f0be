use vstd::prelude::*;
use vstd::arithmetic::power2::{lemma2_to64, lemma_pow2_adds, lemma_pow2_pos, lemma_pow2_strictly_increases, pow2};
use vstd::arithmetic::div_mod::{lemma_div_denominator, lemma_fundamental_div_mod};
use vstd::bits::{lemma_u64_pow2_no_overflow, lemma_u64_shl_is_mul};

verus! {

/// Powers of two grow with the exponent.
pub proof fn lemma_pow2_increases(a: nat, b: nat)
    requires
        a <= b,
    ensures
        pow2(a) <= pow2(b),
{
    if a < b {
        lemma_pow2_strictly_increases(a, b);
    }
}

/// A smaller power of two has the smaller exponent.
pub proof fn lemma_pow2_exponent_lt(a: nat, b: nat)
    requires
        pow2(a) < pow2(b),
    ensures
        a < b,
{
    if a >= b {
        lemma_pow2_increases(b, a);
    }
}

/// Scaling both sides of a strict comparison: if `x * 2^a < y * 2^b`, the
/// same holds at any pair of exponents that favours `y` at least as much.
pub proof fn lemma_scaled_lt(x: nat, y: nat, a: nat, b: nat, a2: nat, b2: nat)
    requires
        x * pow2(a) < y * pow2(b),
        b2 + a >= b + a2,
    ensures
        x * pow2(a2) < y * pow2(b2),
{
    let (p, q, p2, q2) = (pow2(a), pow2(b), pow2(a2), pow2(b2));
    lemma_pow2_pos(a);
    lemma_pow2_pos(a2);
    lemma_pow2_adds(b, a2);
    lemma_pow2_adds(b2, a);
    lemma_pow2_increases(b + a2, b2 + a);
    assert(q * p2 <= q2 * p);
    assert((x * p) * p2 < (y * q) * p2) by (nonlinear_arith)
        requires
            x * p < y * q,
            p2 > 0,
    ;
    assert((y * q) * p2 <= (y * q2) * p) by (nonlinear_arith)
        requires
            q * p2 <= q2 * p,
    ;
    assert(x * p2 < y * q2) by (nonlinear_arith)
        requires
            (x * p) * p2 < (y * q2) * p,
            p > 0,
    ;
}

/// Scaling both sides of a weak comparison: if `x * 2^a >= y * 2^b`, the
/// same holds at any pair of exponents that favours `x` at least as much.
pub proof fn lemma_scaled_ge(x: nat, y: nat, a: nat, b: nat, a2: nat, b2: nat)
    requires
        x * pow2(a) >= y * pow2(b),
        b2 + a <= b + a2,
    ensures
        x * pow2(a2) >= y * pow2(b2),
{
    let (p, q, p2, q2) = (pow2(a), pow2(b), pow2(a2), pow2(b2));
    lemma_pow2_pos(a);
    lemma_pow2_pos(a2);
    lemma_pow2_adds(b, a2);
    lemma_pow2_adds(b2, a);
    lemma_pow2_increases(b2 + a, b + a2);
    assert(q2 * p <= q * p2);
    assert((x * p) * p2 >= (y * q) * p2) by (nonlinear_arith)
        requires
            x * p >= y * q,
            p2 > 0,
    ;
    assert((y * q) * p2 >= (y * q2) * p) by (nonlinear_arith)
        requires
            q2 * p <= q * p2,
    ;
    assert(x * p2 >= y * q2) by (nonlinear_arith)
        requires
            (x * p) * p2 >= (y * q2) * p,
            p > 0,
    ;
}

/// Computes `2^k` in a 64-bit word.
pub fn pow2_u64(k: u32) -> (p: u64)
    requires
        k < 64,
    ensures
        p == pow2(k as nat),
        p > 0,
{
    proof {
        lemma_u64_pow2_no_overflow(k as nat);
        lemma_u64_shl_is_mul(1, k as u64);
    }
    1u64 << (k as u64)
}

/// One step of the search for the length of a word: takes `width` bits off
/// `rest` where it has more than that many.
fn strip_bits(Ghost(n): Ghost<u64>, rest: u64, len: u32, width: u32) -> (out: (u64, u32))
    requires
        0 < width <= 32,
        len + 2 * width <= 64,
        rest as int == (n as int) / (pow2(len as nat) as int),
        rest < pow2((2 * width) as nat),
        n > 0 <==> rest > 0,
    ensures
        out.1 == len || out.1 == len + width,
        n == 0 ==> out.1 == len,
        out.0 as int == (n as int) / (pow2(out.1 as nat) as int),
        out.0 < pow2(width as nat),
        n > 0 <==> out.0 > 0,
{
    let step = pow2_u64(width);
    proof {
        lemma_u64_pow2_no_overflow(len as nat);
        lemma_u64_pow2_no_overflow((len + width) as nat);
        lemma_pow2_adds(width as nat, width as nat);
        lemma_pow2_adds(len as nat, width as nat);
    }
    if rest >= step {
        proof {
            lemma_div_denominator(n as int, pow2(len as nat) as int, step as int);
            lemma_fundamental_div_mod(rest as int, step as int);
            assert(rest / step < step) by (nonlinear_arith)
                requires
                    rest == step * (rest / step) + rest % step,
                    rest % step >= 0,
                    rest < step * step,
                    step > 0,
            ;
            assert(rest / step > 0) by (nonlinear_arith)
                requires
                    rest == step * (rest / step) + rest % step,
                    rest % step < step,
                    rest >= step,
                    step > 0,
            ;
        }
        (rest / step, len + width)
    } else {
        (rest, len)
    }
}

/// The number of bits needed to write `n`: zero for zero, else the position
/// of the highest set bit, counted from one.
pub fn bit_length(n: u64) -> (len: u32)
    ensures
        len <= 64,
        n < pow2(len as nat),
        len > 0 ==> n >= pow2((len - 1) as nat),
        n == 0 <==> len == 0,
{
    proof {
        lemma2_to64();
        assert((n as int) / (pow2(0) as int) == n) by (nonlinear_arith)
            requires
                pow2(0) == 1,
        ;
    }
    let (rest, len) = strip_bits(Ghost(n), n, 0, 32);
    let (rest, len) = strip_bits(Ghost(n), rest, len, 16);
    let (rest, len) = strip_bits(Ghost(n), rest, len, 8);
    let (rest, len) = strip_bits(Ghost(n), rest, len, 4);
    let (rest, len) = strip_bits(Ghost(n), rest, len, 2);
    let (rest, len) = strip_bits(Ghost(n), rest, len, 1);
    proof {
        lemma_u64_pow2_no_overflow(len as nat);
        lemma_fundamental_div_mod(n as int, pow2(len as nat) as int);
        lemma_pow2_adds(len as nat, 1);
        let p = pow2(len as nat) as int;
        if rest == 1 {
            assert(p * 1 == p) by (nonlinear_arith);
        } else {
            assert(p * 0 == 0) by (nonlinear_arith);
        }
    }
    if rest > 0 {
        len + 1
    } else {
        len
    }
}

} // verus!
