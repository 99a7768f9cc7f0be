use vstd::prelude::*;
use vstd::arithmetic::div_mod::{
    lemma_basic_div, lemma_div_multiples_vanish_quotient, lemma_fundamental_div_mod,
    lemma_fundamental_div_mod_converse, lemma_small_mod, lemma_truncate_middle,
};
use vstd::arithmetic::power2::{
    lemma2_to64, lemma2_to64_rest, lemma_pow2_adds, lemma_pow2_pos, lemma_pow2_strictly_increases,
    lemma_pow2_unfold, pow2,
};
use crate::binary32::{Binary32, FloatValue};
use crate::power::{
    bit_length, lemma_pow2_exponent_lt, lemma_pow2_increases, lemma_scaled_ge, lemma_scaled_lt,
    pow2_u64,
};

verus! {

/// The whole number nearest to `n / d`; of two equally near, the even one.
pub open spec fn round_half_even(n: nat, d: nat) -> nat
    recommends
        d > 0,
{
    let q = n / d;
    let r = n % d;
    if 2 * r < d || (2 * r == d && q % 2 == 0) {
        q
    } else {
        q + 1
    }
}

/// The least `s` for which `n / d` lies below `2^(24 + s)`: the spacing
/// `2^s` is the finest at which `n / d` needs no more than 24 bits.
pub open spec fn quantum_exponent(n: nat, d: nat) -> nat
    decreases n,
{
    if d == 0 || n < d * 0x100_0000 {
        0
    } else {
        1 + quantum_exponent(n / 2, d)
    }
}

/// `n / d` rounded to a multiple of the spacing that its size allows:
/// to nearest, ties to the even multiple.
pub open spec fn nearest_units(n: nat, d: nat) -> nat {
    let s = quantum_exponent(n, d);
    round_half_even(n, d * pow2(s)) * pow2(s)
}

/// The number of units from which on a magnitude no longer fits and becomes
/// infinite: 2^128, counted in units of 2^-149.
pub open spec fn overflow_units() -> nat {
    pow2(277)
}

/// The value nearest to `n / d` units with the given sign.
pub open spec fn rounded(negative: bool, n: nat, d: nat) -> FloatValue {
    let units = nearest_units(n, d);
    if units >= overflow_units() {
        FloatValue::Infinite { negative }
    } else {
        FloatValue::Finite { negative, units }
    }
}

/// The quantum exponent is the least one that fits.
pub proof fn lemma_quantum_exponent_bounds(n: nat, d: nat)
    requires
        d > 0,
    ensures
        n < d * pow2(24 + quantum_exponent(n, d)),
        quantum_exponent(n, d) > 0 ==> n >= d * pow2(23 + quantum_exponent(n, d)),
    decreases n,
{
    lemma2_to64();
    if n < d * 0x100_0000 {
    } else {
        let s = quantum_exponent(n / 2, d);
        assert(n >= 1) by (nonlinear_arith)
            requires
                n >= d * 0x100_0000,
                d > 0,
        ;
        lemma_quantum_exponent_bounds(n / 2, d);
        lemma_pow2_unfold(24 + s + 1);
        lemma_pow2_unfold(23 + s + 1);
        let p = pow2(24 + s);
        assert(d * (2 * p) == 2 * (d * p)) by (nonlinear_arith);
        if s > 0 {
            let p1 = pow2(23 + s);
            assert(d * (2 * p1) == 2 * (d * p1)) by (nonlinear_arith);
        }
    }
}

/// Any exponent that fits, and whose predecessor does not, is the quantum
/// exponent.
pub proof fn lemma_quantum_exponent_unique(n: nat, d: nat, s: nat)
    requires
        d > 0,
        n < d * pow2(24 + s),
        s > 0 ==> n >= d * pow2(23 + s),
    ensures
        quantum_exponent(n, d) == s,
    decreases s,
{
    lemma2_to64();
    if s == 0 {
    } else {
        lemma_pow2_unfold(24 + s);
        lemma_pow2_unfold(23 + s);
        lemma_pow2_pos((23 + s) as nat);
        let p = pow2((23 + s) as nat);
        assert(d * (2 * p) == 2 * (d * p)) by (nonlinear_arith);
        if s > 1 {
            let p1 = pow2((22 + s) as nat);
            assert(d * (2 * p1) == 2 * (d * p1)) by (nonlinear_arith);
        }
        assert(pow2(24) <= p) by {
            if s > 1 {
                lemma_pow2_strictly_increases(24, (23 + s) as nat);
            }
        }
        assert(d * pow2(24) <= d * p) by (nonlinear_arith)
            requires
                pow2(24) <= p,
        ;
        lemma_quantum_exponent_unique(n / 2, d, (s - 1) as nat);
    }
}

/// Rounding to the nearest whole number sees only the ratio: a common factor
/// of numerator and denominator changes nothing.
pub proof fn lemma_round_half_even_scale(n: nat, d: nat, c: nat)
    requires
        d > 0,
        c > 0,
    ensures
        round_half_even(c * n, c * d) == round_half_even(n, d),
{
    lemma_div_multiples_vanish_quotient(c as int, n as int, d as int);
    lemma_truncate_middle(n as int, c as int, d as int);
    let r = n % d;
    assert((c * n) % (c * d) == c * r);
    assert(2 * (c * r) < c * d <==> 2 * r < d) by (nonlinear_arith)
        requires
            c > 0,
    ;
    assert(2 * (c * r) == c * d <==> 2 * r == d) by (nonlinear_arith)
        requires
            c > 0,
    ;
}

/// Two fractions that are equal as ratios round to the same whole number.
pub proof fn lemma_round_half_even_ratio(n1: nat, d1: nat, n2: nat, d2: nat)
    requires
        d1 > 0,
        d2 > 0,
        n1 * d2 == n2 * d1,
    ensures
        round_half_even(n1, d1) == round_half_even(n2, d2),
{
    lemma_round_half_even_scale(n1, d1, d2);
    lemma_round_half_even_scale(n2, d2, d1);
    assert(d2 * d1 == d1 * d2) by (nonlinear_arith);
    assert(d2 * n1 == n1 * d2) by (nonlinear_arith);
    assert(d1 * n2 == n2 * d1) by (nonlinear_arith);
}

/// A magnitude that is a significand of at most 24 bits times a power of
/// two is its own rounding.
pub proof fn lemma_nearest_units_exact(m: nat, s: nat)
    requires
        m < 0x100_0000,
    ensures
        nearest_units(m * pow2(s), 1) == m * pow2(s),
{
    lemma2_to64();
    let n = m * pow2(s);
    let q = quantum_exponent(n, 1);
    lemma_quantum_exponent_bounds(n, 1);
    lemma_pow2_pos(s);
    lemma_pow2_adds(24, s);
    assert(n < pow2(24 + s)) by (nonlinear_arith)
        requires
            n == m * pow2(s),
            m < pow2(24),
            pow2(s) > 0,
            pow2(24 + s) == pow2(24) * pow2(s),
    ;
    if q > s {
        if 23 + q > 24 + s {
            lemma_pow2_strictly_increases(24 + s, 23 + q);
        }
        assert(false);
    }
    let rest = (s - q) as nat;
    lemma_pow2_adds(rest, q);
    lemma_pow2_pos(q);
    let whole = m * pow2(rest);
    assert(n == whole * pow2(q) + 0) by (nonlinear_arith)
        requires
            n == m * pow2(s),
            pow2(s) == pow2(rest) * pow2(q),
            whole == m * pow2(rest),
    ;
    lemma_fundamental_div_mod_converse(n as int, pow2(q) as int, whole as int, 0);
    assert(1 * pow2(q) == pow2(q));
}

/// Zero rounds to zero.
pub proof fn lemma_nearest_units_zero(d: nat)
    requires
        d > 0,
    ensures
        nearest_units(0, d) == 0,
{
    lemma2_to64();
    assert(0 < d * 0x100_0000) by (nonlinear_arith)
        requires
            d > 0,
    ;
    assert(quantum_exponent(0, d) == 0);
    assert(d * pow2(0) == d) by (nonlinear_arith)
        requires
            pow2(0) == 1,
    ;
    assert(0nat / d == 0 && 0nat % d == 0) by (nonlinear_arith)
        requires
            d > 0,
    ;
}

/// The quotient of a division lies where the bounds on the dividend put it.
proof fn lemma_quotient_bounds(n: nat, d: nat, lo: nat, hi: nat)
    requires
        d > 0,
        n < d * hi,
        n >= d * lo,
    ensures
        lo <= n / d < hi,
{
    lemma_fundamental_div_mod(n as int, d as int);
    let q = n / d;
    let r = n % d;
    assert(q < hi) by (nonlinear_arith)
        requires
            n == d * q + r,
            r >= 0,
            n < d * hi,
            d > 0,
    ;
    assert(q >= lo) by (nonlinear_arith)
        requires
            n == d * q + r,
            r < d,
            n >= d * lo,
            d > 0,
    ;
}

/// A magnitude with a full significand stays what it is when less than an
/// eighth of its spacing is added to it or taken from it.
pub proof fn lemma_nearest_units_absorbs(m: nat, s: nat, b: nat, minus: bool)
    requires
        0x80_0000 <= m < 0x100_0000,
        s > 0,
        8 * b < pow2(s),
    ensures
        minus ==> m * pow2(s) >= b && nearest_units((m * pow2(s) - b) as nat, 1) == m * pow2(s),
        !minus ==> nearest_units(m * pow2(s) + b, 1) == m * pow2(s),
{
    lemma2_to64();
    let p = pow2(s);
    let a = m * p;
    lemma_pow2_pos(s);
    lemma_pow2_adds(24, s);
    lemma_pow2_adds(23, s);
    assert(a >= 0x80_0000 * p && a + p <= 0x100_0000 * p) by (nonlinear_arith)
        requires
            a == m * p,
            0x80_0000 <= m < 0x100_0000,
            p > 0,
    ;
    assert(1 * p == p);
    if b == 0 {
        lemma_nearest_units_exact(m, s);
    } else if !minus {
        let n = a + b;
        lemma_quantum_exponent_unique(n, 1, s);
        lemma_fundamental_div_mod_converse(n as int, p as int, m as int, b as int);
    } else if m > 0x80_0000 {
        let n = (a - b) as nat;
        assert(a - p >= 0x80_0000 * p && n == (m - 1) * p + (p - b)) by (nonlinear_arith)
            requires
                a == m * p,
                m > 0x80_0000,
                p > 0,
                n == a - b,
        ;
        lemma_quantum_exponent_unique(n, 1, s);
        lemma_fundamental_div_mod_converse(n as int, p as int, m - 1, p - b);
    } else {
        let half = pow2((s - 1) as nat);
        lemma_pow2_adds(1, (s - 1) as nat);
        lemma_pow2_pos((s - 1) as nat);
        lemma_pow2_adds(24, (s - 1) as nat);
        lemma_pow2_adds(23, (s - 1) as nat);
        let n = (a - b) as nat;
        assert(n == 0xff_ffff * half + (half - b) && a == 0x100_0000 * half) by (nonlinear_arith)
            requires
                a == m * p,
                m == 0x80_0000,
                p == 2 * half,
                n == a - b,
        ;
        assert(1 * half == half);
        lemma_quantum_exponent_unique(n, 1, (s - 1) as nat);
        lemma_fundamental_div_mod_converse(n as int, half as int, 0xff_ffff, half - b);
        assert(round_half_even(n, half) == 0x100_0000);
    }
}

/// At the spacing of its quantum exponent a value has a whole part of at
/// most 24 bits, and of exactly 24 where the exponent is not zero.
pub proof fn lemma_spacing_bounds(n: nat, d: nat)
    requires
        d > 0,
    ensures
        d * pow2(quantum_exponent(n, d)) > 0,
        n < (d * pow2(quantum_exponent(n, d))) * 0x100_0000,
        n / (d * pow2(quantum_exponent(n, d))) < 0x100_0000,
        round_half_even(n, d * pow2(quantum_exponent(n, d))) <= 0x100_0000,
        quantum_exponent(n, d) > 0 ==> n >= (d * pow2(quantum_exponent(n, d))) * 0x80_0000,
        quantum_exponent(n, d) > 0 ==> n / (d * pow2(quantum_exponent(n, d))) >= 0x80_0000,
        quantum_exponent(n, d) > 0 ==> round_half_even(n, d * pow2(quantum_exponent(n, d)))
            >= 0x80_0000,
{
    lemma2_to64();
    let s = quantum_exponent(n, d);
    let spacing = pow2(s);
    let divisor = d * spacing;
    lemma_quantum_exponent_bounds(n, d);
    lemma_pow2_pos(s);
    assert(divisor > 0) by (nonlinear_arith)
        requires
            divisor == d * spacing,
            d > 0,
            spacing > 0,
    ;
    lemma_pow2_adds(s, 24);
    lemma_pow2_adds(s, 23);
    assert(n < divisor * 0x100_0000) by (nonlinear_arith)
        requires
            n < d * pow2(24 + s),
            pow2(24 + s) == spacing * 0x100_0000,
            divisor == d * spacing,
    ;
    if s > 0 {
        assert(n >= divisor * 0x80_0000) by (nonlinear_arith)
            requires
                n >= d * pow2(23 + s),
                pow2(23 + s) == spacing * 0x80_0000,
                divisor == d * spacing,
        ;
        lemma_quotient_bounds(n, divisor, 0x80_0000, 0x100_0000);
    } else {
        assert(n >= divisor * 0) by (nonlinear_arith);
        lemma_quotient_bounds(n, divisor, 0, 0x100_0000);
    }
}

/// Rounding never carries a value past a representable magnitude that it
/// does not exceed.
pub proof fn lemma_nearest_units_at_most(n: nat, d: nat, m: nat, k: nat)
    requires
        d > 0,
        m < 0x100_0000,
        n <= d * (m * pow2(k)),
    ensures
        nearest_units(n, d) <= m * pow2(k),
{
    lemma2_to64();
    let s = quantum_exponent(n, d);
    let spacing = pow2(s);
    let divisor = d * spacing;
    lemma_spacing_bounds(n, d);
    lemma_quantum_exponent_bounds(n, d);
    lemma_pow2_pos(k);
    if s > k {
        lemma_pow2_increases(24 + k, 23 + s);
        lemma_pow2_adds(24, k);
        assert(n < d * pow2(23 + s)) by (nonlinear_arith)
            requires
                n <= d * (m * pow2(k)),
                m < 0x100_0000,
                pow2(24 + k) == 0x100_0000 * pow2(k),
                pow2(24 + k) <= pow2(23 + s),
                pow2(k) > 0,
                d > 0,
        ;
        assert(false);
    }
    let room = m * pow2((k - s) as nat);
    lemma_pow2_adds((k - s) as nat, s);
    lemma_fundamental_div_mod(n as int, divisor as int);
    let q = n / divisor;
    let r = n % divisor;
    assert(n <= divisor * room && room * spacing == m * pow2(k)) by (nonlinear_arith)
        requires
            n <= d * (m * pow2(k)),
            pow2(k) == pow2((k - s) as nat) * spacing,
            room == m * pow2((k - s) as nat),
            divisor == d * spacing,
    ;
    assert(q < room || (q == room && r == 0)) by (nonlinear_arith)
        requires
            n == divisor * q + r,
            0 <= r < divisor,
            n <= divisor * room,
    ;
    assert(round_half_even(n, divisor) <= room);
    assert(round_half_even(n, divisor) * spacing <= room * spacing) by (nonlinear_arith)
        requires
            round_half_even(n, divisor) <= room,
    ;
}

/// Rounding never carries a value below a representable magnitude that it
/// reaches.
pub proof fn lemma_nearest_units_at_least(n: nat, d: nat, m: nat, k: nat)
    requires
        d > 0,
        m < 0x100_0000,
        n >= d * (m * pow2(k)),
    ensures
        nearest_units(n, d) >= m * pow2(k),
{
    lemma2_to64();
    let s = quantum_exponent(n, d);
    let spacing = pow2(s);
    let divisor = d * spacing;
    let nearest = round_half_even(n, divisor);
    lemma_spacing_bounds(n, d);
    lemma_pow2_pos(s);
    lemma_pow2_pos(k);
    if s > k {
        lemma_pow2_increases(k + 1, s);
        lemma_pow2_adds(1, k);
        assert(nearest * spacing >= m * pow2(k)) by (nonlinear_arith)
            requires
                nearest >= 0x80_0000,
                spacing >= 2 * pow2(k),
                m < 0x100_0000,
                pow2(k) > 0,
        ;
    } else {
        let room = m * pow2((k - s) as nat);
        lemma_pow2_adds((k - s) as nat, s);
        assert(n >= divisor * room && room * spacing == m * pow2(k)) by (nonlinear_arith)
            requires
                n >= d * (m * pow2(k)),
                pow2(k) == pow2((k - s) as nat) * spacing,
                room == m * pow2((k - s) as nat),
                divisor == d * spacing,
        ;
        assert(n < divisor * (n + 1)) by (nonlinear_arith)
            requires
                divisor > 0,
        ;
        lemma_quotient_bounds(n, divisor, room, n + 1);
        assert(nearest * spacing >= room * spacing) by (nonlinear_arith)
            requires
                nearest >= room,
        ;
    }
}

/// Finds the quantum exponent of `num * 2^up / (den * 2^down)`.
fn quantum_shift(num: u64, up: u32, den: u64, down: u32) -> (shift: u64)
    requires
        0 < num < 0x100_0000_0000_0000,
        0 < den < 0x100_0000,
    ensures
        shift as nat == quantum_exponent(
            num as nat * pow2(up as nat),
            den as nat * pow2(down as nat),
        ),
{
    let ghost n: nat = num as nat * pow2(up as nat);
    let ghost d: nat = den as nat * pow2(down as nat);
    let ln = bit_length(num);
    let ld = bit_length(den);
    proof {
        lemma2_to64();
        lemma2_to64_rest();
        if ln > 56 {
            lemma_pow2_increases(56, (ln - 1) as nat);
        }
        if ld > 24 {
            lemma_pow2_increases(24, (ld - 1) as nat);
        }
        lemma_pow2_increases(ld as nat, 24);
        lemma_pow2_increases(ln as nat, 56);
    }
    let pd = pow2_u64(ld);
    let pn = pow2_u64(ln);
    proof {
        assert(num * pd < 0x1_0000_0000_0000_0000_0000) by (nonlinear_arith)
            requires
                num < 0x100_0000_0000_0000,
                pd <= 0x100_0000,
        ;
        assert(den * pn < 0x1_0000_0000_0000_0000_0000) by (nonlinear_arith)
            requires
                den < 0x100_0000,
                pn <= 0x100_0000_0000_0000,
        ;
    }
    let lhs: u128 = (num as u128) * (pd as u128);
    let rhs: u128 = (den as u128) * (pn as u128);
    let hi: u32 = if lhs < rhs { ln } else { ln + 1 };
    proof {
        let below = pow2((ln - 1) as nat);
        let dbelow = pow2((ld - 1) as nat);
        lemma_pow2_adds((ln - 1) as nat, 1);
        lemma_pow2_adds((ld - 1) as nat, 1);
        lemma_pow2_pos((ld - 1) as nat);
        if lhs < rhs {
            assert(num * pd >= den * below) by (nonlinear_arith)
                requires
                    num >= below,
                    den <= pd,
            ;
        } else {
            lemma_pow2_adds(ln as nat, 1);
            assert(num * pd < den * (pn * 2)) by (nonlinear_arith)
                requires
                    num < pn,
                    den >= dbelow,
                    pd == dbelow * 2,
                    dbelow > 0,
            ;
        }
        assert(num as nat * pow2(ld as nat) < den as nat * pow2(hi as nat));
        assert(num as nat * pow2(ld as nat) >= den as nat * pow2((hi - 1) as nat));
    }
    let wanted: i64 = hi as i64 + up as i64 - ld as i64 - down as i64 - 24;
    let shift: u64 = if wanted > 0 { wanted as u64 } else { 0 };
    proof {
        lemma_pow2_pos(down as nat);
        assert(d > 0) by (nonlinear_arith)
            requires
                d == den as nat * pow2(down as nat),
                den > 0,
                pow2(down as nat) > 0,
        ;
        lemma_scaled_lt(
            num as nat,
            den as nat,
            ld as nat,
            hi as nat,
            up as nat,
            (down + 24 + shift) as nat,
        );
        lemma_pow2_adds(down as nat, (24 + shift) as nat);
        assert(n < d * pow2((24 + shift) as nat)) by (nonlinear_arith)
            requires
                n == num as nat * pow2(up as nat),
                d == den as nat * pow2(down as nat),
                num as nat * pow2(up as nat) < den as nat * pow2((down + 24 + shift) as nat),
                pow2((down + 24 + shift) as nat) == pow2(down as nat) * pow2((24 + shift) as nat),
        ;
        if shift > 0 {
            lemma_scaled_ge(
                num as nat,
                den as nat,
                ld as nat,
                (hi - 1) as nat,
                up as nat,
                (down + 23 + shift) as nat,
            );
            lemma_pow2_adds(down as nat, (23 + shift) as nat);
            assert(n >= d * pow2((23 + shift) as nat)) by (nonlinear_arith)
                requires
                    n == num as nat * pow2(up as nat),
                    d == den as nat * pow2(down as nat),
                    num as nat * pow2(up as nat) >= den as nat * pow2((down + 23 + shift) as nat),
                    pow2((down + 23 + shift) as nat) == pow2(down as nat) * pow2(
                        (23 + shift) as nat,
                    ),
            ;
        }
        lemma_quantum_exponent_unique(n, d, shift as nat);
    }
    shift
}

/// Rounds `num * 2^up / (den * 2^down)` to a whole multiple of `2^shift`
/// and returns the multiplier.
fn nearest_multiple(num: u64, up: u32, den: u64, down: u32, shift: u32) -> (m: u32)
    requires
        0 < num < 0x100_0000_0000_0000,
        0 < den < 0x100_0000,
        shift <= 253,
        shift as nat == quantum_exponent(
            num as nat * pow2(up as nat),
            den as nat * pow2(down as nat),
        ),
    ensures
        m as nat == round_half_even(
            num as nat * pow2(up as nat),
            (den as nat * pow2(down as nat)) * pow2(shift as nat),
        ),
{
    let ghost n: nat = num as nat * pow2(up as nat);
    let ghost d: nat = den as nat * pow2(down as nat);
    let ghost spacing: nat = pow2(shift as nat);
    let ghost divisor: nat = d * spacing;
    let below: u64 = down as u64 + shift as u64;
    proof {
        lemma2_to64();
        lemma2_to64_rest();
        lemma_pow2_pos(down as nat);
        lemma_pow2_pos(up as nat);
        lemma_pow2_pos(below as nat);
        assert(d > 0) by (nonlinear_arith)
            requires
                d == den as nat * pow2(down as nat),
                den > 0,
                pow2(down as nat) > 0,
        ;
        lemma_spacing_bounds(n, d);
        lemma_pow2_adds(down as nat, shift as nat);
    }
    let quotient: u64;
    let twice_rest: u128;
    let whole: u128;
    if up as u64 >= below {
        let gain: u64 = up as u64 - below;
        proof {
            lemma_pow2_adds(gain as nat, below as nat);
            lemma_pow2_pos(gain as nat);
            let g = pow2(gain as nat);
            let b = pow2(below as nat);
            assert(n == (num * g) * b) by (nonlinear_arith)
                requires
                    n == num as nat * pow2(up as nat),
                    pow2(up as nat) == g * b,
            ;
            assert(divisor == den * b) by (nonlinear_arith)
                requires
                    divisor == (den as nat * pow2(down as nat)) * spacing,
                    b == pow2(down as nat) * spacing,
            ;
            assert(num * g < den * 0x100_0000) by (nonlinear_arith)
                requires
                    n == (num * g) * b,
                    divisor == den * b,
                    n < divisor * 0x100_0000,
                    b > 0,
            ;
            assert(g < pow2(48)) by (nonlinear_arith)
                requires
                    num * g < den * 0x100_0000,
                    num >= 1,
                    den < 0x100_0000,
                    pow2(48) == 0x1_0000_0000_0000,
            ;
            lemma_pow2_exponent_lt(gain as nat, 48);
        }
        let scaled: u64 = num * pow2_u64(gain as u32);
        quotient = scaled / den;
        twice_rest = 2 * ((scaled % den) as u128);
        whole = den as u128;
        proof {
            let b = pow2(below as nat);
            assert(n * den == scaled * divisor) by (nonlinear_arith)
                requires
                    n == scaled * b,
                    divisor == den * b,
            ;
            lemma_round_half_even_ratio(n, divisor, scaled as nat, den as nat);
        }
    } else {
        let loss: u64 = below - up as u64;
        if loss > 57 {
            proof {
                lemma_pow2_adds(up as nat, loss as nat);
                lemma_pow2_increases(58, loss as nat);
                let l = pow2(loss as nat);
                let u = pow2(up as nat);
                assert(divisor == den * (u * l)) by (nonlinear_arith)
                    requires
                        divisor == (den as nat * pow2(down as nat)) * spacing,
                        pow2(below as nat) == pow2(down as nat) * spacing,
                        pow2(below as nat) == u * l,
                ;
                assert(2 * n < divisor) by (nonlinear_arith)
                    requires
                        n == num as nat * u,
                        divisor == den * (u * l),
                        l >= 0x400_0000_0000_0000,
                        num < 0x100_0000_0000_0000,
                        den >= 1,
                        u > 0,
                ;
                lemma_small_mod(n, divisor);
                lemma_basic_div(n as int, divisor as int);
            }
            return 0;
        }
        let l64 = pow2_u64(loss as u32);
        proof {
            lemma_pow2_increases(loss as nat, 57);
            assert(0 < den * l64 < 0x200_0000_0000_0000_0000_0000) by (nonlinear_arith)
                requires
                    0 < den < 0x100_0000,
                    0 < l64 <= 0x200_0000_0000_0000,
            ;
        }
        let wide: u128 = (den as u128) * (l64 as u128);
        quotient = ((num as u128) / wide) as u64;
        twice_rest = 2 * ((num as u128) % wide);
        whole = wide;
        proof {
            lemma_pow2_adds(up as nat, loss as nat);
            let l = pow2(loss as nat);
            let u = pow2(up as nat);
            assert(n * wide == num * divisor) by (nonlinear_arith)
                requires
                    n == num as nat * u,
                    wide == den * l,
                    divisor == (den as nat * pow2(down as nat)) * spacing,
                    pow2(below as nat) == u * l,
                    pow2(below as nat) == pow2(down as nat) * spacing,
            ;
            lemma_round_half_even_ratio(n, divisor, num as nat, wide as nat);
        }
    }
    let rounded_up = twice_rest > whole || (twice_rest == whole && quotient % 2 == 1);
    if rounded_up {
        (quotient + 1) as u32
    } else {
        quotient as u32
    }
}

/// The value nearest to `num * 2^up / (den * 2^down)` units, with the given
/// sign, as a bit pattern. The bounds on `num` and `den` keep the working
/// values within 128-bit words.
pub fn round_pack(negative: bool, num: u64, up: u32, den: u64, down: u32) -> (r: Binary32)
    requires
        num < 0x100_0000_0000_0000,
        0 < den < 0x100_0000,
    ensures
        r@ == rounded(
            negative,
            num as nat * pow2(up as nat),
            den as nat * pow2(down as nat),
        ),
{
    let ghost n: nat = num as nat * pow2(up as nat);
    let ghost d: nat = den as nat * pow2(down as nat);
    proof {
        lemma_pow2_pos(down as nat);
        assert(d > 0) by (nonlinear_arith)
            requires
                d == den as nat * pow2(down as nat),
                den > 0,
                pow2(down as nat) > 0,
        ;
    }
    if num == 0 {
        proof {
            assert(n == 0) by (nonlinear_arith)
                requires
                    n == num as nat * pow2(up as nat),
                    num == 0,
            ;
            lemma_nearest_units_zero(d);
            lemma_pow2_pos(277);
        }
        return Binary32::zero(negative);
    }
    let shift = quantum_shift(num, up, den, down);
    let ghost spacing: nat = pow2(shift as nat);
    let ghost nearest: nat = round_half_even(n, d * spacing);
    proof {
        lemma_spacing_bounds(n, d);
        assert(nearest_units(n, d) == nearest * spacing);
    }
    if shift > 253 {
        proof {
            lemma2_to64();
            lemma_pow2_increases(254, shift as nat);
            lemma_pow2_adds(23, 254);
            assert(nearest * spacing >= pow2(277)) by (nonlinear_arith)
                requires
                    nearest >= 0x80_0000,
                    spacing >= pow2(254),
                    pow2(277) == pow2(23) * pow2(254),
                    pow2(23) == 0x80_0000,
            ;
        }
        return Binary32::infinity(negative);
    }
    let shift: u32 = shift as u32;
    let significand = nearest_multiple(num, up, den, down, shift);
    proof {
        lemma2_to64();
        lemma_pow2_pos(253);
        lemma_pow2_adds(24, 253);
        lemma_pow2_adds(23, 254);
        lemma_pow2_adds(1, shift as nat);
        lemma_pow2_adds(1, 253);
    }
    if significand == 0x100_0000 {
        proof {
            assert(nearest * spacing == 0x80_0000 * pow2((shift + 1) as nat)) by (nonlinear_arith)
                requires
                    nearest == 0x100_0000,
                    pow2((shift + 1) as nat) == 2 * spacing,
            ;
        }
        if shift == 253 {
            Binary32::infinity(negative)
        } else {
            proof {
                lemma_pow2_increases((shift + 1) as nat, 253);
                assert(0x80_0000 * pow2((shift + 1) as nat) < pow2(277)) by (nonlinear_arith)
                    requires
                        pow2((shift + 1) as nat) <= pow2(253),
                        pow2(277) == 0x100_0000 * pow2(253),
                        pow2(253) > 0,
                ;
            }
            Binary32::from_parts(negative, 0x80_0000, shift + 1)
        }
    } else {
        proof {
            lemma_pow2_increases(shift as nat, 253);
            assert(nearest * spacing < pow2(277)) by (nonlinear_arith)
                requires
                    nearest < 0x100_0000,
                    spacing <= pow2(253),
                    pow2(277) == 0x100_0000 * pow2(253),
                    pow2(253) > 0,
            ;
        }
        Binary32::from_parts(negative, significand, shift)
    }
}

} // verus!
