//! Rounding of exact ratios to binary64, to nearest with ties to even.
//!
//! Magnitudes are measured in units of the smallest subnormal, `2^-1074`:
//! every finite binary64 magnitude is a whole number of units.
use vstd::prelude::*;
use vstd::arithmetic::div_mod::{lemma_fundamental_div_mod, lemma_fundamental_div_mod_converse};
use vstd::arithmetic::mul::lemma_mul_is_commutative;
use crate::bignum::{big_bitlen, big_compare, big_copy, big_is_zero, big_shl, big_sub, pow2_u64, val};
use crate::number::{
    HIDDEN_BIT, INF_BITS, spec_is_nan, spec_magnitude, spec_sign, bitlen_u64, lemma_pow2_63, lemma_pow2_add, lemma_pow2_mono_num,
    lemma_pow2_pos_num, pow2_exec, signed, signed_exec,
};

verus! {

/// The scale `k` at which `num / den` units are rounded: the smallest
/// `k >= j` with `num / den < 2^(53 + k)`. At that scale the significand
/// has 53 bits (fewer for subnormals, where `k` is 0).
pub open spec fn binade_from(num: nat, den: nat, j: nat) -> nat
    decreases 1_000_000 - j,
{
    if j >= 1_000_000 || num < den * pow2_u64(53 + j) {
        j
    } else {
        binade_from(num, den, j + 1)
    }
}

/// The magnitude encoding of the significand `m` (at most `2^53`) at scale
/// `k`: a carry into `2^53` moves up one binade, a significand below `2^52`
/// is subnormal, and a biased exponent of 2047 or more is infinity.
pub open spec fn pack_units(m: nat, k: nat) -> u64 {
    let m1 = if m == pow2_u64(53) {
        pow2_u64(52)
    } else {
        m
    };
    let k1 = if m == pow2_u64(53) {
        k + 1
    } else {
        k
    };
    if m1 < pow2_u64(52) {
        m1 as u64
    } else if k1 + 1 >= 2047 {
        INF_BITS
    } else {
        ((k1 + 1) * pow2_u64(52) + (m1 - pow2_u64(52))) as u64
    }
}

/// Whether a quotient with remainder `r0` of `unit` rounds up: past the
/// half, or on it with an odd quotient.
pub open spec fn rounds_up(m0: nat, r0: nat, unit: nat) -> bool {
    2 * r0 > unit || (2 * r0 == unit && m0 % 2 == 1)
}

/// The magnitude encoding nearest to `num / den` units, ties to the even
/// significand; infinity past the largest finite value.
pub open spec fn round_units(num: nat, den: nat) -> u64 {
    let k = binade_from(num, den, 0);
    let unit = den * pow2_u64(k);
    let m0 = num / unit;
    let m = if rounds_up(m0, num % unit, unit) {
        m0 + 1
    } else {
        m0
    };
    pack_units(m, k)
}

/// `qq * 2^u` as the numerator of a ratio with a whole denominator.
pub open spec fn exact_num(qq: nat, u: int) -> nat {
    if u >= 0 {
        qq * pow2_u64(u as nat)
    } else {
        qq
    }
}

/// The denominator that goes with `exact_num`.
pub open spec fn exact_den(rd: nat, u: int) -> nat {
    if u >= 0 {
        rd
    } else {
        rd * pow2_u64((-u) as nat)
    }
}

pub(crate) proof fn lemma_binade_from(num: nat, den: nat, j: nat, k: nat)
    requires
        j <= k < 1_000_000,
        num < den * pow2_u64(53 + k),
        k > 0 ==> num >= den * pow2_u64(52 + k),
    ensures
        binade_from(num, den, j) == k,
    decreases k - j,
{
    if j < k {
        lemma_pow2_mono_num(53 + j, 52 + k);
        assert(den * pow2_u64(53 + j) <= den * pow2_u64(52 + k)) by (nonlinear_arith)
            requires
                pow2_u64(53 + j) <= pow2_u64(52 + k),
        ;
        lemma_binade_from(num, den, j + 1, k);
    }
}

/// The scale factors of the ratio: `exact_den(rd, u) * 2^(j + k)` is
/// `rd * 2^(j + shift) * c` where `k = shift + u`.
proof fn lemma_scale(rd: nat, u: int, shift: nat, j: nat)
    requires
        shift + u >= 0,
    ensures
        exact_den(rd, u) * pow2_u64((j + shift + u) as nat) == rd * pow2_u64(j + shift) * (if u
            >= 0 {
            pow2_u64(u as nat)
        } else {
            1
        }),
{
    if u >= 0 {
        lemma_pow2_add(j + shift, u as nat);
        assert((j + shift + u) as nat == j + shift + u as nat);
        assert(rd * (pow2_u64(j + shift) * pow2_u64(u as nat)) == rd * pow2_u64(j + shift)
            * pow2_u64(u as nat)) by (nonlinear_arith);
    } else {
        let a = (-u) as nat;
        let b = (j + shift + u) as nat;
        lemma_pow2_add(a, b);
        assert(a + b == j + shift);
        assert(rd * pow2_u64(a) * pow2_u64(b) == rd * (pow2_u64(a) * pow2_u64(b)))
            by (nonlinear_arith);
    }
}

/// The binade of `(q + rn/rd) * 2^(u - 1074)` when `q` has `n` bits and
/// the significand is taken `s` bits below `q`'s lowest: `k = s + u`.
proof fn lemma_pack_binade(q: nat, rn: nat, rd: nat, u: int, n: nat, s: nat)
    requires
        rn < rd,
        56 <= n <= 58,
        pow2_u64((n - 1) as nat) <= q < pow2_u64(n),
        s + 53 >= n,
        s + u >= 0,
        s + u > 0 ==> s + 53 == n,
        -100_000 < u < 200_000,
        s < 200_000,
    ensures
        binade_from(exact_num(q * rd + rn, u), exact_den(rd, u), 0) == s + u,
{
    let qq: nat = q * rd + rn;
    let k: nat = (s + u) as nat;
    let c: nat = if u >= 0 {
        pow2_u64(u as nat)
    } else {
        1
    };
    let num = exact_num(qq, u);
    let den = exact_den(rd, u);
    lemma_pow2_pos_num(u as nat);
    assert(num == qq * c);
    assert(qq < pow2_u64(n) * rd) by (nonlinear_arith)
        requires
            qq == q * rd + rn,
            rn < rd,
            q < pow2_u64(n),
    ;
    lemma_pow2_mono_num(n, 53 + s);
    assert(qq < rd * pow2_u64(53 + s)) by (nonlinear_arith)
        requires
            qq < pow2_u64(n) * rd,
            pow2_u64(n) <= pow2_u64(53 + s),
    ;
    lemma_scale(rd, u, s, 53);
    assert((53 + s + u) as nat == 53 + k);
    assert(num < den * pow2_u64(53 + k)) by (nonlinear_arith)
        requires
            qq < rd * pow2_u64(53 + s),
            num == qq * c,
            den * pow2_u64(53 + k) == rd * pow2_u64(53 + s) * c,
            c > 0,
    ;
    if k > 0 {
        lemma_scale(rd, u, s, 52);
        assert((52 + s + u) as nat == 52 + k);
        assert((52 + s) as nat == (n - 1) as nat);
        assert(pow2_u64((n - 1) as nat) * rd <= qq) by (nonlinear_arith)
            requires
                qq == q * rd + rn,
                pow2_u64((n - 1) as nat) <= q,
        ;
        assert(num >= den * pow2_u64(52 + k)) by (nonlinear_arith)
            requires
                pow2_u64(52 + s) * rd <= qq,
                num == qq * c,
                den * pow2_u64(52 + k) == rd * pow2_u64(52 + s) * c,
                c > 0,
        ;
    }
    lemma_binade_from(num, den, 0, k);
}

/// The powers of two that bound significands.
proof fn lemma_pow2_consts()
    ensures
        pow2_u64(52) == HIDDEN_BIT,
        pow2_u64(53) == 2 * HIDDEN_BIT,
        pow2_u64(55) == 0x80_0000_0000_0000,
        pow2_u64(58) == 0x400_0000_0000_0000,
        pow2_u64(60) == 4 * 0x400_0000_0000_0000,
{
    reveal_with_fuel(pow2_u64, 61);
}

/// Below the smallest subnormal's half: a ratio that is at most `q` units
/// of `2^-s` with `s >= 60` rounds to zero.
proof fn lemma_pack_tiny(q: nat, rn: nat, rd: nat, u: int, n: nat, s: nat)
    requires
        rn < rd,
        56 <= n <= 58,
        pow2_u64((n - 1) as nat) <= q < pow2_u64(n),
        s >= 60,
        s + u == 0,
        s < 100_000,
    ensures
        round_units(exact_num(q * rd + rn, u), exact_den(rd, u)) == 0,
{
    let qq: nat = q * rd + rn;
    let num = exact_num(qq, u);
    let den = exact_den(rd, u);
    lemma_pack_binade(q, rn, rd, u, n, s);
    assert(binade_from(num, den, 0) == 0);
    let unit = den * pow2_u64(0);
    assert(num == qq && unit == rd * pow2_u64(s)) by {
        assert(pow2_u64(0) == 1);
        assert((-u) as nat == s);
    }
    assert(2 * qq < unit) by {
        lemma_pow2_mono_num(n, 58);
        lemma_pow2_mono_num(60, s);
        lemma_pow2_consts();
        assert(2 * qq < unit) by (nonlinear_arith)
            requires
                qq == q * rd + rn,
                rn < rd,
                q < 0x400_0000_0000_0000,
                unit == rd * pow2_u64(s),
                pow2_u64(s) >= 4 * 0x400_0000_0000_0000,
        ;
    }
    assert(unit == den) by {
        assert(pow2_u64(0) == 1);
    }
    lemma_round_units_zero(num, den);
}

/// A ratio below half a unit at the lowest scale rounds to zero.
proof fn lemma_round_units_zero(num: nat, den: nat)
    requires
        binade_from(num, den, 0) == 0,
        2 * num < den,
    ensures
        round_units(num, den) == 0,
{
    assert(pow2_u64(0) == 1);
    let unit = den * pow2_u64(0);
    assert(unit == den);
    lemma_fundamental_div_mod_converse(num as int, den as int, 0, num as int);
    assert(!rounds_up(0, num % unit, unit));
    assert(pow2_u64(52) > 0) by {
        lemma_pow2_pos_num(52);
    }
    assert(pack_units(0, 0) == 0);
}

/// Comparing `t + rn/rd` with `half`, for `rn < rd`.
proof fn lemma_compare_half(t: nat, rn: nat, rd: nat, half: nat)
    requires
        rn < rd,
    ensures
        (t * rd + rn > half * rd) == (t > half || (t == half && rn > 0)),
        (t * rd + rn == half * rd) == (t == half && rn == 0),
{
    if t > half {
        assert(t * rd + rn > half * rd) by (nonlinear_arith)
            requires
                t >= half + 1,
                rn < rd,
        ;
    } else if t < half {
        assert(t * rd + rn < half * rd) by (nonlinear_arith)
            requires
                t + 1 <= half,
                rn < rd,
        ;
    }
}

/// Dividing the ratio by its unit at scale `k = s + u`: the quotient and the
/// rounding decision come from `q = m0 * 2^s + t` and whether `rn` is zero.
proof fn lemma_pack_divmod(
    q: nat,
    rn: nat,
    rd: nat,
    u: int,
    s: nat,
    p: nat,
    half: nat,
    m0: nat,
    t: nat,
)
    requires
        rn < rd,
        s + u >= 0,
        s >= 1,
        p == pow2_u64(s),
        p == 2 * half,
        q == m0 * p + t,
        t < p,
        u < 200_000,
    ensures
        ({
            let num = exact_num(q * rd + rn, u);
            let unit = exact_den(rd, u) * pow2_u64((s + u) as nat);
            &&& num / unit == m0
            &&& rounds_up(m0, num % unit, unit) == (t > half || (t == half && (rn > 0 || m0 % 2
                == 1)))
        }),
{
    let qq: nat = q * rd + rn;
    let c: nat = if u >= 0 {
        pow2_u64(u as nat)
    } else {
        1
    };
    let num = exact_num(qq, u);
    let unit = exact_den(rd, u) * pow2_u64((s + u) as nat);
    lemma_pow2_pos_num(u as nat);
    assert(num == qq * c);
    lemma_scale(rd, u, s, 0);
    assert((0 + s + u) as nat == (s + u) as nat);
    assert(pow2_u64(0 + s) == p);
    assert(unit == rd * p * c);
    let r0: nat = (t * rd + rn) * c;
    assert(num == m0 * unit + r0) by (nonlinear_arith)
        requires
            num == qq * c,
            qq == q * rd + rn,
            q == m0 * p + t,
            unit == rd * p * c,
            r0 == (t * rd + rn) * c,
    ;
    assert(t * rd + rn < rd * p) by (nonlinear_arith)
        requires
            t < p,
            rn < rd,
    ;
    assert(r0 < unit) by (nonlinear_arith)
        requires
            t * rd + rn < rd * p,
            c > 0,
            r0 == (t * rd + rn) * c,
            unit == rd * p * c,
    ;
    lemma_fundamental_div_mod_converse(num as int, unit as int, m0 as int, r0 as int);
    assert(2 * r0 > unit <==> t * rd + rn > half * rd) by (nonlinear_arith)
        requires
            c > 0,
            r0 == (t * rd + rn) * c,
            unit == rd * p * c,
            p == 2 * half,
    ;
    assert(2 * r0 == unit <==> t * rd + rn == half * rd) by (nonlinear_arith)
        requires
            c > 0,
            r0 == (t * rd + rn) * c,
            unit == rd * p * c,
            p == 2 * half,
    ;
    lemma_compare_half(t, rn, rd, half);
}

/// Packs `(q + rn/rd) * 2^e`, for `2^55 <= q < 2^58` and `0 <= rn < rd`,
/// into the nearest binary64 encoding with the given sign, ties to even.
/// Only whether `rn` is zero (`sticky`) is needed to compute it.
#[verifier::spinoff_prover]
pub(crate) fn round_pack(
    neg: bool,
    q: u64,
    e: i64,
    sticky: bool,
    Ghost(rn): Ghost<nat>,
    Ghost(rd): Ghost<nat>,
) -> (r: u64)
    requires
        0x80_0000_0000_0000 <= q < 0x400_0000_0000_0000,
        -100_000 < e < 100_000,
        rn < rd,
        sticky == (rn > 0),
    ensures
        r == signed(
            neg,
            round_units(exact_num((q * rd + rn) as nat, e + 1074), exact_den(rd, e + 1074)),
        ),
{
    let n = bitlen_u64(q);
    proof {
        lemma_pow2_63();
        assert(pow2_u64(58) == 0x400_0000_0000_0000) by {
            reveal_with_fuel(pow2_u64, 59);
        }
        assert(pow2_u64(55) == 0x80_0000_0000_0000) by {
            reveal_with_fuel(pow2_u64, 56);
        }
        lemma_pow2_mono_num(58, 63);
        if n > 58 {
            lemma_pow2_mono_num(58, (n - 1) as nat);
        }
        if n < 56 {
            lemma_pow2_mono_num(n as nat, 55);
        }
    }
    let shift_norm: i64 = n as i64 - 53;
    let shift_sub: i64 = -1074 - e;
    let shift: i64 = if shift_norm > shift_sub {
        shift_norm
    } else {
        shift_sub
    };
    let ghost u: int = e + 1074;
    let ghost s: nat = shift as nat;
    let ghost k: nat = (shift + u) as nat;
    let ghost num = exact_num((q * rd + rn) as nat, u);
    let ghost den = exact_den(rd, u);
    proof {
        lemma_pack_binade(q as nat, rn, rd, u, n as nat, s);
    }
    if shift >= 60 {
        proof {
            lemma_pack_tiny(q as nat, rn, rd, u, n as nat, s);
        }
        return signed_exec(neg, 0);
    }
    let p = pow2_exec(shift as u64);
    let half = pow2_exec((shift - 1) as u64);
    let m0 = q / p;
    let t = q % p;
    let up = t > half || (t == half && (sticky || m0 % 2 == 1));
    proof {
        assert(pow2_u64(53) == 2 * HIDDEN_BIT) by {
            reveal_with_fuel(pow2_u64, 54);
        }
        assert(pow2_u64(52) == HIDDEN_BIT) by {
            reveal_with_fuel(pow2_u64, 53);
        }
        assert(m0 < pow2_u64(53) && round_units(num, den) == pack_units(
            if up {
                (m0 + 1) as nat
            } else {
                m0 as nat
            },
            k,
        )) by {
            assert(pow2_u64(s) == 2 * pow2_u64((s - 1) as nat));
            assert(q == m0 * p + t) by {
                lemma_fundamental_div_mod(q as int, p as int);
                lemma_mul_is_commutative(p as int, m0 as int);
            }
            lemma_pack_divmod(
                q as nat,
                rn,
                rd,
                u,
                s,
                p as nat,
                half as nat,
                m0 as nat,
                t as nat,
            );
            lemma_pow2_add(53, s);
            lemma_pow2_mono_num(n as nat, 53 + s);
            assert(q < pow2_u64(n as nat));
            assert(m0 < pow2_u64(53)) by (nonlinear_arith)
                requires
                    q < pow2_u64(n as nat),
                    q == m0 * p + t,
                    pow2_u64(n as nat) <= pow2_u64(53 + s),
                    pow2_u64(53 + s) == pow2_u64(53) * p,
                    p > 0,
            ;
        }
    }
    let mut m = m0;
    if up {
        m = m + 1;
    }
    let mut l: i64 = e + shift;
    if m >= 2 * HIDDEN_BIT {
        m = m / 2;
        l = l + 1;
    }
    if m >= HIDDEN_BIT {
        let biased: i64 = l + 1075;
        if biased >= 2047 {
            return signed_exec(neg, INF_BITS);
        }
        let mag: u64 = (biased as u64) * HIDDEN_BIT + (m - HIDDEN_BIT);
        assert(mag < INF_BITS);
        return signed_exec(neg, mag);
    }
    signed_exec(neg, m)
}

/// The nonnegative part of an exponent.
pub open spec fn pos_part(u: int) -> nat {
    if u >= 0 {
        u as nat
    } else {
        0
    }
}

proof fn lemma_exact_forms(x: nat, y: nat, u: int)
    ensures
        exact_num(x, u) == x * pow2_u64(pos_part(u)),
        exact_den(y, u) == y * pow2_u64(pos_part(-u)),
{
    assert(pow2_u64(0) == 1);
    if u >= 0 {
        assert(pos_part(-u) == 0);
        assert(y * pow2_u64(0) == y);
    } else {
        assert(pos_part(u) == 0);
        assert(x * pow2_u64(0) == x);
    }
}

/// `2^v+ * 2^(s-v)+ == 2^s * 2^(v-s)+ * 2^(-v)+`: moving `s` powers of two
/// from the numerator's exponent to a factor.
proof fn lemma_pos_parts(v: int, s: nat)
    ensures
        pow2_u64(pos_part(v)) * pow2_u64(pos_part(s - v)) == pow2_u64(s) * pow2_u64(
            pos_part(v - s),
        ) * pow2_u64(pos_part(-v)),
{
    lemma_pow2_add(pos_part(v), pos_part(s - v));
    lemma_pow2_add(s, pos_part(v - s));
    lemma_pow2_add(s + pos_part(v - s), pos_part(-v));
    assert(pos_part(v) + pos_part(s - v) == s + pos_part(v - s) + pos_part(-v));
}

/// `binade_from` depends on the ratio only.
proof fn lemma_binade_scale(num: nat, den: nat, c: nat, j: nat)
    requires
        c > 0,
    ensures
        binade_from(num * c, den * c, j) == binade_from(num, den, j),
    decreases 1_000_000 - j,
{
    let p = pow2_u64(53 + j);
    assert((num * c < den * c * p) == (num < den * p)) by (nonlinear_arith)
        requires
            c > 0,
    ;
    if j < 1_000_000 && !(num < den * p) {
        lemma_binade_scale(num, den, c, j + 1);
    }
}

/// `round_units` depends on the ratio only.
pub(crate) proof fn lemma_round_units_scale(num: nat, den: nat, c: nat)
    requires
        c > 0,
        den > 0,
    ensures
        round_units(num * c, den * c) == round_units(num, den),
{
    lemma_binade_scale(num, den, c, 0);
    let k = binade_from(num, den, 0);
    let unit = den * pow2_u64(k);
    lemma_pow2_pos_num(k);
    assert(unit > 0) by (nonlinear_arith)
        requires
            den > 0,
            pow2_u64(k) > 0,
            unit == den * pow2_u64(k),
    ;
    let m0 = num / unit;
    let r0 = num % unit;
    lemma_fundamental_div_mod(num as int, unit as int);
    assert(den * c * pow2_u64(k) == unit * c) by (nonlinear_arith)
        requires
            unit == den * pow2_u64(k),
    ;
    assert(num * c == m0 * (unit * c) + r0 * c) by (nonlinear_arith)
        requires
            num == unit * m0 + r0,
    ;
    assert(r0 * c < unit * c) by (nonlinear_arith)
        requires
            r0 < unit,
            c > 0,
    ;
    lemma_fundamental_div_mod_converse(
        (num * c) as int,
        (unit * c) as int,
        m0 as int,
        (r0 * c) as int,
    );
    assert(rounds_up(m0, r0 * c, unit * c) == rounds_up(m0, r0, unit)) by (nonlinear_arith)
        requires
            c > 0,
    ;
}

/// Two ratios that are equal round alike.
pub(crate) proof fn lemma_round_units_cross(n1: nat, d1: nat, n2: nat, d2: nat)
    requires
        d1 > 0,
        d2 > 0,
        n1 * d2 == n2 * d1,
    ensures
        round_units(n1, d1) == round_units(n2, d2),
{
    lemma_round_units_scale(n1, d1, d2);
    lemma_round_units_scale(n2, d2, d1);
    assert(d1 * d2 == d2 * d1) by (nonlinear_arith);
}

/// Scaling the numerator by `2^s` (for `s >= 0`) or the denominator by
/// `2^-s` (for `s < 0`) while lowering the exponent by `s` keeps the value.
proof fn lemma_rescaled_ratio(x: nat, y: nat, u: int, s: int, xs: nat, ys: nat)
    requires
        y > 0,
        s >= 0 ==> xs == x * pow2_u64(s as nat) && ys == y,
        s < 0 ==> xs == x && ys == y * pow2_u64((-s) as nat),
    ensures
        round_units(exact_num(xs, u - s), exact_den(ys, u - s)) == round_units(
            exact_num(x, u),
            exact_den(y, u),
        ),
{
    lemma_exact_forms(xs, ys, u - s);
    lemma_exact_forms(x, y, u);
    lemma_pow2_pos_num(pos_part(-u));
    lemma_pow2_pos_num(pos_part(-(u - s)));
    lemma_pow2_pos_num((-s) as nat);
    let n1 = exact_num(xs, u - s);
    let d1 = exact_den(ys, u - s);
    let n2 = exact_num(x, u);
    let d2 = exact_den(y, u);
    let pa = pow2_u64(pos_part(u - s));
    let qa = pow2_u64(pos_part(-(u - s)));
    let pb = pow2_u64(pos_part(u));
    let qb = pow2_u64(pos_part(-u));
    if s >= 0 {
        let t = pow2_u64(s as nat);
        lemma_pos_parts(u, s as nat);
        assert(pos_part(s - u) == pos_part(-(u - s)));
        assert(pb * qa == t * pa * qb);
        assert(n1 * d2 == n2 * d1) by (nonlinear_arith)
            requires
                n1 == x * t * pa,
                d1 == y * qa,
                n2 == x * pb,
                d2 == y * qb,
                pb * qa == t * pa * qb,
        ;
    } else {
        let s2 = (-s) as nat;
        let t = pow2_u64(s2);
        lemma_pos_parts(u - s, s2);
        assert(u - s - s2 == u);
        assert(pos_part(s2 - (u - s)) == pos_part(-u));
        assert(pa * qb == t * pb * qa);
        assert(n1 * d2 == n2 * d1) by (nonlinear_arith)
            requires
                n1 == x * pa,
                d1 == y * t * qa,
                n2 == x * pb,
                d2 == y * qb,
                pa * qb == t * pb * qa,
        ;
    }
    assert(d1 > 0 && d2 > 0) by (nonlinear_arith)
        requires
            y > 0,
            s >= 0 ==> ys == y,
            s < 0 ==> ys == y * pow2_u64((-s) as nat),
            pow2_u64((-s) as nat) > 0,
            d1 == ys * qa,
            d2 == y * qb,
            qa > 0,
            qb > 0,
    ;
    lemma_round_units_cross(n1, d1, n2, d2);
}

/// With `s = 56 + ld - ln` for the bit lengths of `x` and `y`, the scaled
/// ratio lies strictly between `2^55` and `2^57`.
proof fn lemma_ratio_window(x: nat, y: nat, ln: nat, ld: nat, s: int, xs: nat, ys: nat)
    requires
        ln >= 1,
        ld >= 1,
        pow2_u64((ln - 1) as nat) <= x < pow2_u64(ln),
        pow2_u64((ld - 1) as nat) <= y < pow2_u64(ld),
        s == 56 + ld - ln,
        s >= 0 ==> xs == x * pow2_u64(s as nat) && ys == y,
        s < 0 ==> xs == x && ys == y * pow2_u64((-s) as nat),
    ensures
        pow2_u64(55) * ys < xs,
        xs < pow2_u64(57) * ys,
{
    if s >= 0 {
        let t = pow2_u64(s as nat);
        lemma_pow2_pos_num(55);
        lemma_pow2_pos_num(s as nat);
        lemma_pow2_add((ln - 1) as nat, s as nat);
        lemma_pow2_add(ln, s as nat);
        lemma_pow2_add(55, ld);
        lemma_pow2_add(57, (ld - 1) as nat);
        assert(((ln - 1) as nat + s as nat) == 55 + ld);
        assert(ln + s as nat == 57 + (ld - 1) as nat);
        assert(pow2_u64(55) * y < pow2_u64(55) * pow2_u64(ld)) by (nonlinear_arith)
            requires
                y < pow2_u64(ld),
                pow2_u64(55) > 0,
        ;
        assert(pow2_u64((ln - 1) as nat) * t <= x * t) by (nonlinear_arith)
            requires
                pow2_u64((ln - 1) as nat) <= x,
        ;
        assert(x * t < pow2_u64(ln) * t) by (nonlinear_arith)
            requires
                x < pow2_u64(ln),
                t > 0,
        ;
        assert(pow2_u64(57) * pow2_u64((ld - 1) as nat) <= pow2_u64(57) * y) by (nonlinear_arith)
            requires
                pow2_u64((ld - 1) as nat) <= y,
        ;
    } else {
        let s2 = (-s) as nat;
        let t = pow2_u64(s2);
        lemma_pow2_pos_num(55);
        lemma_pow2_pos_num(57);
        lemma_pow2_pos_num(s2);
        lemma_pow2_add(ld, s2);
        lemma_pow2_add(55, ld + s2);
        lemma_pow2_add((ld - 1) as nat, s2);
        lemma_pow2_add(57, (ld - 1) as nat + s2);
        assert(55 + ld + s2 == (ln - 1) as nat);
        assert(57 + (ld - 1) as nat + s2 == ln);
        assert(y * t < pow2_u64(ld) * t) by (nonlinear_arith)
            requires
                y < pow2_u64(ld),
                t > 0,
        ;
        assert(pow2_u64(55) * (y * t) < pow2_u64(55) * (pow2_u64(ld) * t)) by (nonlinear_arith)
            requires
                y * t < pow2_u64(ld) * t,
                pow2_u64(55) > 0,
        ;
        assert(pow2_u64((ld - 1) as nat) * t <= y * t) by (nonlinear_arith)
            requires
                pow2_u64((ld - 1) as nat) <= y,
        ;
        assert(pow2_u64(57) * (pow2_u64((ld - 1) as nat) * t) <= pow2_u64(57) * (y * t))
            by (nonlinear_arith)
            requires
                pow2_u64((ld - 1) as nat) * t <= y * t,
        ;
    }
}

/// Rounds `val(num) / val(den) * 2^e2` to the nearest binary64 encoding
/// with the given sign, ties to even.
pub(crate) fn round_ratio(neg: bool, num: &Vec<u32>, den: &Vec<u32>, e2: i64) -> (r: u64)
    requires
        num.len() <= 2048,
        den.len() <= 2048,
        -10_000 <= e2 <= 10_000,
        val(num@) > 0,
        val(den@) > 0,
    ensures
        r == signed(
            neg,
            round_units(exact_num(val(num@), e2 + 1074), exact_den(val(den@), e2 + 1074)),
        ),
{
    let ln = big_bitlen(num);
    let ld = big_bitlen(den);
    let s: i64 = 56 + ld as i64 - ln as i64;
    let a: Vec<u32> = if s > 0 {
        big_shl(num, s as usize)
    } else {
        big_copy(num)
    };
    let b: Vec<u32> = if s < 0 {
        big_shl(den, (-s) as usize)
    } else {
        big_copy(den)
    };
    let ghost va = val(a@);
    let ghost vb = val(b@);
    proof {
        assert(pow2_u64(0) == 1);
        assert(val(num@) * 1 == val(num@));
        assert(s >= 0 ==> va == val(num@) * pow2_u64(s as nat));
        assert(s >= 0 ==> vb == val(den@));
        assert(s < 0 ==> va == val(num@));
        assert(s < 0 ==> vb == val(den@) * pow2_u64((-s) as nat));
        lemma_ratio_window(val(num@), val(den@), ln as nat, ld as nat, s as int, va, vb);
        lemma_pow2_consts();
        assert(pow2_u64(57) == 0x200_0000_0000_0000) by {
            reveal_with_fuel(pow2_u64, 58);
        }
        lemma_pow2_pos_num(s as nat);
        lemma_pow2_pos_num((-s) as nat);
        assert(vb > 0) by (nonlinear_arith)
            requires
                s >= 0 ==> vb == val(den@),
                s < 0 ==> vb == val(den@) * pow2_u64((-s) as nat),
                pow2_u64((-s) as nat) > 0,
                val(den@) > 0,
        ;
        assert(va < vb * pow2_u64(58)) by (nonlinear_arith)
            requires
                va < pow2_u64(57) * vb,
                pow2_u64(58) == 2 * pow2_u64(57),
        ;
    }
    let mut rem = a;
    let mut q: u64 = 0;
    let mut i: u64 = 58;
    while i > 0
        invariant
            i <= 58,
            vb > 0,
            val(b@) == vb,
            val(rem@) + q * vb == va,
            val(rem@) < vb * pow2_u64(i as nat),
            va < pow2_u64(57) * vb,
            pow2_u64(57) == 0x200_0000_0000_0000,
            rem.len() <= 4200,
            b.len() <= 4120,
        decreases i,
    {
        i = i - 1;
        let t = big_shl(&b, i as usize);
        if big_compare(&rem, &t) >= 0 {
            let ghost old_rem = val(rem@);
            let bit = pow2_exec(i);
            proof {
                assert(pow2_u64((i + 1) as nat) == 2 * pow2_u64(i as nat));
                assert((q + bit) * vb <= va) by (nonlinear_arith)
                    requires
                        old_rem + q * vb == va,
                        old_rem >= vb * bit,
                ;
                assert(q + bit < pow2_u64(57)) by (nonlinear_arith)
                    requires
                        (q + bit) * vb <= va,
                        va < pow2_u64(57) * vb,
                        vb > 0,
                ;
                assert((old_rem - vb * bit) + (q + bit) * vb == va) by (nonlinear_arith)
                    requires
                        old_rem + q * vb == va,
                ;
                assert(old_rem - vb * bit < vb * bit) by (nonlinear_arith)
                    requires
                        old_rem < vb * pow2_u64((i + 1) as nat),
                        pow2_u64((i + 1) as nat) == 2 * bit,
                ;
            }
            rem = big_sub(&rem, &t);
            q = q + bit;
        }
    }
    proof {
        assert(pow2_u64(0) == 1);
        assert(q >= pow2_u64(55)) by (nonlinear_arith)
            requires
                val(rem@) + q * vb == va,
                val(rem@) < vb * 1,
                pow2_u64(55) * vb < va,
        ;
        assert(q < pow2_u64(58)) by (nonlinear_arith)
            requires
                val(rem@) + q * vb == va,
                va < pow2_u64(57) * vb,
                vb > 0,
                pow2_u64(58) == 2 * pow2_u64(57),
        ;
    }
    let sticky = !big_is_zero(&rem);
    let r = round_pack(neg, q, e2 - s, sticky, Ghost(val(rem@)), Ghost(vb));
    proof {
        assert((q * vb + val(rem@)) as nat == va);
        assert(e2 - s + 1074 == (e2 + 1074) - s);
        lemma_rescaled_ratio(val(num@), val(den@), e2 + 1074, s as int, va, vb);
    }
    r
}

/// A ratio given by exponents: `exact_num(x, w) / exact_den(y, w)` is
/// `x * 2^alpha / (y * 2^beta)` whenever `alpha - beta == w`.
pub(crate) proof fn lemma_exact_as_pow2(x: nat, y: nat, w: int, alpha: nat, beta: nat)
    requires
        y > 0,
        alpha - beta == w,
    ensures
        round_units(exact_num(x, w), exact_den(y, w)) == round_units(
            x * pow2_u64(alpha),
            y * pow2_u64(beta),
        ),
{
    lemma_exact_forms(x, y, w);
    let pw = pow2_u64(pos_part(w));
    let qw = pow2_u64(pos_part(-w));
    let pa = pow2_u64(alpha);
    let pb = pow2_u64(beta);
    assert(pos_part(w) + beta == alpha + pos_part(-w));
    lemma_pow2_add(pos_part(w), beta);
    lemma_pow2_add(alpha, pos_part(-w));
    assert(pw * pb == pa * qw);
    lemma_pow2_pos_num(pos_part(-w));
    lemma_pow2_pos_num(beta);
    assert(x * pw * (y * pb) == x * pa * (y * qw)) by (nonlinear_arith)
        requires
            pw * pb == pa * qw,
    ;
    assert(y * qw > 0 && y * pb > 0) by (nonlinear_arith)
        requires
            y > 0,
            qw > 0,
            pb > 0,
    ;
    lemma_round_units_cross(x * pw, y * qw, x * pa, y * pb);
}

/// Below the cap, the binade found bounds the ratio from above.
proof fn lemma_binade_bound(num: nat, den: nat, j: nat)
    ensures
        binade_from(num, den, j) >= j,
        binade_from(num, den, j) < 1_000_000 ==> num < den * pow2_u64(
            53 + binade_from(num, den, j),
        ),
    decreases 1_000_000 - j,
{
    if j < 1_000_000 && !(num < den * pow2_u64(53 + j)) {
        lemma_binade_bound(num, den, j + 1);
    }
}

/// Rounding never gives a NaN: the result is at most the encoding of
/// infinity.
pub proof fn lemma_round_units_bound(num: nat, den: nat)
    requires
        den > 0,
    ensures
        round_units(num, den) <= INF_BITS,
{
    let k = binade_from(num, den, 0);
    lemma_binade_bound(num, den, 0);
    let unit = den * pow2_u64(k);
    lemma_pow2_pos_num(k);
    assert(unit > 0) by (nonlinear_arith)
        requires
            den > 0,
            pow2_u64(k) > 0,
            unit == den * pow2_u64(k),
    ;
    let m0 = num / unit;
    lemma_pow2_consts();
    if k < 2046 {
        lemma_pow2_add(53, k);
        lemma_fundamental_div_mod(num as int, unit as int);
        assert(m0 < pow2_u64(53)) by (nonlinear_arith)
            requires
                num < den * pow2_u64(53 + k),
                pow2_u64(53 + k) == pow2_u64(53) * pow2_u64(k),
                unit == den * pow2_u64(k),
                num == unit * m0 + num % unit,
                num % unit >= 0,
                unit > 0,
        ;
    }
}

/// The signed encoding of a rounded magnitude is no NaN and has the sign
/// asked for.
pub proof fn lemma_signed_rounded(neg: bool, num: nat, den: nat)
    requires
        den > 0,
    ensures
        !spec_is_nan(signed(neg, round_units(num, den))),
        spec_sign(signed(neg, round_units(num, den))) == neg,
        spec_magnitude(signed(neg, round_units(num, den))) == round_units(num, den),
{
    lemma_round_units_bound(num, den);
}

/// Zero rounds to zero.
pub proof fn lemma_round_units_of_zero(den: nat)
    requires
        den > 0,
    ensures
        round_units(0, den) == 0,
{
    lemma_pow2_pos_num(53);
    assert(0 < den * pow2_u64(53)) by (nonlinear_arith)
        requires
            den > 0,
            pow2_u64(53) > 0,
    ;
    lemma_round_units_zero(0, den);
}

/// Above the cap's reach, the binade found bounds the ratio from below.
proof fn lemma_binade_lower(num: nat, den: nat, j: nat)
    ensures
        binade_from(num, den, j) > j ==> num >= den * pow2_u64(
            (52 + binade_from(num, den, j)) as nat,
        ),
    decreases 1_000_000 - j,
{
    if j < 1_000_000 && !(num < den * pow2_u64(53 + j)) {
        lemma_binade_lower(num, den, j + 1);
        lemma_binade_bound(num, den, j + 1);
    }
}

/// A ratio of at least `2^1024` overflows to infinity.
pub(crate) proof fn lemma_round_units_inf(num: nat, den: nat)
    requires
        den > 0,
        num >= den * pow2_u64(2098),
    ensures
        round_units(num, den) == INF_BITS,
{
    let k = binade_from(num, den, 0);
    lemma_binade_bound(num, den, 0);
    lemma_binade_lower(num, den, 0);
    if k <= 2045 {
        lemma_pow2_mono_num(53 + k, 2098);
        assert(den * pow2_u64(53 + k) <= den * pow2_u64(2098)) by (nonlinear_arith)
            requires
                pow2_u64(53 + k) <= pow2_u64(2098),
        ;
    }
    assert(k >= 2046);
    let unit = den * pow2_u64(k);
    lemma_pow2_pos_num(k);
    lemma_pow2_add(52, k);
    lemma_pow2_consts();
    assert(unit > 0) by (nonlinear_arith)
        requires
            den > 0,
            pow2_u64(k) > 0,
            unit == den * pow2_u64(k),
    ;
    let m0 = num / unit;
    lemma_fundamental_div_mod(num as int, unit as int);
    assert(m0 >= pow2_u64(52)) by (nonlinear_arith)
        requires
            num >= den * pow2_u64(52 + k),
            pow2_u64(52 + k) == pow2_u64(52) * pow2_u64(k),
            unit == den * pow2_u64(k),
            num == unit * m0 + num % unit,
            num % unit < unit,
            unit > 0,
    ;
}

/// A ratio below one half rounds to zero.
pub(crate) proof fn lemma_round_units_small(num: nat, den: nat)
    requires
        2 * num < den,
    ensures
        round_units(num, den) == 0,
{
    lemma_pow2_pos_num(53);
    assert(num < den * pow2_u64(53)) by (nonlinear_arith)
        requires
            2 * num < den,
            pow2_u64(53) > 0,
    ;
    lemma_binade_from(num, den, 0, 0);
    lemma_round_units_zero(num, den);
}

} // verus!
