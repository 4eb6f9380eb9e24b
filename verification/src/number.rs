//! Lox numbers: IEEE-754 binary64 values held as their 64-bit encodings.
//!
//! Every arithmetic operation computes the exact result as a ratio of
//! bignums and rounds it once, to nearest with ties to even, so results
//! agree bit for bit with hardware binary64 arithmetic. Decimal input is
//! read with correct rounding (stated for up to 800 significant digits);
//! decimal output is stated exactly for special values and integers below
//! `2^53`, and for every finite value it is stated to read back as that
//! value.
use vstd::prelude::*;
use crate::bignum::{
    big_add, big_add_small, big_compare, big_from_u64, big_is_zero, big_mul_small, big_mul_pow10,
    big_pow10, big_shl, big_sub, pow10, pow2_u64, val,
};
use crate::text::{append_chars, append_decimal_u64, decimal};
use crate::expansion::{
    count_significant, exact_expansion, lemma_integer_text_reads, lemma_sign_skipped, sign_text,
};
use crate::rounding::{
    exact_den, exact_num, lemma_exact_as_pow2, lemma_round_units_cross, lemma_round_units_inf,
    lemma_round_units_small, lemma_round_units_of_zero, lemma_signed_rounded, round_ratio,
    round_units,
};

verus! {

/// The sign bit of an encoding.
pub const SIGN_BIT: u64 = 0x8000_0000_0000_0000;

/// The encoding of the quiet NaN that invalid operations produce.
pub const NAN_BITS: u64 = 0x7ff8_0000_0000_0000;

/// The encoding of positive infinity.
pub const INF_BITS: u64 = 0x7ff0_0000_0000_0000;

/// 2^52, the implicit leading bit of a normal significand.
pub const HIDDEN_BIT: u64 = 0x10_0000_0000_0000;

/// Whether the sign bit of `b` is set.
pub open spec fn spec_sign(b: u64) -> bool {
    b >= SIGN_BIT
}

/// The encoding with its sign bit cleared.
pub open spec fn spec_magnitude(b: u64) -> u64 {
    (b % SIGN_BIT) as u64
}

/// Whether `b` encodes a NaN.
pub open spec fn spec_is_nan(b: u64) -> bool {
    spec_magnitude(b) > INF_BITS
}

/// Whether `b` encodes an infinity.
pub open spec fn spec_is_inf(b: u64) -> bool {
    spec_magnitude(b) == INF_BITS
}

/// Whether `b` encodes a zero of either sign.
pub open spec fn spec_is_zero(b: u64) -> bool {
    spec_magnitude(b) == 0
}

/// IEEE equality: never for NaN, and the two zeros are equal.
pub open spec fn spec_num_eq(a: u64, b: u64) -> bool {
    !spec_is_nan(a) && !spec_is_nan(b) && (a == b || (spec_is_zero(a) && spec_is_zero(b)))
}

/// IEEE ordering. Among non-NaN encodings, a larger magnitude is a larger
/// absolute value, so the order follows from sign and magnitude.
pub open spec fn spec_num_lt(a: u64, b: u64) -> bool {
    !spec_is_nan(a) && !spec_is_nan(b) && !(spec_is_zero(a) && spec_is_zero(b)) && if spec_sign(
        a,
    ) != spec_sign(b) {
        spec_sign(a)
    } else if spec_sign(a) {
        spec_magnitude(a) > spec_magnitude(b)
    } else {
        spec_magnitude(a) < spec_magnitude(b)
    }
}

/// `b` with its sign bit flipped.
pub open spec fn spec_num_neg(b: u64) -> u64 {
    if spec_sign(b) {
        (b - SIGN_BIT) as u64
    } else {
        (b + SIGN_BIT) as u64
    }
}

/// The signed zero or infinity with the given sign.
pub open spec fn signed(neg: bool, magnitude: u64) -> u64 {
    if neg {
        (magnitude + SIGN_BIT) as u64
    } else {
        magnitude
    }
}

/// Whether the encoding is NaN.
pub fn num_is_nan(b: u64) -> (r: bool)
    ensures
        r == spec_is_nan(b),
{
    b % SIGN_BIT > INF_BITS
}

/// Whether the encoding is an infinity.
pub fn num_is_inf(b: u64) -> (r: bool)
    ensures
        r == spec_is_inf(b),
{
    b % SIGN_BIT == INF_BITS
}

/// Whether the encoding is a zero.
pub fn num_is_zero(b: u64) -> (r: bool)
    ensures
        r == spec_is_zero(b),
{
    b % SIGN_BIT == 0
}

/// Whether the sign bit is set.
pub fn num_sign(b: u64) -> (r: bool)
    ensures
        r == spec_sign(b),
{
    b >= SIGN_BIT
}

/// Negation: flips the sign bit.
pub fn num_neg(b: u64) -> (r: u64)
    ensures
        r == spec_num_neg(b),
{
    if b >= SIGN_BIT {
        b - SIGN_BIT
    } else {
        b + SIGN_BIT
    }
}

pub(crate) fn signed_exec(neg: bool, magnitude: u64) -> (r: u64)
    requires
        magnitude < SIGN_BIT,
    ensures
        r == signed(neg, magnitude),
        spec_sign(r) == neg,
        spec_magnitude(r) == magnitude,
{
    if neg {
        magnitude + SIGN_BIT
    } else {
        magnitude
    }
}

/// IEEE `==`.
pub fn num_eq(a: u64, b: u64) -> (r: bool)
    ensures
        r == spec_num_eq(a, b),
{
    !num_is_nan(a) && !num_is_nan(b) && (a == b || (num_is_zero(a) && num_is_zero(b)))
}

/// IEEE `<`.
pub fn num_lt(a: u64, b: u64) -> (r: bool)
    ensures
        r == spec_num_lt(a, b),
{
    if num_is_nan(a) || num_is_nan(b) || (num_is_zero(a) && num_is_zero(b)) {
        return false;
    }
    let sa = num_sign(a);
    let sb = num_sign(b);
    if sa != sb {
        sa
    } else if sa {
        a % SIGN_BIT > b % SIGN_BIT
    } else {
        a % SIGN_BIT < b % SIGN_BIT
    }
}

/// IEEE `<=`.
pub fn num_le(a: u64, b: u64) -> (r: bool)
    ensures
        r == (spec_num_lt(a, b) || spec_num_eq(a, b)),
{
    num_lt(a, b) || num_eq(a, b)
}

/// `2^k` for small `k`.
pub(crate) fn pow2_exec(k: u64) -> (r: u64)
    requires
        k < 64,
    ensures
        r == pow2_u64(k as nat),
        r >= 1,
{
    let mut r: u64 = 1;
    let mut i: u64 = 0;
    while i < k
        invariant
            i <= k,
            k < 64,
            r == pow2_u64(i as nat),
        decreases k - i,
    {
        proof {
            lemma_pow2_mono_num(i as nat, 62);
            lemma_pow2_63();
        }
        r = r * 2;
        i = i + 1;
    }
    proof {
        lemma_pow2_pos_num(k as nat);
    }
    r
}

pub proof fn lemma_pow2_pos_num(k: nat)
    ensures
        pow2_u64(k) > 0,
    decreases k,
{
    if k > 0 {
        lemma_pow2_pos_num((k - 1) as nat);
    }
}

pub proof fn lemma_pow2_mono_num(j: nat, k: nat)
    requires
        j <= k,
    ensures
        pow2_u64(j) <= pow2_u64(k),
    decreases k - j,
{
    if j < k {
        lemma_pow2_mono_num(j, (k - 1) as nat);
        lemma_pow2_pos_num((k - 1) as nat);
    }
}

pub proof fn lemma_pow2_add(a: nat, b: nat)
    ensures
        pow2_u64(a + b) == pow2_u64(a) * pow2_u64(b),
    decreases a,
{
    if a > 0 {
        lemma_pow2_add((a - 1) as nat, b);
        assert(pow2_u64(a + b) == 2 * pow2_u64((a - 1 + b) as nat));
        assert(2 * (pow2_u64((a - 1) as nat) * pow2_u64(b)) == (2 * pow2_u64((a - 1) as nat))
            * pow2_u64(b)) by (nonlinear_arith);
    } else {
        assert(pow2_u64(0) == 1);
        assert(a + b == b);
        assert(1 * pow2_u64(b) == pow2_u64(b));
    }
}

/// `2^52` is the hidden bit of a normal significand.
pub(crate) proof fn lemma_pow2_52()
    ensures
        pow2_u64(52) == HIDDEN_BIT,
{
    lemma_pow2_63();
    lemma_pow2_add(52, 10);
    assert(pow2_u64(10) == 1024) by {
        reveal_with_fuel(pow2_u64, 11);
    }
    assert(pow2_u64(62) == pow2_u64(52) * 1024);
}

pub proof fn lemma_pow2_63()
    ensures
        pow2_u64(62) == 0x4000_0000_0000_0000,
        pow2_u64(63) == 0x8000_0000_0000_0000,
{
    assert(pow2_u64(31) == 0x8000_0000) by {
        reveal_with_fuel(pow2_u64, 32);
    }
    assert(pow2_u64(32) == 0x1_0000_0000);
    lemma_pow2_add(31, 31);
    lemma_pow2_add(31, 32);
}

/// Number of significant bits of a `u64`.
pub(crate) fn bitlen_u64(x: u64) -> (n: u64)
    ensures
        n <= 64,
        x == 0 <==> n == 0,
        x > 0 ==> pow2_u64((n - 1) as nat) <= x,
        n < 64 ==> x < pow2_u64(n as nat),
{
    let mut n: u64 = 0;
    let mut y: u64 = x;
    proof {
        lemma_pow2_63();
        assert(pow2_u64(0) == 1);
        assert(y as nat * 1 == y as nat);
        assert(x < (y as nat + 1) * 1);
    }
    while y > 0
        invariant
            n <= 64,
            y as nat * pow2_u64(n as nat) <= x,
            x < (y as nat + 1) * pow2_u64(n as nat),
            y == 0 ==> x < pow2_u64(n as nat),
            n > 0 && y == 0 ==> pow2_u64((n - 1) as nat) <= x,
            n > 0 ==> x > 0,
            x == 0 ==> n == 0,
            pow2_u64(63) == 0x8000_0000_0000_0000,
        decreases y,
    {
        proof {
            lemma_pow2_pos_num(n as nat);
            assert(pow2_u64((n + 1) as nat) == 2 * pow2_u64(n as nat));
            let p = pow2_u64(n as nat);
            let yy = y as nat;
            assert((yy / 2) * (2 * p) <= yy * p) by (nonlinear_arith)
                requires
                    p > 0,
            ;
            assert(x < (yy / 2 + 1) * (2 * p)) by (nonlinear_arith)
                requires
                    x < (yy + 1) * p,
                    p > 0,
            ;
            if yy / 2 == 0 {
                assert(yy == 1);
                assert(p <= x) by (nonlinear_arith)
                    requires
                        yy * p <= x,
                        yy == 1,
                ;
            }
            assert(x > 0) by (nonlinear_arith)
                requires
                    yy * p <= x,
                    yy >= 1,
                    p > 0,
            ;
            if n == 64 {
                lemma_pow2_mono_num(63, 64);
                assert(yy * p >= p) by (nonlinear_arith)
                    requires
                        yy >= 1,
                        p > 0,
                ;
                assert(false);
            }
        }
        y = y / 2;
        n = n + 1;
    }
    n
}

/// Whether `b` encodes a finite value.
pub open spec fn spec_is_finite(b: u64) -> bool {
    spec_magnitude(b) < INF_BITS
}

/// The magnitude of a finite encoding in units of `2^-1074`, the smallest
/// subnormal: the fraction field for subnormals, and
/// `(2^52 + fraction) * 2^(biased exponent - 1)` otherwise.
pub open spec fn units(b: u64) -> nat {
    let mag = spec_magnitude(b);
    let biased = (mag / HIDDEN_BIT) as nat;
    let frac = (mag % HIDDEN_BIT) as nat;
    if biased == 0 {
        frac
    } else {
        ((frac + HIDDEN_BIT) * pow2_u64((biased - 1) as nat)) as nat
    }
}

/// The IEEE sum of two nonzero finite values, given by their signs and
/// magnitudes in units: an exact cancellation gives positive zero.
pub open spec fn sum_of_units(sa: bool, ua: nat, sb: bool, ub: nat) -> u64 {
    if sa == sb {
        signed(sa, round_units(ua + ub, 1))
    } else if ua == ub {
        0
    } else if ua > ub {
        signed(sa, round_units((ua - ub) as nat, 1))
    } else {
        signed(sb, round_units((ub - ua) as nat, 1))
    }
}

/// IEEE addition, rounded to nearest, ties to even.
pub open spec fn spec_num_add(a: u64, b: u64) -> u64 {
    if spec_is_nan(a) || spec_is_nan(b) {
        NAN_BITS
    } else if spec_is_inf(a) {
        if spec_is_inf(b) && spec_sign(a) != spec_sign(b) {
            NAN_BITS
        } else {
            a
        }
    } else if spec_is_inf(b) {
        b
    } else if spec_is_zero(a) && spec_is_zero(b) {
        signed(spec_sign(a) && spec_sign(b), 0)
    } else if spec_is_zero(a) {
        b
    } else if spec_is_zero(b) {
        a
    } else {
        sum_of_units(spec_sign(a), units(a), spec_sign(b), units(b))
    }
}

/// IEEE multiplication, rounded to nearest, ties to even.
pub open spec fn spec_num_mul(a: u64, b: u64) -> u64 {
    if spec_is_nan(a) || spec_is_nan(b) {
        NAN_BITS
    } else if spec_is_inf(a) || spec_is_inf(b) {
        if spec_is_zero(a) || spec_is_zero(b) {
            NAN_BITS
        } else {
            signed(spec_sign(a) != spec_sign(b), INF_BITS)
        }
    } else {
        signed(
            spec_sign(a) != spec_sign(b),
            round_units(units(a) * units(b), pow2_u64(1074)),
        )
    }
}

/// IEEE division, rounded to nearest, ties to even.
pub open spec fn spec_num_div(a: u64, b: u64) -> u64 {
    let neg = spec_sign(a) != spec_sign(b);
    if spec_is_nan(a) || spec_is_nan(b) {
        NAN_BITS
    } else if spec_is_inf(a) {
        if spec_is_inf(b) {
            NAN_BITS
        } else {
            signed(neg, INF_BITS)
        }
    } else if spec_is_inf(b) {
        signed(neg, 0)
    } else if spec_is_zero(b) {
        if spec_is_zero(a) {
            NAN_BITS
        } else {
            signed(neg, INF_BITS)
        }
    } else {
        signed(neg, round_units(units(a) * pow2_u64(1074), units(b)))
    }
}

/// IEEE addition is commutative, NaN and signed zeros included.
pub proof fn lemma_add_commutes(a: u64, b: u64)
    ensures
        spec_num_add(a, b) == spec_num_add(b, a),
{
    if !spec_is_nan(a) && !spec_is_nan(b) && spec_is_inf(a) && spec_is_inf(b) && spec_sign(a)
        == spec_sign(b) {
        assert(a == b);
    }
}

/// IEEE multiplication is commutative.
pub proof fn lemma_mul_commutes(a: u64, b: u64)
    ensures
        spec_num_mul(a, b) == spec_num_mul(b, a),
{
    assert(units(a) * units(b) == units(b) * units(a)) by (nonlinear_arith);
}

/// Negating twice gives the encoding back.
pub proof fn lemma_neg_involution(b: u64)
    ensures
        spec_num_neg(spec_num_neg(b)) == b,
{
}

/// Splits a finite encoding into an integer significand and a power of two:
/// the value's magnitude is `mant * 2^exp`.
pub(crate) fn decode(b: u64) -> (r: (u64, i64))
    requires
        spec_is_finite(b),
    ensures
        r.0 < 2 * HIDDEN_BIT,
        -1074 <= r.1 <= 971,
        r.0 == 0 <==> spec_is_zero(b),
        r.0 * pow2_u64((r.1 + 1074) as nat) == units(b),
        r.1 > -1074 ==> r.0 >= HIDDEN_BIT,
{
    let mag = b % SIGN_BIT;
    let biased = mag / HIDDEN_BIT;
    let frac = mag % HIDDEN_BIT;
    if biased == 0 {
        assert(pow2_u64(0) == 1);
        assert(frac * 1 == frac);
        (frac, -1074)
    } else {
        (frac + HIDDEN_BIT, biased as i64 - 1075)
    }
}

/// The bignum `1`.
fn big_one() -> (r: Vec<u32>)
    ensures
        r.len() == 2,
        val(r@) == 1,
{
    big_from_u64(1)
}

/// The product of two significands as a bignum.
fn big_from_product(x: u64, y: u64) -> (r: Vec<u32>)
    requires
        x < 2 * HIDDEN_BIT,
        y < 2 * HIDDEN_BIT,
    ensures
        r.len() <= 8,
        val(r@) == x * y,
{
    let lo_x = x % 0x1_0000_0000;
    let hi_x = x / 0x1_0000_0000;
    assert(hi_x < 0x20_0000);
    // x * y = lo_x * y + hi_x * y * 2^32
    let a = big_from_u64(y);
    let p_lo = big_mul_small(&a, lo_x as u32);
    let p_hi = big_mul_small(&a, hi_x as u32);
    let p_hi_shifted = big_shl(&p_hi, 32);
    let r = big_add(&p_lo, &p_hi_shifted);
    proof {
        assert(pow2_u64(32) == 0x1_0000_0000) by {
            reveal_with_fuel(pow2_u64, 33);
        }
        assert(x == hi_x * 0x1_0000_0000 + lo_x);
        assert(y * lo_x + y * hi_x * 0x1_0000_0000 == x * y) by (nonlinear_arith)
            requires
                x == hi_x * 0x1_0000_0000 + lo_x,
        ;
    }
    r
}

/// `m * 2^d * 2^e == m * 2^(d + e)`.
proof fn lemma_shifted_units(m: nat, d: nat, e: nat)
    ensures
        m * pow2_u64(d) * pow2_u64(e) == m * pow2_u64(d + e),
{
    lemma_pow2_add(d, e);
    assert(m * pow2_u64(d) * pow2_u64(e) == m * (pow2_u64(d) * pow2_u64(e))) by (nonlinear_arith);
}

/// Rounds `val(x) * 2^e0` for a positive bignum `x`, and relates it to the
/// magnitude in units that it stands for.
fn round_sum(neg: bool, x: &Vec<u32>, e0: i64, Ghost(total): Ghost<nat>) -> (r: u64)
    requires
        x.len() <= 2048,
        -1074 <= e0 <= 971,
        val(x@) > 0,
        val(x@) * pow2_u64((e0 + 1074) as nat) == total,
    ensures
        r == signed(neg, round_units(total, 1)),
        !spec_is_nan(r),
{
    let r = round_ratio(neg, x, &big_one(), e0);
    proof {
        lemma_signed_rounded(neg, total, 1);
        lemma_exact_as_pow2(val(x@), 1, e0 + 1074, (e0 + 1074) as nat, 0);
        assert(pow2_u64(0) == 1);
    }
    r
}

/// IEEE addition, rounded to nearest, ties to even.
pub fn num_add(a: u64, b: u64) -> (r: u64)
    ensures
        r == spec_num_add(a, b),
        spec_is_nan(a) || spec_is_nan(b) ==> r == NAN_BITS,
        spec_is_inf(a) && spec_is_inf(b) && spec_sign(a) != spec_sign(b) ==> r == NAN_BITS,
        spec_is_inf(a) && !spec_is_nan(b) && !(spec_is_inf(b) && spec_sign(a) != spec_sign(b))
            ==> r == a,
        spec_is_finite(a) && spec_is_inf(b) ==> r == b,
        spec_is_zero(a) && spec_is_zero(b) ==> r == signed(spec_sign(a) && spec_sign(b), 0),
        spec_is_zero(a) && spec_is_finite(b) && !spec_is_zero(b) ==> r == b,
        spec_is_zero(b) && spec_is_finite(a) && !spec_is_zero(a) ==> r == a,
        spec_is_finite(a) && spec_is_finite(b) && !spec_is_zero(a) && !spec_is_zero(b) ==> r
            == sum_of_units(spec_sign(a), units(a), spec_sign(b), units(b)),
        spec_is_finite(a) && spec_is_finite(b) ==> !spec_is_nan(r),
{
    if num_is_nan(a) || num_is_nan(b) {
        return NAN_BITS;
    }
    if num_is_inf(a) {
        if num_is_inf(b) && num_sign(a) != num_sign(b) {
            return NAN_BITS;
        }
        return a;
    }
    if num_is_inf(b) {
        return b;
    }
    if num_is_zero(a) && num_is_zero(b) {
        return signed_exec(num_sign(a) && num_sign(b), 0);
    }
    if num_is_zero(a) {
        return b;
    }
    if num_is_zero(b) {
        return a;
    }
    let (ma, ea) = decode(a);
    let (mb, eb) = decode(b);
    let e0 = if ea < eb {
        ea
    } else {
        eb
    };
    let big_a = big_shl(&big_from_u64(ma), (ea - e0) as usize);
    let big_b = big_shl(&big_from_u64(mb), (eb - e0) as usize);
    let ghost ua = units(a);
    let ghost ub = units(b);
    let ghost sh = pow2_u64((e0 + 1074) as nat);
    proof {
        lemma_shifted_units(ma as nat, (ea - e0) as nat, (e0 + 1074) as nat);
        lemma_shifted_units(mb as nat, (eb - e0) as nat, (e0 + 1074) as nat);
        assert((ea - e0) as nat + (e0 + 1074) as nat == (ea + 1074) as nat);
        assert((eb - e0) as nat + (e0 + 1074) as nat == (eb + 1074) as nat);
        assert(val(big_a@) * sh == ua);
        assert(val(big_b@) * sh == ub);
        lemma_pow2_pos_num((ea - e0) as nat);
        lemma_pow2_pos_num((eb - e0) as nat);
        lemma_pow2_pos_num((e0 + 1074) as nat);
        assert(val(big_a@) > 0 && val(big_b@) > 0) by (nonlinear_arith)
            requires
                val(big_a@) == ma * pow2_u64((ea - e0) as nat),
                val(big_b@) == mb * pow2_u64((eb - e0) as nat),
                ma > 0,
                mb > 0,
                pow2_u64((ea - e0) as nat) > 0,
                pow2_u64((eb - e0) as nat) > 0,
        ;
    }
    let sa = num_sign(a);
    let sb = num_sign(b);
    if sa == sb {
        let sum = big_add(&big_a, &big_b);
        proof {
            assert(val(sum@) * sh == ua + ub) by (nonlinear_arith)
                requires
                    val(sum@) == val(big_a@) + val(big_b@),
                    val(big_a@) * sh == ua,
                    val(big_b@) * sh == ub,
            ;
        }
        round_sum(sa, &sum, e0, Ghost(ua + ub))
    } else {
        let c = big_compare(&big_a, &big_b);
        if c == 0 {
            0
        } else if c > 0 {
            let d = big_sub(&big_a, &big_b);
            proof {
                assert(val(d@) * sh == ua - ub && ua > ub) by (nonlinear_arith)
                    requires
                        val(d@) == val(big_a@) - val(big_b@),
                        val(big_a@) > val(big_b@),
                        val(big_a@) * sh == ua,
                        val(big_b@) * sh == ub,
                        sh > 0,
                ;
            }
            round_sum(sa, &d, e0, Ghost((ua - ub) as nat))
        } else {
            let d = big_sub(&big_b, &big_a);
            proof {
                assert(val(d@) * sh == ub - ua && ub > ua) by (nonlinear_arith)
                    requires
                        val(d@) == val(big_b@) - val(big_a@),
                        val(big_b@) > val(big_a@),
                        val(big_a@) * sh == ua,
                        val(big_b@) * sh == ub,
                        sh > 0,
                ;
            }
            round_sum(sb, &d, e0, Ghost((ub - ua) as nat))
        }
    }
}

/// IEEE multiplication, rounded to nearest, ties to even.
pub fn num_mul(a: u64, b: u64) -> (r: u64)
    ensures
        r == spec_num_mul(a, b),
        spec_is_nan(a) || spec_is_nan(b) ==> r == NAN_BITS,
        !spec_is_nan(a) && !spec_is_nan(b) && ((spec_is_inf(a) && spec_is_zero(b)) || (
        spec_is_zero(a) && spec_is_inf(b))) ==> r == NAN_BITS,
        !spec_is_nan(a) && !spec_is_nan(b) && (spec_is_inf(a) || spec_is_inf(b)) && !spec_is_zero(
            a,
        ) && !spec_is_zero(b) ==> r == signed(spec_sign(a) != spec_sign(b), INF_BITS),
        spec_is_finite(a) && spec_is_finite(b) && (spec_is_zero(a) || spec_is_zero(b)) ==> r
            == signed(spec_sign(a) != spec_sign(b), 0),
        spec_is_finite(a) && spec_is_finite(b) ==> r == signed(
            spec_sign(a) != spec_sign(b),
            round_units(units(a) * units(b), pow2_u64(1074)),
        ),
        spec_is_finite(a) && spec_is_finite(b) ==> !spec_is_nan(r) && spec_sign(r) == (spec_sign(a)
            != spec_sign(b)),
{
    if num_is_nan(a) || num_is_nan(b) {
        return NAN_BITS;
    }
    let neg = num_sign(a) != num_sign(b);
    if num_is_inf(a) || num_is_inf(b) {
        if num_is_zero(a) || num_is_zero(b) {
            return NAN_BITS;
        }
        return signed_exec(neg, INF_BITS);
    }
    let (ma, ea) = decode(a);
    let (mb, eb) = decode(b);
    proof {
        lemma_pow2_pos_num(1074);
        lemma_signed_rounded(neg, units(a) * units(b), pow2_u64(1074));
    }
    if num_is_zero(a) || num_is_zero(b) {
        proof {
            assert(units(a) * units(b) == 0) by (nonlinear_arith)
                requires
                    units(a) == 0 || units(b) == 0,
            ;
            lemma_round_units_of_zero(pow2_u64(1074));
        }
        return signed_exec(neg, 0);
    }
    let p = big_from_product(ma, mb);
    proof {
        assert(val(p@) > 0) by (nonlinear_arith)
            requires
                val(p@) == ma * mb,
                ma > 0,
                mb > 0,
        ;
    }
    let r = round_ratio(neg, &p, &big_one(), ea + eb);
    proof {
        let xa = (ea + 1074) as nat;
        let xb = (eb + 1074) as nat;
        lemma_exact_as_pow2(val(p@), 1, ea + eb + 1074, xa + xb, 1074);
        lemma_pow2_add(xa, xb);
        assert(val(p@) * pow2_u64(xa + xb) == units(a) * units(b)) by (nonlinear_arith)
            requires
                val(p@) == ma * mb,
                pow2_u64(xa + xb) == pow2_u64(xa) * pow2_u64(xb),
                ma * pow2_u64(xa) == units(a),
                mb * pow2_u64(xb) == units(b),
        ;
    }
    r
}

/// IEEE division, rounded to nearest, ties to even.
pub fn num_div(a: u64, b: u64) -> (r: u64)
    ensures
        r == spec_num_div(a, b),
        spec_is_nan(a) || spec_is_nan(b) ==> r == NAN_BITS,
        spec_is_inf(a) && spec_is_inf(b) ==> r == NAN_BITS,
        spec_is_zero(a) && spec_is_zero(b) ==> r == NAN_BITS,
        spec_is_inf(a) && spec_is_finite(b) ==> r == signed(spec_sign(a) != spec_sign(b), INF_BITS),
        spec_is_finite(a) && spec_is_inf(b) ==> r == signed(spec_sign(a) != spec_sign(b), 0),
        spec_is_finite(a) && !spec_is_zero(a) && spec_is_zero(b) ==> r == signed(
            spec_sign(a) != spec_sign(b),
            INF_BITS,
        ),
        spec_is_finite(a) && spec_is_finite(b) && !spec_is_zero(b) ==> r == signed(
            spec_sign(a) != spec_sign(b),
            round_units(units(a) * pow2_u64(1074), units(b)),
        ),
        spec_is_finite(a) && spec_is_finite(b) && !spec_is_zero(b) ==> !spec_is_nan(r)
            && spec_sign(r) == (spec_sign(a) != spec_sign(b)),
{
    if num_is_nan(a) || num_is_nan(b) {
        return NAN_BITS;
    }
    let neg = num_sign(a) != num_sign(b);
    if num_is_inf(a) {
        if num_is_inf(b) {
            return NAN_BITS;
        }
        return signed_exec(neg, INF_BITS);
    }
    if num_is_inf(b) {
        return signed_exec(neg, 0);
    }
    if num_is_zero(b) {
        if num_is_zero(a) {
            return NAN_BITS;
        }
        return signed_exec(neg, INF_BITS);
    }
    let (ma, ea) = decode(a);
    let (mb, eb) = decode(b);
    proof {
        lemma_pow2_pos_num((eb + 1074) as nat);
        assert(units(b) > 0) by (nonlinear_arith)
            requires
                mb * pow2_u64((eb + 1074) as nat) == units(b),
                mb > 0,
                pow2_u64((eb + 1074) as nat) > 0,
        ;
        lemma_signed_rounded(neg, units(a) * pow2_u64(1074), units(b));
    }
    if num_is_zero(a) {
        proof {
            assert(units(a) * pow2_u64(1074) == 0) by (nonlinear_arith)
                requires
                    ma * pow2_u64((ea + 1074) as nat) == units(a),
                    ma == 0,
            ;
            lemma_round_units_of_zero(units(b));
        }
        return signed_exec(neg, 0);
    }
    let r = round_ratio(neg, &big_from_u64(ma), &big_from_u64(mb), ea - eb);
    proof {
        let xa = (ea + 1074) as nat;
        let xb = (eb + 1074) as nat;
        lemma_exact_as_pow2(ma as nat, mb as nat, ea - eb + 1074, xa + 1074, xb);
        lemma_pow2_add(xa, 1074);
        assert(ma * pow2_u64(xa + 1074) == units(a) * pow2_u64(1074)) by (nonlinear_arith)
            requires
                pow2_u64(xa + 1074) == pow2_u64(xa) * pow2_u64(1074),
                ma * pow2_u64(xa) == units(a),
        ;
    }
    r
}

/// The binary64 value nearest to the integer `n`.
/// The number a whole count converts to: the count rounded to the
/// nearest binary64 value.
pub open spec fn spec_num_from_u64(n: u64) -> u64 {
    round_units((n * pow2_u64(1074)) as nat, 1)
}

pub fn num_from_u64(n: u64) -> (r: u64)
    ensures
        r == spec_num_from_u64(n),
        r == round_units((n * pow2_u64(1074)) as nat, 1),
        !spec_is_nan(r),
        !spec_sign(r),
        n == 0 ==> r == 0,
{
    proof {
        lemma_signed_rounded(false, (n * pow2_u64(1074)) as nat, 1);
    }
    if n == 0 {
        proof {
            lemma_round_units_of_zero(1);
        }
        return 0;
    }
    let r = round_ratio(false, &big_from_u64(n), &big_one(), 0);
    proof {
        lemma_exact_as_pow2(n as nat, 1, 1074, 1074, 0);
        assert(pow2_u64(0) == 1);
    }
    r
}

/// Whether an encoding is finite with an integer value: its magnitude in
/// units of `2^-1074` is a multiple of `2^1074`.
pub open spec fn spec_is_integral(b: u64) -> bool {
    spec_is_finite(b) && units(b) % pow2_u64(1074) == 0
}

/// A multiple of `2^s` is a multiple of `2^(s + t)` exactly when its
/// factor is a multiple of `2^t`.
proof fn lemma_shifted_multiple(m: nat, s: nat, t: nat)
    ensures
        (m * pow2_u64(s)) % pow2_u64(s + t) == 0 <==> m % pow2_u64(t) == 0,
{
    lemma_pow2_pos_num(s);
    lemma_pow2_pos_num(t);
    lemma_pow2_add(s, t);
    let ps = pow2_u64(s);
    let pt = pow2_u64(t);
    let q = m / pt;
    let r = m % pt;
    assert(m == q * pt + r && 0 <= r < pt) by (nonlinear_arith)
        requires
            pt > 0,
            q == m / pt,
            r == m % pt,
    ;
    assert(m * ps == q * (ps * pt) + r * ps && 0 <= r * ps < ps * pt) by (nonlinear_arith)
        requires
            m == q * pt + r,
            0 <= r < pt,
            ps > 0,
    ;
    vstd::arithmetic::div_mod::lemma_fundamental_div_mod_converse(
        (m * ps) as int,
        (ps * pt) as int,
        q as int,
        (r * ps) as int,
    );
    assert(r * ps == 0 <==> r == 0) by (nonlinear_arith)
        requires
            ps > 0,
    ;
}

/// Whether the value of a finite encoding is an integer (its fractional
/// part is zero); false for NaN and the infinities.
pub fn num_is_integral(b: u64) -> (r: bool)
    ensures
        r == spec_is_integral(b),
        spec_is_zero(b) ==> r,
{
    if !(b % SIGN_BIT < INF_BITS) {
        return false;
    }
    let (m, e) = decode(b);
    proof {
        lemma_pow2_pos_num(1074);
    }
    if m == 0 || e >= 0 {
        proof {
            if m == 0 {
                assert(units(b) == 0);
                vstd::arithmetic::div_mod::lemma_small_mod(0, pow2_u64(1074));
            } else {
                lemma_shifted_multiple((m as nat) * pow2_u64(e as nat), 1074, 0);
                lemma_pow2_add(e as nat, 1074);
                assert(pow2_u64(0) == 1);
                assert(((m as nat) * pow2_u64(e as nat)) % 1 == 0);
                assert((m as nat) * pow2_u64((e + 1074) as nat) == ((m as nat) * pow2_u64(
                    e as nat,
                )) * pow2_u64(1074)) by (nonlinear_arith)
                    requires
                        pow2_u64((e + 1074) as nat) == pow2_u64(e as nat) * pow2_u64(1074),
                ;
                assert(1074 + 0 == 1074);
            }
        }
        return true;
    }
    proof {
        lemma_shifted_multiple(m as nat, (1074 + e) as nat, (-e) as nat);
        assert((1074 + e) + (-e) == 1074);
    }
    if e <= -64 {
        // The significand has fewer than 64 bits, so a fraction remains.
        proof {
            lemma_pow2_mono_num(63, (-e) as nat);
            lemma_pow2_63();
            vstd::arithmetic::div_mod::lemma_small_mod(m as nat, pow2_u64((-e) as nat));
        }
        return false;
    }
    let p = pow2_exec((-e) as u64);
    m % p == 0
}

/// Whether `c` is an ASCII decimal digit.
pub open spec fn is_digit_char(c: char) -> bool {
    '0' <= c <= '9'
}

/// The value of the decimal digit `c`.
pub open spec fn digit_value(c: char) -> nat {
    (c as int - '0' as int) as nat
}

/// The number that all the decimal digits of `s` form, in order, with
/// every other character skipped.
pub open spec fn digits_value(s: Seq<char>) -> nat
    decreases s.len(),
{
    if s.len() == 0 {
        0
    } else if is_digit_char(s.last()) {
        digits_value(s.drop_last()) * 10 + digit_value(s.last())
    } else {
        digits_value(s.drop_last())
    }
}

/// How many digits of `s` stand after a `.`.
pub open spec fn fraction_digits(s: Seq<char>) -> nat
    decreases s.len(),
{
    if s.len() == 0 {
        0
    } else if is_digit_char(s.last()) && s.drop_last().contains('.') {
        fraction_digits(s.drop_last()) + 1
    } else {
        fraction_digits(s.drop_last())
    }
}

/// How many significant digits `s` has: its digits from the first nonzero
/// one on.
pub open spec fn significant_digits(s: Seq<char>) -> nat
    decreases s.len(),
{
    if s.len() == 0 {
        0
    } else if is_digit_char(s.last()) && (digits_value(s.drop_last()) > 0 || s.last() != '0') {
        significant_digits(s.drop_last()) + 1
    } else {
        significant_digits(s.drop_last())
    }
}

/// The binary64 value nearest to the decimal value of a literal (its
/// digits as one integer, over ten to the number of fraction digits),
/// ties to even.
pub open spec fn literal_value(s: Seq<char>) -> u64 {
    round_units(digits_value(s) * pow2_u64(1074), pow10(fraction_digits(s)))
}

/// The number a list of decimal digits forms, most significant first.
pub open spec fn seq_value(ds: Seq<u32>) -> nat
    decreases ds.len(),
{
    if ds.len() == 0 {
        0
    } else {
        seq_value(ds.drop_last()) * 10 + ds.last() as nat
    }
}

proof fn lemma_pow10_add(a: nat, b: nat)
    ensures
        pow10(a + b) == pow10(a) * pow10(b),
    decreases a,
{
    if a > 0 {
        lemma_pow10_add((a - 1) as nat, b);
        assert(pow10(a + b) == 10 * pow10((a - 1 + b) as nat));
        assert(10 * (pow10((a - 1) as nat) * pow10(b)) == (10 * pow10((a - 1) as nat)) * pow10(b))
            by (nonlinear_arith);
    } else {
        assert(pow10(0) == 1);
        assert(1 * pow10(b) == pow10(b));
    }
}

/// Ten to a power is at least two to three times that power.
pub(crate) proof fn lemma_pow10_pow2(n: nat)
    ensures
        pow10(n) >= pow2_u64(3 * n),
    decreases n,
{
    if n > 0 {
        lemma_pow10_pow2((n - 1) as nat);
        assert(pow2_u64(3 * n) == 8 * pow2_u64((3 * n - 3) as nat)) by {
            assert(pow2_u64(3 * n) == 2 * pow2_u64((3 * n - 1) as nat));
            assert(pow2_u64((3 * n - 1) as nat) == 2 * pow2_u64((3 * n - 2) as nat));
            assert(pow2_u64((3 * n - 2) as nat) == 2 * pow2_u64((3 * n - 3) as nat));
        }
        assert((3 * n - 3) as nat == 3 * (n - 1) as nat);
    }
}

/// A digit list with a nonzero first digit has as many digits as its value.
proof fn lemma_seq_value_bounds(ds: Seq<u32>)
    requires
        forall|i: int| 0 <= i < ds.len() ==> ds[i] < 10,
    ensures
        seq_value(ds) < pow10(ds.len()),
        ds.len() > 0 && ds[0] != 0 ==> pow10((ds.len() - 1) as nat) <= seq_value(ds),
    decreases ds.len(),
{
    if ds.len() > 0 {
        let dl = ds.drop_last();
        assert(forall|i: int| 0 <= i < dl.len() ==> dl[i] == ds[i]);
        lemma_seq_value_bounds(dl);
        assert(pow10(ds.len()) == 10 * pow10(dl.len()));
        if ds.len() == 1 {
            assert(dl.len() == 0);
            assert(pow10(0) == 1);
            assert(ds.last() == ds[0]);
        } else {
            assert(dl[0] == ds[0]);
            assert(pow10((ds.len() - 1) as nat) == 10 * pow10((dl.len() - 1) as nat));
        }
    }
}

/// Appending zeros multiplies by ten each.
proof fn lemma_seq_value_zeros(ds: Seq<u32>, k: int)
    requires
        0 <= k <= ds.len(),
        forall|i: int| k <= i < ds.len() ==> ds[i] == 0,
    ensures
        seq_value(ds) == seq_value(ds.subrange(0, k)) * pow10((ds.len() - k) as nat),
    decreases ds.len() - k,
{
    if k == ds.len() {
        assert(ds.subrange(0, k) =~= ds);
        assert(pow10(0) == 1);
        assert(seq_value(ds) * 1 == seq_value(ds));
    } else {
        lemma_seq_value_zeros(ds, k + 1);
        let a = ds.subrange(0, k + 1);
        let b = ds.subrange(0, k);
        assert(a.drop_last() =~= b);
        assert(a.last() == ds[k]);
        assert(seq_value(a) == seq_value(b) * 10);
        let t = pow10((ds.len() - (k + 1)) as nat);
        assert(pow10((ds.len() - k) as nat) == 10 * t);
        assert(seq_value(ds) == seq_value(a) * t);
        assert(seq_value(ds) == seq_value(b) * pow10((ds.len() - k) as nat)) by (nonlinear_arith)
            requires
                seq_value(ds) == seq_value(a) * t,
                seq_value(a) == seq_value(b) * 10,
                pow10((ds.len() - k) as nat) == 10 * t,
        ;
    }
}

/// Reads a number literal: decimal digits with at most one `.` between them
/// (other characters are skipped).
///
/// The result is the binary64 value nearest to the literal's exact decimal
/// value, ties to even. Only the first 800 significant digits take part
/// exactly; any nonzero digit after them is kept as a sticky digit, which is
/// enough for correct rounding.
pub fn num_parse_literal(s: &Vec<char>) -> (r: u64)
    ensures
        !spec_is_nan(r),
        !spec_sign(r),
        significant_digits(s@) <= 800 ==> r == literal_value(s@),
{
    let mut n_all: usize = 0;
    let mut leading_zeros: usize = 0;
    let mut frac_digits: usize = 0;
    let mut seen_point = false;
    let mut nonzero_dropped = false;
    // The first significant digits, most significant first.
    let mut digits: Vec<u32> = Vec::new();
    let mut i: usize = 0;
    while i < s.len()
        invariant
            i <= s.len(),
            digits.len() <= 800,
            n_all <= i,
            frac_digits <= n_all,
            leading_zeros + digits.len() <= n_all,
            digits.len() > 0 ==> digits@[0] != 0,
            forall|j: int| 0 <= j < digits.len() ==> digits@[j] < 10,
            frac_digits == fraction_digits(s@.subrange(0, i as int)),
            seen_point == s@.subrange(0, i as int).contains('.'),
            leading_zeros + significant_digits(s@.subrange(0, i as int)) == n_all,
            significant_digits(s@.subrange(0, i as int)) <= 800 ==> digits.len()
                == significant_digits(s@.subrange(0, i as int)) && seq_value(digits@)
                == digits_value(s@.subrange(0, i as int)) && !nonzero_dropped,
            significant_digits(s@.subrange(0, i as int)) > 800 ==> digits.len() == 800,
            (significant_digits(s@.subrange(0, i as int)) == 0) == (digits_value(
                s@.subrange(0, i as int),
            ) == 0),
        decreases s.len() - i,
    {
        let c = s[i];
        let ghost p = s@.subrange(0, i as int);
        let ghost p1 = s@.subrange(0, i + 1);
        proof {
            assert(p1.drop_last() =~= p);
            assert(p1.last() == c);
            assert(p1.contains('.') == (p.contains('.') || c == '.')) by {
                if c == '.' {
                    assert(p1[i as int] == '.');
                }
                if p.contains('.') {
                    let w = choose|w: int| 0 <= w < p.len() && p[w] == '.';
                    assert(p1[w] == '.');
                }
                if p1.contains('.') && c != '.' {
                    let w = choose|w: int| 0 <= w < p1.len() && p1[w] == '.';
                    assert(p[w] == '.');
                }
            }
        }
        if c == '.' {
            seen_point = true;
        } else if '0' <= c && c <= '9' {
            let d = (c as u32) - ('0' as u32);
            assert(d as nat == digit_value(c));
            n_all = n_all + 1;
            if seen_point {
                frac_digits = frac_digits + 1;
            }
            if digits.len() == 0 && d == 0 {
                leading_zeros = leading_zeros + 1;
            } else if digits.len() < 800 {
                proof {
                    assert(digits@.push(d).drop_last() =~= digits@);
                }
                digits.push(d);
            } else if d != 0 {
                nonzero_dropped = true;
            }
        }
        i = i + 1;
    }
    proof {
        assert(s@.subrange(0, s.len() as int) =~= s@);
    }
    let ghost sig = significant_digits(s@);
    // Drop trailing zeros of the kept digits, unless a nonzero digit was
    // dropped after them: the sticky digit goes right after all 800.
    let mut kept = digits.len();
    while kept > 0 && !nonzero_dropped && digits[kept - 1] == 0
        invariant
            kept <= digits.len(),
            forall|j: int| kept <= j < digits.len() ==> digits@[j] == 0,
        decreases kept,
    {
        kept = kept - 1;
    }
    let ghost dk = digits@.subrange(0, kept as int);
    proof {
        lemma_seq_value_zeros(digits@, kept as int);
        assert(forall|j: int| 0 <= j < dk.len() ==> dk[j] == digits@[j]);
        lemma_seq_value_bounds(dk);
        lemma_pow10_pos(fraction_digits(s@));
        lemma_signed_rounded(false, digits_value(s@) * pow2_u64(1074), pow10(fraction_digits(s@)));
    }
    if kept == 0 {
        proof {
            if sig <= 800 {
                assert(digits.len() == 0) by {
                    if digits.len() > 0 {
                        assert(digits@[0] == 0);
                    }
                }
                assert(sig == 0);
                assert(digits_value(s@) == 0);
                assert(digits_value(s@) * pow2_u64(1074) == 0) by (nonlinear_arith)
                    requires
                        digits_value(s@) == 0,
                ;
                lemma_round_units_of_zero(pow10(fraction_digits(s@)));
            }
        }
        return 0;
    }
    let significant = n_all - leading_zeros;
    // value = digits[..kept] * 10^q (plus what was dropped).
    let mut q: i128 = significant as i128 - kept as i128 - frac_digits as i128;
    let ghost fc = fraction_digits(s@);
    let ghost dv = digits_value(s@);
    let ghost dkv = seq_value(dk);
    proof {
        if sig <= 800 {
            assert(dv == dkv * pow10((sig - kept) as nat));
            assert(fc + q + (sig - kept) == sig - kept + (sig - kept) - (sig - kept) + q + fc);
        }
    }
    if q + kept as i128 > 400 {
        proof {
            if sig <= 800 {
                let e = (kept + q - 1) as nat;
                lemma_pow10_add(fc, e);
                lemma_pow10_add((kept - 1) as nat, (sig - kept) as nat);
                assert((kept - 1) as nat + (sig - kept) as nat == fc + e);
                lemma_pow10_pow2(e);
                lemma_pow2_mono_num(1024, 3 * e);
                assert(dv >= pow10(fc) * pow2_u64(1024)) by (nonlinear_arith)
                    requires
                        dv == dkv * pow10((sig - kept) as nat),
                        dkv >= pow10((kept - 1) as nat),
                        pow10((kept - 1) as nat) * pow10((sig - kept) as nat) == pow10(fc)
                            * pow10(e),
                        pow10(e) >= pow2_u64(3 * e),
                        pow2_u64(3 * e) >= pow2_u64(1024),
                ;
                lemma_pow2_add(1024, 1074);
                assert(dv * pow2_u64(1074) >= pow10(fc) * pow2_u64(2098)) by (nonlinear_arith)
                    requires
                        dv >= pow10(fc) * pow2_u64(1024),
                        pow2_u64(2098) == pow2_u64(1024) * pow2_u64(1074),
                ;
                lemma_round_units_inf(dv * pow2_u64(1074), pow10(fc));
            }
        }
        return INF_BITS;
    }
    if q + (kept as i128) < -400 {
        proof {
            if sig <= 800 {
                let e = (-(kept + q)) as nat;
                lemma_pow10_add(sig, e);
                lemma_pow10_add(kept as nat, (sig - kept) as nat);
                lemma_pow10_pos((sig - kept) as nat);
                assert(fc == sig + e);
                lemma_pow10_pow2(e);
                lemma_pow2_mono_num(1075, 3 * e);
                lemma_pow2_add(1, 1074);
                assert(pow2_u64(1) == 2) by {
                    reveal_with_fuel(pow2_u64, 2);
                }
                assert(dv < pow10(sig)) by (nonlinear_arith)
                    requires
                        dv == dkv * pow10((sig - kept) as nat),
                        dkv < pow10(kept as nat),
                        pow10(kept as nat) * pow10((sig - kept) as nat) == pow10(sig),
                        pow10((sig - kept) as nat) > 0,
                ;
                assert(pow10(sig) * pow2_u64(1075) <= pow10(fc)) by (nonlinear_arith)
                    requires
                        pow10(fc) == pow10(sig) * pow10(e),
                        pow10(e) >= pow2_u64(1075),
                ;
                lemma_pow2_pos_num(1075);
                assert(dv * pow2_u64(1075) < pow10(fc)) by (nonlinear_arith)
                    requires
                        dv < pow10(sig),
                        pow10(sig) * pow2_u64(1075) <= pow10(fc),
                        pow2_u64(1075) > 0,
                ;
                assert(2 * (dv * pow2_u64(1074)) == dv * pow2_u64(1075)) by (nonlinear_arith)
                    requires
                        pow2_u64(1075) == 2 * pow2_u64(1074),
                ;
                lemma_round_units_small(dv * pow2_u64(1074), pow10(fc));
            }
        }
        return 0;
    }
    let mut d: Vec<u32> = big_from_u64(0);
    let mut j: usize = 0;
    while j < kept
        invariant
            j <= kept,
            kept <= 800,
            kept <= digits.len(),
            d.len() <= 2 + 2 * j,
            val(d@) == seq_value(digits@.subrange(0, j as int)),
        decreases kept - j,
    {
        let t = big_mul_small(&d, 10);
        d = big_add_small(&t, digits[j]);
        proof {
            assert(digits@.subrange(0, j + 1).drop_last() =~= digits@.subrange(0, j as int));
        }
        j = j + 1;
    }
    if nonzero_dropped {
        let t = big_mul_small(&d, 10);
        d = big_add_small(&t, 1);
        q = q - 1;
    }
    if big_is_zero(&d) {
        proof {
            if sig <= 800 {
                assert(digits@[0] != 0);
                assert(dk[0] == digits@[0]);
                lemma_pow10_pos((kept - 1) as nat);
            }
        }
        return 0;
    }
    if q >= 0 {
        let num = big_mul_pow10(&d, q as usize);
        proof {
            lemma_pow10_pos(q as nat);
            assert(val(num@) > 0) by (nonlinear_arith)
                requires
                    val(num@) == val(d@) * pow10(q as nat),
                    val(d@) > 0,
                    pow10(q as nat) > 0,
            ;
            lemma_signed_rounded(false, exact_num(val(num@), 1074), exact_den(1, 1074));
            lemma_exact_as_pow2(val(num@), 1, 1074, 1074, 0);
            assert(pow2_u64(0) == 1);
            if sig <= 800 {
                assert(d@ == d@);
                lemma_pow10_add(q as nat, fc);
                assert(q as nat + fc == (sig - kept) as nat);
                assert(val(num@) * pow2_u64(1074) * pow10(fc) == dv * pow2_u64(1074) * 1)
                    by (nonlinear_arith)
                    requires
                        val(d@) == dkv,
                        val(num@) == val(d@) * pow10(q as nat),
                        dv == dkv * pow10((sig - kept) as nat),
                        pow10((sig - kept) as nat) == pow10(q as nat) * pow10(fc),
                ;
                lemma_round_units_cross(
                    val(num@) * pow2_u64(1074),
                    1,
                    dv * pow2_u64(1074),
                    pow10(fc),
                );
            }
        }
        round_ratio(false, &num, &big_one(), 0)
    } else {
        let den = big_pow10((-q) as usize);
        proof {
            lemma_pow10_pos((-q) as nat);
            lemma_signed_rounded(false, exact_num(val(d@), 1074), exact_den(val(den@), 1074));
            lemma_exact_as_pow2(val(d@), val(den@), 1074, 1074, 0);
            assert(pow2_u64(0) == 1);
            if sig <= 800 {
                lemma_pow10_add((sig - kept) as nat, (-q) as nat);
                assert((sig - kept) as nat + (-q) as nat == fc);
                assert(val(d@) * pow2_u64(1074) * pow10(fc) == dv * pow2_u64(1074) * val(den@))
                    by (nonlinear_arith)
                    requires
                        val(d@) == dkv,
                        dv == dkv * pow10((sig - kept) as nat),
                        val(den@) == pow10((-q) as nat),
                        pow10(fc) == pow10((sig - kept) as nat) * pow10((-q) as nat),
                ;
                lemma_round_units_cross(
                    val(d@) * pow2_u64(1074),
                    val(den@),
                    dv * pow2_u64(1074),
                    pow10(fc),
                );
            }
        }
        round_ratio(false, &d, &den, 0)
    }
}

proof fn lemma_pow10_pos(n: nat)
    ensures
        pow10(n) > 0,
    decreases n,
{
    if n > 0 {
        lemma_pow10_pos((n - 1) as nat);
    }
}

/// The character of a decimal digit.
pub open spec fn spec_digit_char(d: u32) -> char {
    if d == 0 {
        '0'
    } else if d == 1 {
        '1'
    } else if d == 2 {
        '2'
    } else if d == 3 {
        '3'
    } else if d == 4 {
        '4'
    } else if d == 5 {
        '5'
    } else if d == 6 {
        '6'
    } else if d == 7 {
        '7'
    } else if d == 8 {
        '8'
    } else {
        '9'
    }
}

pub(crate) fn digit_char(d: u32) -> (c: char)
    ensures
        c == spec_digit_char(d),
{
    if d == 0 {
        '0'
    } else if d == 1 {
        '1'
    } else if d == 2 {
        '2'
    } else if d == 3 {
        '3'
    } else if d == 4 {
        '4'
    } else if d == 5 {
        '5'
    } else if d == 6 {
        '6'
    } else if d == 7 {
        '7'
    } else if d == 8 {
        '8'
    } else {
        '9'
    }
}

/// `a < b`, or `a <= b` when `inclusive`.
fn big_lt_round(a: &Vec<u32>, b: &Vec<u32>, inclusive: bool) -> bool {
    let c = big_compare(a, b);
    if inclusive {
        c <= 0
    } else {
        c < 0
    }
}

/// `floor(k * log10(2))`-style estimate of the decimal exponent, computed
/// as the arithmetic shift `(x * 1292913986) >> 32`.
fn estimate_scaling_factor(mant: u64, exp: i64) -> (k: i64)
    requires
        mant >= 2,
        -1100 <= exp <= 1000,
    ensures
        -400 <= k <= 400,
{
    let nbits = bitlen_u64(mant - 1);
    let x: i64 = nbits as i64 + exp;
    let t: i64 = x * 1292913986;
    let d: i64 = 0x1_0000_0000;
    if t >= 0 {
        t / d
    } else {
        -((-t + d - 1) / d)
    }
}

/// Increments a digit string by one unit in its last place. Returns whether
/// a digit was added in front (all digits were nines).
fn round_up_digits(digits: &mut Vec<u32>) -> (grew: bool)
    requires
        old(digits).len() < 1000,
    ensures
        final(digits).len() == old(digits).len() + if grew {
            1int
        } else {
            0int
        },
        forall|i: int| 0 <= i < old(digits).len() && old(digits)@[i] < 10 ==> true,
{
    let n = digits.len();
    let mut i = n;
    while i > 0 && digits[i - 1] == 9
        invariant
            i <= n,
            digits.len() == n,
        decreases i,
    {
        i = i - 1;
    }
    if i > 0 {
        let x = digits[i - 1];
        let nx = if x < 9 {
            x + 1
        } else {
            9
        };
        digits.set(i - 1, nx);
        let mut j = i;
        while j < n
            invariant
                i <= j <= n,
                digits.len() == n,
            decreases n - j,
        {
            digits.set(j, 0);
            j = j + 1;
        }
        false
    } else {
        // 999..9 becomes 100..00 with one more digit.
        if n > 0 {
            digits.set(0, 1);
        }
        let mut j: usize = 1;
        while j < n
            invariant
                1 <= j,
                j <= n || n == 0,
                digits.len() == n,
            decreases n - j,
        {
            digits.set(j, 0);
            j = j + 1;
        }
        if n == 0 {
            digits.push(1);
        } else {
            digits.push(0);
        }
        true
    }
}

/// Decimal digits `d` and an exponent `k` for the finite nonzero value `b`
/// (sign ignored), read as `0.d * 10^k`, by the Steele-White digit
/// generation; only the bounds of the result are stated.
fn shortest_digits(b: u64) -> (r: (Vec<u32>, i64))
    requires
        spec_is_finite(b),
        !spec_is_zero(b),
    ensures
        r.0.len() <= 1000,
        -500 <= r.1 <= 500,
{
    let mag = b % SIGN_BIT;
    let biased = mag / HIDDEN_BIT;
    let frac = mag % HIDDEN_BIT;
    let mant: u64;
    let minus: u64;
    let plus: u64;
    let exp: i64;
    let inclusive: bool;
    if biased == 0 {
        mant = frac * 2;
        minus = 1;
        plus = 1;
        exp = -1075;
        inclusive = true;
    } else {
        let m = frac + HIDDEN_BIT;
        inclusive = m % 2 == 0;
        if m == HIDDEN_BIT {
            mant = m * 4;
            minus = 1;
            plus = 2;
            exp = biased as i64 - 1077;
        } else {
            mant = m * 2;
            minus = 1;
            plus = 1;
            exp = biased as i64 - 1076;
        }
    }
    let mut k = estimate_scaling_factor(mant + plus, exp);
    let mut bm = big_from_u64(mant);
    let mut bminus = big_from_u64(minus);
    let mut bplus = big_from_u64(plus);
    let mut scale = big_one();
    if exp < 0 {
        scale = big_shl(&scale, (-exp) as usize);
    } else {
        bm = big_shl(&bm, exp as usize);
        bminus = big_shl(&bminus, exp as usize);
        bplus = big_shl(&bplus, exp as usize);
    }
    if k >= 0 {
        scale = big_mul_pow10(&scale, k as usize);
    } else {
        bm = big_mul_pow10(&bm, (-k) as usize);
        bminus = big_mul_pow10(&bminus, (-k) as usize);
        bplus = big_mul_pow10(&bplus, (-k) as usize);
    }
    if big_lt_round(&scale, &big_add(&bm, &bplus), inclusive) {
        k = k + 1;
    } else {
        bm = big_mul_small(&bm, 10);
        bminus = big_mul_small(&bminus, 10);
        bplus = big_mul_small(&bplus, 10);
    }
    let mut digits: Vec<u32> = Vec::new();
    let mut down = false;
    let mut up = false;
    let mut iter: usize = 0;
    while iter < 800
        invariant
            iter <= 800,
            digits.len() == iter,
            bm.len() <= 1000 + iter,
            bminus.len() <= 1000 + iter,
            bplus.len() <= 1000 + iter,
            scale.len() <= 800,
        decreases 800 - iter,
    {
        let mut d: u32 = 0;
        while d < 15 && big_compare(&bm, &scale) >= 0
            invariant
                d <= 15,
                iter < 800,
                bm.len() <= 1000 + iter,
                scale.len() <= 800,
            decreases 15 - d,
        {
            bm = big_sub(&bm, &scale);
            d = d + 1;
        }
        digits.push(d);
        iter = iter + 1;
        down = big_lt_round(&bm, &bminus, inclusive);
        up = big_lt_round(&scale, &big_add(&bm, &bplus), inclusive);
        if down || up {
            break;
        }
        bm = big_mul_small(&bm, 10);
        bminus = big_mul_small(&bminus, 10);
        bplus = big_mul_small(&bplus, 10);
    }
    if up && (!down || big_compare(&big_shl(&bm, 1), &scale) >= 0) {
        if round_up_digits(&mut digits) {
            k = k + 1;
        }
    }
    (digits, k)
}

/// Appends `n` zeros.
fn push_zeros(out: &mut Vec<char>, n: usize)
    ensures
        final(out)@ == old(out)@ + Seq::new(n as nat, |i: int| '0'),
{
    let ghost start = out@;
    let mut i: usize = 0;
    while i < n
        invariant
            i <= n,
            out@ == start + Seq::new(i as nat, |j: int| '0'),
        decreases n - i,
    {
        out.push('0');
        i = i + 1;
        assert(out@ =~= start + Seq::new(i as nat, |j: int| '0'));
    }
}

/// The characters of a list of decimal digits.
pub open spec fn digit_chars(ds: Seq<u32>) -> Seq<char> {
    Seq::new(ds.len(), |i: int| spec_digit_char(ds[i]))
}

/// `n` zeros.
pub open spec fn zero_chars(n: nat) -> Seq<char> {
    Seq::new(n, |i: int| '0')
}

/// The positional text of `0.d1 d2 ... dn * 10^k` for the digits `ds`:
/// `0.` and `-k` zeros before the digits when `k <= 0`, the point after
/// the first `k` digits when `0 < k < n`, and `k - n` zeros after the
/// digits (no point) when `k >= n`.
pub open spec fn layout(ds: Seq<u32>, k: int) -> Seq<char> {
    if k <= 0 {
        seq!['0', '.'] + zero_chars((-k) as nat) + digit_chars(ds)
    } else if k < ds.len() {
        digit_chars(ds.subrange(0, k)) + seq!['.'] + digit_chars(ds.subrange(k, ds.len() as int))
    } else {
        digit_chars(ds) + zero_chars((k - ds.len()) as nat)
    }
}

/// Appends the positional text of the digits `digits` with the decimal
/// exponent `k`.
fn push_layout(out: &mut Vec<char>, digits: &Vec<u32>, k: i64)
    requires
        digits.len() <= 1000,
        -500 <= k <= 500,
    ensures
        final(out)@ == old(out)@ + layout(digits@, k as int),
{
    let ghost start = out@;
    let n = digits.len();
    if k <= 0 {
        out.push('0');
        out.push('.');
        push_zeros(out, (-k) as usize);
        let ghost base = out@;
        assert(base =~= start + seq!['0', '.'] + zero_chars((-k) as nat));
        let mut i: usize = 0;
        while i < n
            invariant
                i <= n,
                n == digits.len(),
                out@ == base + digit_chars(digits@.subrange(0, i as int)),
            decreases n - i,
        {
            out.push(digit_char(digits[i]));
            assert(digit_chars(digits@.subrange(0, i + 1)) =~= digit_chars(
                digits@.subrange(0, i as int),
            ).push(spec_digit_char(digits@[i as int])));
            i = i + 1;
        }
        assert(digits@.subrange(0, n as int) =~= digits@);
        assert(out@ =~= start + layout(digits@, k as int));
    } else {
        let mut i: usize = 0;
        while i < n
            invariant
                i <= n,
                n == digits.len(),
                n <= 1000,
                0 < k <= 500,
                i <= k ==> out@ == start + digit_chars(digits@.subrange(0, i as int)),
                i > k ==> out@ == start + digit_chars(digits@.subrange(0, k as int)) + seq!['.']
                    + digit_chars(digits@.subrange(k as int, i as int)),
            decreases n - i,
        {
            let ghost before = out@;
            if (i as i64) == k {
                out.push('.');
            }
            out.push(digit_char(digits[i]));
            proof {
                let c = spec_digit_char(digits@[i as int]);
                assert(digit_chars(digits@.subrange(0, i + 1)) =~= digit_chars(
                    digits@.subrange(0, i as int),
                ).push(c));
                if i > k {
                    assert(digit_chars(digits@.subrange(k as int, i + 1)) =~= digit_chars(
                        digits@.subrange(k as int, i as int),
                    ).push(c));
                    assert(before == start + digit_chars(digits@.subrange(0, k as int)) + seq!['.']
                        + digit_chars(digits@.subrange(k as int, i as int)));
                    assert(out@ =~= before.push(c));
                    assert(out@ =~= start + digit_chars(digits@.subrange(0, k as int)) + seq!['.']
                        + digit_chars(digits@.subrange(k as int, i + 1)));
                }
                if i < k {
                    assert(out@ =~= start + digit_chars(digits@.subrange(0, i + 1)));
                }
                if i == k {
                    assert(digit_chars(digits@.subrange(k as int, i + 1)) =~= seq![c]);
                    assert(out@ =~= start + digit_chars(digits@.subrange(0, k as int)) + seq!['.']
                        + digit_chars(digits@.subrange(k as int, i + 1)));
                }
            }
            i = i + 1;
        }
        if k > n as i64 {
            push_zeros(out, (k - n as i64) as usize);
            assert(digits@.subrange(0, n as int) =~= digits@);
            assert(out@ =~= start + layout(digits@, k as int));
        } else if k == n as i64 {
            assert(digits@.subrange(0, n as int) =~= digits@);
            assert(zero_chars(0) =~= Seq::<char>::empty());
            assert(out@ =~= start + layout(digits@, k as int));
        } else {
            assert(out@ =~= start + layout(digits@, k as int));
        }
    }
}

/// What is known of the text of a number: the special values are `NaN`,
/// `inf`, `-inf`, `0` and `-0`, a negative number starts with `-`, the
/// text of a finite number reads back (as a literal, sign aside) as that
/// very number, and an integer below `2^53` prints as its decimal digits.
pub open spec fn formats(b: u64, text: Seq<char>) -> bool {
    &&& spec_is_nan(b) ==> text == seq!['N', 'a', 'N']
    &&& spec_is_inf(b) && !spec_sign(b) ==> text == seq!['i', 'n', 'f']
    &&& spec_is_inf(b) && spec_sign(b) ==> text == seq!['-', 'i', 'n', 'f']
    &&& spec_is_zero(b) && !spec_sign(b) ==> text == seq!['0']
    &&& spec_is_zero(b) && spec_sign(b) ==> text == seq!['-', '0']
    &&& !spec_is_nan(b) && spec_sign(b) ==> text.len() > 0 && text[0] == '-'
    &&& spec_is_finite(b) ==> literal_value(text) == spec_magnitude(b)
    &&& spec_is_integral(b) && units(b) < pow2_u64(1127) ==> text == (if spec_sign(b) {
        seq!['-']
    } else {
        Seq::<char>::empty()
    }) + decimal(units(b) / pow2_u64(1074))
}

/// Renders a number in plain positional notation (no exponent), with
/// `NaN`, `inf` and `-inf` for the special values. The contract fixes the
/// special values, zeros, the sign and integers below `2^53`, and for every
/// finite value that its text reads back as the same binary64 value. The
/// digits of other values come from `shortest_digits`, whose output is not
/// stated: the text laid out from them is read back, and should it not give
/// `b`, the exact decimal expansion of `b` is printed instead.
pub fn num_format(b: u64) -> (r: Vec<char>)
    ensures
        formats(b, r@),
{
    let mut out: Vec<char> = Vec::new();
    if num_is_nan(b) {
        out.push('N');
        out.push('a');
        out.push('N');
        assert(out@ =~= seq!['N', 'a', 'N']);
        return out;
    }
    if num_sign(b) {
        out.push('-');
    }
    if num_is_inf(b) {
        out.push('i');
        out.push('n');
        out.push('f');
        assert(!spec_sign(b) ==> out@ =~= seq!['i', 'n', 'f']);
        assert(spec_sign(b) ==> out@ =~= seq!['-', 'i', 'n', 'f']);
        return out;
    }
    if num_is_zero(b) {
        out.push('0');
        proof {
            lemma_pow2_pos_num(1074);
            assert(units(b) == 0);
            assert(decimal(0) =~= seq!['0']);
            assert(0nat / pow2_u64(1074) == 0) by (nonlinear_arith)
                requires
                    pow2_u64(1074) > 0,
            ;
        }
        assert(!spec_sign(b) ==> out@ =~= seq!['0']);
        assert(spec_sign(b) ==> out@ =~= seq!['-', '0']);
        assert(out@ =~= (if spec_sign(b) {
            seq!['-']
        } else {
            Seq::<char>::empty()
        }) + decimal(units(b) / pow2_u64(1074)));
        proof {
            assert(out@ =~= sign_text(b) + decimal(0));
            assert(units(b) == 0 * pow2_u64(1074));
            lemma_integer_text_reads(b, 0);
        }
        return out;
    }
    let ghost prefix = out@;
    let (m0, e0) = decode(b);
    proof {
        lemma_pow2_pos_num(1074);
    }
    if e0 <= 0 && e0 > -64 {
        let p = pow2_exec((-e0) as u64);
        if m0 % p == 0 {
            let n = m0 / p;
            proof {
                lemma_pow2_add((-e0) as nat, (1074 + e0) as nat);
                assert((-e0) + (1074 + e0) == 1074);
                let big = pow2_u64(1074);
                let low = pow2_u64((1074 + e0) as nat);
                assert(m0 == n * p) by (nonlinear_arith)
                    requires
                        m0 % p == 0,
                        n == m0 / p,
                        p > 0,
                ;
                assert(units(b) == n * big) by (nonlinear_arith)
                    requires
                        units(b) == m0 * low,
                        m0 == n * p,
                        big == p * low,
                ;
                vstd::arithmetic::div_mod::lemma_fundamental_div_mod_converse(
                    units(b) as int,
                    big as int,
                    n as int,
                    0,
                );
            }
            append_decimal_u64(&mut out, n);
            proof {
                assert(prefix == (if spec_sign(b) {
                    seq!['-']
                } else {
                    Seq::<char>::empty()
                }));
                assert(prefix == sign_text(b));
                lemma_integer_text_reads(b, n as nat);
            }
            return out;
        }
    }
    proof {
        if e0 > 0 {
            lemma_pow2_add(52, 1075);
            lemma_pow2_mono_num(1075, (e0 + 1074) as nat);
            lemma_pow2_52();
            assert(units(b) >= pow2_u64(1127)) by (nonlinear_arith)
                requires
                    units(b) == m0 * pow2_u64((e0 + 1074) as nat),
                    m0 >= pow2_u64(52),
                    pow2_u64((e0 + 1074) as nat) >= pow2_u64(1075),
                    pow2_u64(1127) == pow2_u64(52) * pow2_u64(1075),
            ;
        } else {
            lemma_shifted_multiple(m0 as nat, (1074 + e0) as nat, (-e0) as nat);
            assert((1074 + e0) + (-e0) == 1074);
            if e0 <= -64 {
                lemma_pow2_mono_num(63, (-e0) as nat);
                lemma_pow2_63();
                vstd::arithmetic::div_mod::lemma_small_mod(m0 as nat, pow2_u64((-e0) as nat));
            }
        }
        assert(!(spec_is_integral(b) && units(b) < pow2_u64(1127)));
    }
    let (digits, k) = shortest_digits(b);
    push_layout(&mut out, &digits, k);
    proof {
        if spec_sign(b) {
            assert(out@[0] == prefix[0]);
        }
    }
    // The digits are not proven to read back as `b`: the text is read back
    // here, and the exact expansion printed instead should it not.
    if count_significant(&out) <= 800 && num_parse_literal(&out) == b % SIGN_BIT {
        return out;
    }
    let mut exact: Vec<char> = Vec::new();
    if num_sign(b) {
        exact.push('-');
    }
    proof {
        assert(exact@ =~= sign_text(b));
    }
    let t = exact_expansion(b);
    append_chars(&mut exact, &t);
    proof {
        lemma_sign_skipped(b, t@);
        if spec_sign(b) {
            assert(exact@[0] == '-');
        }
    }
    exact
}

/// What is known of the text of a number literal: the text of the number,
/// with `.0` after it when the value is an integer.
pub open spec fn formats_literal(b: u64, text: Seq<char>) -> bool {
    &&& spec_is_integral(b) ==> text.len() >= 2 && formats(b, text.subrange(0, text.len() - 2))
        && text.subrange(text.len() - 2, text.len() as int) == seq!['.', '0']
    &&& !spec_is_integral(b) ==> formats(b, text)
}

/// The printed text of a number literal where `formats` fixes it: an
/// integral value below `2^53` prints as its sign, its decimal digits and
/// `.0`. Other values give `None`.
pub open spec fn literal_text(b: u64) -> Option<Seq<char>> {
    if spec_is_integral(b) && units(b) < pow2_u64(1127) {
        Some(
            (if spec_sign(b) {
                seq!['-']
            } else {
                Seq::<char>::empty()
            }) + decimal(units(b) / pow2_u64(1074)) + seq!['.', '0'],
        )
    } else {
        None
    }
}

/// Renders a number literal the way the token printer does: like
/// `num_format`, with `.0` appended when the value is an integer.
pub fn num_format_literal(b: u64) -> (r: Vec<char>)
    ensures
        spec_is_zero(b) && !spec_sign(b) ==> r@ == seq!['0', '.', '0'],
        formats_literal(b, r@),
        literal_text(b) matches Some(t) ==> r@ == t,
{
    let mut s = num_format(b);
    let ghost text = s@;
    if num_is_integral(b) {
        s.push('.');
        s.push('0');
        assert(s@.subrange(0, s@.len() - 2) =~= text);
        assert(s@.subrange(s@.len() - 2, s@.len() as int) =~= seq!['.', '0']);
        assert(s@ =~= text + seq!['.', '0']);
    }
    s
}

} // verus!
