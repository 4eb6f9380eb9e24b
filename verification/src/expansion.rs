//! Reading printed numbers back: the facts that tie a decimal text to the
//! binary64 value it reads as, and the exact decimal expansion of a finite
//! value, which always reads back as that value.
use vstd::prelude::*;
use vstd::arithmetic::div_mod::lemma_fundamental_div_mod_converse;
use crate::bignum::{big_compare, big_copy, big_from_u64, big_mul_small, big_shl, big_sub, pow10, pow2_u64, val};
use crate::number::{
    HIDDEN_BIT, decode, digit_char, digit_value, digits_value, fraction_digits,
    is_digit_char, lemma_pow10_pow2, lemma_pow2_52, lemma_pow2_add, lemma_pow2_mono_num,
    lemma_pow2_pos_num, literal_value, significant_digits, spec_digit_char, spec_is_finite, spec_sign,
    spec_magnitude, units, formats, formats_literal, spec_is_integral, seq_value, layout, digit_chars,
    zero_chars,
};
use crate::rounding::{lemma_binade_from, lemma_round_units_scale, pack_units, round_units, rounds_up};
use crate::text::{decimal, digit_of};

verus! {

/// `5^n`.
pub open spec fn pow5(n: nat) -> nat
    decreases n,
{
    if n == 0 {
        1
    } else {
        5 * pow5((n - 1) as nat)
    }
}

proof fn lemma_pow5_pow2(n: nat)
    ensures
        pow5(n) * pow2_u64(n) == pow10(n),
        pow5(n) <= pow2_u64(3 * n),
    decreases n,
{
    if n > 0 {
        lemma_pow5_pow2((n - 1) as nat);
        let a = pow5((n - 1) as nat);
        let b = pow2_u64((n - 1) as nat);
        assert(pow2_u64(n) == 2 * b);
        assert(pow5(n) == 5 * a);
        assert(pow10(n) == 10 * pow10((n - 1) as nat));
        assert((5 * a) * (2 * b) == 10 * (a * b)) by (nonlinear_arith);
        assert(pow5(n) * pow2_u64(n) == (5 * a) * (2 * b));
        assert(pow2_u64(3 * n) == 8 * pow2_u64((3 * n - 3) as nat)) by {
            assert(pow2_u64(3 * n) == 2 * pow2_u64((3 * n - 1) as nat));
            assert(pow2_u64((3 * n - 1) as nat) == 2 * pow2_u64((3 * n - 2) as nat));
            assert(pow2_u64((3 * n - 2) as nat) == 2 * pow2_u64((3 * n - 3) as nat));
        }
        assert((3 * n - 3) as nat == 3 * (n - 1) as nat);
    } else {
        assert(pow5(0) == 1);
        assert(pow2_u64(0) == 1);
        assert(pow10(0) == 1);
    }
}

/// A finite magnitude is exactly a whole number of units, so rounding its
/// count of units gives the magnitude back.
pub proof fn lemma_units_exact(b: u64)
    requires
        spec_is_finite(b),
    ensures
        round_units(units(b), 1) == spec_magnitude(b),
{
    let mag = spec_magnitude(b);
    let biased = (mag / HIDDEN_BIT) as nat;
    let frac = (mag % HIDDEN_BIT) as nat;
    lemma_pow2_52();
    lemma_pow2_add(1, 52);
    assert(pow2_u64(1) == 2);
    assert(mag == biased * HIDDEN_BIT + frac);
    assert(biased <= 2046);
    if biased == 0 {
        assert(units(b) == frac);
        assert(pow2_u64(0) == 1);
        lemma_binade_from(frac, 1, 0, 0);
        assert(frac / 1 == frac);
        assert(frac % 1 == 0);
        assert(!rounds_up(frac, 0, 1));
    } else {
        let k = (biased - 1) as nat;
        let m: nat = (frac + HIDDEN_BIT) as nat;
        let num: nat = m * pow2_u64(k);
        assert(units(b) == num);
        lemma_pow2_add(53, k);
        lemma_pow2_add(52, k);
        lemma_pow2_pos_num(k);
        assert(num < 1 * pow2_u64(53 + k)) by (nonlinear_arith)
            requires
                num == m * pow2_u64(k),
                m < pow2_u64(53),
                pow2_u64(53 + k) == pow2_u64(53) * pow2_u64(k),
                pow2_u64(k) > 0,
        ;
        assert(num >= 1 * pow2_u64(52 + k)) by (nonlinear_arith)
            requires
                num == m * pow2_u64(k),
                m >= pow2_u64(52),
                pow2_u64(52 + k) == pow2_u64(52) * pow2_u64(k),
        ;
        lemma_binade_from(num, 1, 0, k);
        let unit = 1 * pow2_u64(k);
        lemma_fundamental_div_mod_converse(num as int, unit as int, m as int, 0);
        assert(!rounds_up(m, 0, unit));
        assert(pack_units(m, k) == mag);
    }
}

/// Characters that are neither digits nor `.` add nothing to a literal.
proof fn lemma_no_digits(p: Seq<char>)
    requires
        forall|i: int| 0 <= i < p.len() ==> !is_digit_char(#[trigger] p[i]) && p[i] != '.',
    ensures
        digits_value(p) == 0,
        fraction_digits(p) == 0,
        !p.contains('.'),
    decreases p.len(),
{
    if p.len() > 0 {
        lemma_no_digits(p.drop_last());
        assert(p.last() == p[p.len() - 1]);
        if p.contains('.') {
            let i = choose|i: int| 0 <= i < p.len() && p[i] == '.';
            assert(p[i] == '.');
        }
    }
}

/// A prefix of characters that are neither digits nor `.` (such as a sign)
/// does not change what a literal reads as.
pub proof fn lemma_prefix_skipped(p: Seq<char>, s: Seq<char>)
    requires
        forall|i: int| 0 <= i < p.len() ==> !is_digit_char(#[trigger] p[i]) && p[i] != '.',
    ensures
        digits_value(p + s) == digits_value(s),
        fraction_digits(p + s) == fraction_digits(s),
        literal_value(p + s) == literal_value(s),
    decreases s.len(),
{
    if s.len() == 0 {
        assert(p + s =~= p);
        lemma_no_digits(p);
    } else {
        let sd = s.drop_last();
        lemma_prefix_skipped(p, sd);
        assert((p + s).drop_last() =~= p + sd);
        assert((p + s).last() == s.last());
        lemma_no_digits(p);
        assert((p + sd).contains('.') == sd.contains('.')) by {
            if sd.contains('.') {
                let i = choose|i: int| 0 <= i < sd.len() && sd[i] == '.';
                assert((p + sd)[p.len() + i] == '.');
            }
            if (p + sd).contains('.') {
                let i = choose|i: int| 0 <= i < (p + sd).len() && (p + sd)[i] == '.';
                if i < p.len() {
                    assert(p[i] == '.');
                }
                assert(sd[i - p.len()] == '.');
            }
        }
    }
}

proof fn lemma_digit_of(d: nat)
    requires
        d < 10,
    ensures
        is_digit_char(digit_of(d)),
        digit_value(digit_of(d)) == d,
        digit_of(d) != '.',
{
}

proof fn lemma_digit_char(d: u32)
    requires
        d < 10,
    ensures
        is_digit_char(spec_digit_char(d)),
        digit_value(spec_digit_char(d)) == d,
        spec_digit_char(d) != '.',
{
}

/// The decimal representation of `n` reads as `n`, with no fraction.
pub proof fn lemma_decimal_reads(n: nat)
    ensures
        digits_value(decimal(n)) == n,
        !decimal(n).contains('.'),
        fraction_digits(decimal(n)) == 0,
    decreases n,
{
    if n < 10 {
        lemma_digit_of(n);
        let s = decimal(n);
        assert(s.drop_last() =~= Seq::<char>::empty());
        assert(s.last() == digit_of(n));
        assert(digits_value(Seq::<char>::empty()) == 0);
        assert(fraction_digits(Seq::<char>::empty()) == 0);
        assert(!Seq::<char>::empty().contains('.'));
        assert(digits_value(s) == digits_value(s.drop_last()) * 10 + digit_value(s.last()));
        assert(fraction_digits(s) == fraction_digits(s.drop_last()));
        if s.contains('.') {
            let i = choose|i: int| 0 <= i < s.len() && s[i] == '.';
            assert(s[0] == digit_of(n));
        }
    } else {
        lemma_decimal_reads(n / 10);
        lemma_digit_of(n % 10);
        let d = decimal(n / 10);
        let s = decimal(n);
        assert(s == d.push(digit_of(n % 10)));
        assert(s.drop_last() =~= d);
        assert((n / 10) * 10 + n % 10 == n);
        assert(digits_value(s) == digits_value(d) * 10 + digit_value(s.last()));
        assert(fraction_digits(s) == fraction_digits(d));
        if s.contains('.') {
            let i = choose|i: int| 0 <= i < s.len() && s[i] == '.';
            if i < d.len() {
                assert(d[i] == '.');
            }
        }
    }
}

/// A sign in front: `-` for a negative encoding, nothing otherwise.
pub open spec fn sign_text(b: u64) -> Seq<char> {
    if spec_sign(b) {
        seq!['-']
    } else {
        Seq::<char>::empty()
    }
}

/// A sign adds nothing to what a literal reads as.
pub proof fn lemma_sign_skipped(b: u64, s: Seq<char>)
    ensures
        literal_value(sign_text(b) + s) == literal_value(s),
{
    let p = sign_text(b);
    assert forall|i: int| 0 <= i < p.len() implies !is_digit_char(#[trigger] p[i]) && p[i] != '.' by {
        assert(p[i] == '-');
    }
    lemma_prefix_skipped(p, s);
}

/// The text of an integral value, its sign and the decimal digits of its
/// value, reads back as that value.
pub proof fn lemma_integer_text_reads(b: u64, n: nat)
    requires
        spec_is_finite(b),
        units(b) == n * pow2_u64(1074),
    ensures
        literal_value(sign_text(b) + decimal(n)) == spec_magnitude(b),
{
    lemma_sign_skipped(b, decimal(n));
    lemma_decimal_reads(n);
    assert(pow10(0) == 1);
    lemma_units_exact(b);
}

/// Appending `.0` to a text does not change what it reads as: one more
/// digit, zero, after a point.
proof fn lemma_point_zero_reads(s: Seq<char>)
    ensures
        literal_value(s + seq!['.', '0']) == literal_value(s),
{
    let p = s.push('.');
    let q = p.push('0');
    assert(s + seq!['.', '0'] =~= q);
    assert(q.drop_last() =~= p);
    assert(p.drop_last() =~= s);
    assert(p.contains('.')) by {
        assert(p[p.len() - 1] == '.');
    }
    assert(digits_value(p) == digits_value(s));
    assert(fraction_digits(p) == fraction_digits(s));
    assert(digits_value(q) == digits_value(s) * 10);
    assert(fraction_digits(q) == fraction_digits(s) + 1);
    let f = fraction_digits(s);
    assert(pow10(f + 1) == 10 * pow10(f));
    lemma_pow10_positive(f);
    assert(digits_value(s) * 10 * pow2_u64(1074) == (digits_value(s) * pow2_u64(1074)) * 10)
        by (nonlinear_arith);
    assert(10 * pow10(f) == pow10(f) * 10);
    lemma_round_units_scale(digits_value(s) * pow2_u64(1074), pow10(f), 10);
}

proof fn lemma_pow10_positive(n: nat)
    ensures
        pow10(n) > 0,
    decreases n,
{
    if n > 0 {
        lemma_pow10_positive((n - 1) as nat);
    }
}

/// The printed text of a finite number reads back, as a decimal literal,
/// as that very number: for a nonnegative `b`, reading the text that
/// `num_format` gives yields `b` itself (for a negative one, the text is
/// `-` and the text of its magnitude).
pub proof fn law_format_reads_back(b: u64, text: Seq<char>)
    requires
        formats(b, text),
        spec_is_finite(b),
    ensures
        !spec_sign(b) ==> literal_value(text) == b,
        spec_sign(b) ==> text[0] == '-' && literal_value(text) == spec_magnitude(b),
{
}

/// The printed text of a number literal (as the `parse` and `tokenize`
/// commands show it, `.0` after an integer) reads back as the number it
/// stands for, whether the value is an integer or not.
pub proof fn law_literal_reads_back(b: u64, text: Seq<char>)
    requires
        formats_literal(b, text),
        spec_is_finite(b),
    ensures
        literal_value(text) == spec_magnitude(b),
{
    if spec_is_integral(b) {
        let t = text.subrange(0, text.len() - 2);
        assert(text =~= t + seq!['.', '0']);
        lemma_point_zero_reads(t);
    }
}

/// `seq_value` of two digit lists one after the other.
proof fn lemma_seq_value_append(a: Seq<u32>, b: Seq<u32>)
    ensures
        seq_value(a + b) == seq_value(a) * pow10(b.len()) + seq_value(b),
    decreases b.len(),
{
    if b.len() == 0 {
        assert(a + b =~= a);
        assert(pow10(0) == 1);
    } else {
        lemma_seq_value_append(a, b.drop_last());
        assert((a + b).drop_last() =~= a + b.drop_last());
        assert((a + b).last() == b.last());
        let p = pow10((b.len() - 1) as nat);
        assert(pow10(b.len()) == 10 * p);
        assert((seq_value(a) * p + seq_value(b.drop_last())) * 10 + b.last() as nat == seq_value(a)
            * (10 * p) + (seq_value(b.drop_last()) * 10 + b.last() as nat)) by (nonlinear_arith);
    }
}

/// Appending the characters of decimal digits to a text.
proof fn lemma_append_digits(p: Seq<char>, ds: Seq<u32>)
    requires
        forall|i: int| 0 <= i < ds.len() ==> #[trigger] ds[i] < 10,
    ensures
        digits_value(p + digit_chars(ds)) == digits_value(p) * pow10(ds.len()) + seq_value(ds),
        fraction_digits(p + digit_chars(ds)) == fraction_digits(p) + if p.contains('.') {
            ds.len()
        } else {
            0nat
        },
        (p + digit_chars(ds)).contains('.') == p.contains('.'),
    decreases ds.len(),
{
    if ds.len() == 0 {
        assert(p + digit_chars(ds) =~= p);
        assert(pow10(0) == 1);
    } else {
        let dl = ds.drop_last();
        assert forall|i: int| 0 <= i < dl.len() implies #[trigger] dl[i] < 10 by {
            assert(dl[i] == ds[i]);
        }
        lemma_append_digits(p, dl);
        let q = p + digit_chars(dl);
        let d = ds.last();
        assert(d == ds[ds.len() - 1]);
        let c = spec_digit_char(d);
        lemma_digit_char(d);
        assert(p + digit_chars(ds) =~= q.push(c));
        assert(q.push(c).drop_last() =~= q);
        assert(q.push(c).contains('.') == q.contains('.')) by {
            if q.push(c).contains('.') {
                let j = choose|j: int| 0 <= j < q.push(c).len() && q.push(c)[j] == '.';
                if j < q.len() {
                    assert(q[j] == '.');
                }
            }
            if q.contains('.') {
                let j = choose|j: int| 0 <= j < q.len() && q[j] == '.';
                assert(q.push(c)[j] == '.');
            }
        }
        let w = pow10(dl.len());
        assert(pow10(ds.len()) == 10 * w);
        assert((digits_value(p) * w + seq_value(dl)) * 10 + d as nat == digits_value(p) * (10 * w)
            + (seq_value(dl) * 10 + d as nat)) by (nonlinear_arith);
    }
}

/// The digit list of `n` zeros.
spec fn zero_digits(n: nat) -> Seq<u32> {
    Seq::new(n, |i: int| 0u32)
}

/// The characters of `n` zeros are those of the digit list of `n` zeros,
/// whose value is zero.
proof fn lemma_zero_digits(n: nat)
    ensures
        zero_chars(n) == digit_chars(zero_digits(n)),
        seq_value(zero_digits(n)) == 0,
        forall|i: int| 0 <= i < n ==> #[trigger] zero_digits(n)[i] < 10,
    decreases n,
{
    let z = zero_digits(n);
    assert(zero_chars(n) =~= digit_chars(z));
    if n > 0 {
        lemma_zero_digits((n - 1) as nat);
        assert(z.drop_last() =~= zero_digits((n - 1) as nat));
    }
}

/// The positional text of the digits `ds` with the decimal exponent `k`
/// reads exactly as `0.d1 d2 ... dn * 10^k`: the number the digits form,
/// times `10^(k - n)` (over `10^(n - k)` when `k < n`).
pub proof fn law_layout_value(ds: Seq<u32>, k: int)
    requires
        forall|i: int| 0 <= i < ds.len() ==> #[trigger] ds[i] < 10,
    ensures
        k >= ds.len() ==> literal_value(layout(ds, k)) == round_units(
            seq_value(ds) * pow10((k - ds.len()) as nat) * pow2_u64(1074),
            1,
        ),
        k < ds.len() ==> literal_value(layout(ds, k)) == round_units(
            seq_value(ds) * pow2_u64(1074),
            pow10((ds.len() - k) as nat),
        ),
{
    let n = ds.len();
    let empty = Seq::<char>::empty();
    if k <= 0 {
        let m = (-k) as nat;
        let z = zero_digits(m);
        lemma_zero_digits(m);
        let head = seq!['0', '.'];
        assert(head.drop_last() =~= seq!['0']);
        assert(seq!['0'].drop_last() =~= empty);
        assert(head.contains('.')) by {
            assert(head[1] == '.');
        }
        assert(!seq!['0'].contains('.')) by {
            if seq!['0'].contains('.') {
                let j = choose|j: int| 0 <= j < 1 && seq!['0'][j] == '.';
                assert(seq!['0'][0] == '0');
            }
        }
        let one = seq!['0'];
        assert(one.last() == '0');
        assert(head.last() == '.');
        assert(digits_value(empty) == 0);
        assert(fraction_digits(empty) == 0);
        assert(!empty.contains('.'));
        assert(digit_value('0') == 0);
        assert(digits_value(one) == digits_value(empty) * 10 + digit_value('0'));
        assert(fraction_digits(one) == fraction_digits(empty));
        assert(digits_value(head) == digits_value(one));
        assert(fraction_digits(head) == fraction_digits(one));
        assert(digits_value(head) == 0);
        assert(fraction_digits(head) == 0);
        lemma_append_digits(head, z);
        let mid = head + zero_chars(m);
        lemma_append_digits(mid, ds);
        assert(layout(ds, k) == mid + digit_chars(ds));
        assert(digits_value(mid) == 0);
        assert(0 * pow10(n) == 0);
        assert((n - k) as nat == m + n);
    } else if k < n {
        let a = ds.subrange(0, k);
        let b = ds.subrange(k, n as int);
        assert forall|i: int| 0 <= i < a.len() implies #[trigger] a[i] < 10 by {
            assert(a[i] == ds[i]);
        }
        assert forall|i: int| 0 <= i < b.len() implies #[trigger] b[i] < 10 by {
            assert(b[i] == ds[k + i]);
        }
        lemma_append_digits(empty, a);
        assert(empty + digit_chars(a) =~= digit_chars(a));
        let pa = digit_chars(a).push('.');
        assert(digit_chars(a) + seq!['.'] =~= pa);
        assert(pa.drop_last() =~= digit_chars(a));
        assert(pa.contains('.')) by {
            assert(pa[pa.len() - 1] == '.');
        }
        lemma_append_digits(pa, b);
        assert(layout(ds, k) == pa + digit_chars(b));
        assert(ds =~= a + b);
        lemma_seq_value_append(a, b);
        assert(digits_value(empty) == 0);
        assert(0 * pow10(a.len()) == 0);
    } else {
        let m = (k - n) as nat;
        let z = zero_digits(m);
        lemma_zero_digits(m);
        lemma_append_digits(empty, ds);
        assert(empty + digit_chars(ds) =~= digit_chars(ds));
        lemma_append_digits(digit_chars(ds), z);
        assert(layout(ds, k) == digit_chars(ds) + zero_chars(m));
        assert(digits_value(empty) == 0);
        assert(0 * pow10(n) == 0);
        assert(!empty.contains('.'));
        assert(pow10(0) == 1);
    }
}

/// The number of significant digits of `s`.
pub fn count_significant(s: &Vec<char>) -> (n: usize)
    ensures
        n == significant_digits(s@),
{
    let mut n: usize = 0;
    let mut seen = false;
    let mut i: usize = 0;
    assert(s@.subrange(0, 0) =~= Seq::<char>::empty());
    while i < s.len()
        invariant
            i <= s.len(),
            n <= i,
            n == significant_digits(s@.subrange(0, i as int)),
            seen == (digits_value(s@.subrange(0, i as int)) > 0),
        decreases s.len() - i,
    {
        let c = s[i];
        let ghost pre = s@.subrange(0, i as int);
        assert(s@.subrange(0, i + 1) =~= pre.push(c));
        assert(pre.push(c).drop_last() =~= pre);
        if '0' <= c && c <= '9' {
            if seen || c != '0' {
                n = n + 1;
            }
            if c != '0' {
                seen = true;
            }
        }
        i = i + 1;
    }
    assert(s@.subrange(0, s.len() as int) =~= s@);
    n
}

/// The exact decimal expansion of the finite value `b` (sign ignored):
/// its count of units times `5^1074`, with a `.` before the last 1074
/// digits. It reads back as `b` exactly.
pub fn exact_expansion(b: u64) -> (t: Vec<char>)
    requires
        spec_is_finite(b),
    ensures
        literal_value(t@) == spec_magnitude(b),
{
    let ghost u = units(b);
    let (m0, e0) = decode(b);
    let mut n = big_from_u64(m0);
    n = big_shl(&n, (e0 + 1074) as usize);
    let mut i: usize = 0;
    proof {
        assert(pow5(0) == 1);
        let x = (e0 + 1074) as nat;
        lemma_pow2_add(53, x);
        lemma_pow2_mono_num(53 + x, 2098);
        lemma_pow2_pos_num(x);
        lemma_pow2_add(1, 52);
        assert(pow2_u64(1) == 2) by {
            reveal_with_fuel(pow2_u64, 2);
        }
        lemma_pow2_52();
        assert(u == m0 * pow2_u64(x));
        assert(u < pow2_u64(53 + x)) by (nonlinear_arith)
            requires
                u == m0 * pow2_u64(x),
                m0 < pow2_u64(53),
                pow2_u64(53 + x) == pow2_u64(53) * pow2_u64(x),
                pow2_u64(x) > 0,
        ;
    }
    while i < 1074
        invariant
            i <= 1074,
            val(n@) == u * pow5(i as nat),
            n.len() <= 70 + i,
            u < pow2_u64(2098),
        decreases 1074 - i,
    {
        n = big_mul_small(&n, 5);
        proof {
            assert(pow5((i + 1) as nat) == 5 * pow5(i as nat));
            assert(u * pow5(i as nat) * 5 == u * (5 * pow5(i as nat))) by (nonlinear_arith);
        }
        i = i + 1;
    }
    let ghost total = val(n@);
    proof {
        lemma_pow5_pow2(1074);
        lemma_pow2_add(2098, 3222);
        lemma_pow10_pow2(1774);
        lemma_pow2_mono_num(5320, 5322);
        lemma_pow5_pos(1074);
        assert(pow2_u64(3 * 1074) == pow2_u64(3222));
        assert(pow2_u64(3 * 1774) == pow2_u64(5322));
        assert(2098 + 3222 == 5320);
        assert(u * pow5(1074) < pow2_u64(2098) * pow2_u64(3222)) by (nonlinear_arith)
            requires
                u < pow2_u64(2098),
                0 < pow5(1074) <= pow2_u64(3222),
        ;
        assert(total < pow10(1774));
    }
    // Powers of ten up to the first above the value, at least 10^1075.
    let mut pows: Vec<Vec<u32>> = Vec::new();
    pows.push(big_from_u64(1));
    while pows.len() < 1076 || big_compare(&pows[pows.len() - 1], &n) <= 0
        invariant
            1 <= pows.len() <= 1775,
            forall|j: int| 0 <= j < pows.len() ==> val(#[trigger] pows@[j]@) == pow10(j as nat),
            forall|j: int| 0 <= j < pows.len() ==> (#[trigger] pows@[j]).len() <= j + 2,
            val(n@) == total,
            n.len() <= 1144,
            total < pow10(1774),
        decreases 1775 - pows.len(),
    {
        let len = pows.len();
        proof {
            if len >= 1775 {
                assert(val(pows@[1774]@) == pow10(1774));
            }
            assert(pows@[len - 1].len() <= len + 1);
            assert(pow10(len as nat) == 10 * pow10((len - 1) as nat));
        }
        let next = big_mul_small(&pows[len - 1], 10);
        pows.push(next);
        proof {
            assert(pows@[len as int] == next);
        }
    }
    let big_l = pows.len() - 1;
    proof {
        assert(val(pows@[big_l as int]@) == pow10(big_l as nat));
        assert(total < pow10(big_l as nat));
    }
    let mut rem = big_copy(&n);
    let mut t: Vec<char> = Vec::new();
    let cut = big_l - 1074;
    let mut i: usize = 0;
    proof {
        assert(pow10((big_l - 0) as nat) == pow10(big_l as nat));
        assert(t@ =~= Seq::<char>::empty());
        assert(digits_value(t@) == 0);
        assert(fraction_digits(t@) == 0);
        assert(val(rem@) == total);
        assert(0 * pow10(big_l as nat) + total == total);
    }
    while i < big_l
        invariant
            i <= big_l,
            big_l == pows.len() - 1,
            1075 <= big_l <= 1774,
            cut == big_l - 1074,
            forall|j: int| 0 <= j < pows.len() ==> val(#[trigger] pows@[j]@) == pow10(j as nat),
            forall|j: int| 0 <= j < pows.len() ==> (#[trigger] pows@[j]).len() <= j + 2,
            rem.len() <= 1800,
            total == digits_value(t@) * pow10((big_l - i) as nat) + val(rem@),
            val(rem@) < pow10((big_l - i) as nat),
            t@.contains('.') == (i > cut),
            fraction_digits(t@) == if i > cut {
                (i - cut) as nat
            } else {
                0nat
            },
        decreases big_l - i,
    {
        let p = &pows[big_l - 1 - i];
        let ghost pv = pow10((big_l - 1 - i) as nat);
        let ghost r0 = val(rem@);
        proof {
            assert(val(p@) == pv);
            assert(pow10((big_l - i) as nat) == 10 * pv);
        }
        let mut d: u32 = 0;
        while d < 9 && big_compare(&rem, p) >= 0
            invariant
                d <= 9,
                rem.len() <= 1800,
                p.len() <= 1776,
                val(p@) == pv,
                val(rem@) + d * pv == r0,
                r0 < 10 * pv,
            decreases 9 - d,
        {
            rem = big_sub(&rem, p);
            proof {
                assert(val(rem@) + (d + 1) * pv == r0) by (nonlinear_arith)
                    requires
                        val(rem@) + pv + d * pv == r0,
                ;
            }
            d = d + 1;
        }
        proof {
            if d == 9 {
                assert(val(rem@) < pv);
            }
        }
        let ghost before = t@;
        if i == cut {
            t.push('.');
            proof {
                assert(t@.drop_last() =~= before);
                assert(t@.last() == '.');
                assert(t@.contains('.')) by {
                    assert(t@[t@.len() - 1] == '.');
                }
            }
        }
        let ghost mid = t@;
        let c = digit_char(d);
        proof {
            lemma_digit_char(d);
        }
        t.push(c);
        proof {
            assert(t@.drop_last() =~= mid);
            assert(t@.last() == c);
            assert(digits_value(mid) == digits_value(before));
            assert(fraction_digits(mid) == fraction_digits(before));
            assert(mid.contains('.') == (i >= cut)) by {
                if i != cut {
                    assert(mid == before);
                }
            }
            assert(t@.contains('.') == mid.contains('.')) by {
                if t@.contains('.') {
                    let j = choose|j: int| 0 <= j < t@.len() && t@[j] == '.';
                    if j < mid.len() {
                        assert(mid[j] == '.');
                    }
                }
                if mid.contains('.') {
                    let j = choose|j: int| 0 <= j < mid.len() && mid[j] == '.';
                    assert(t@[j] == '.');
                }
            }
            assert(digits_value(t@) == digits_value(before) * 10 + d);
            assert(total == digits_value(t@) * pv + val(rem@)) by (nonlinear_arith)
                requires
                    total == digits_value(before) * (10 * pv) + r0,
                    r0 == val(rem@) + d * pv,
                    digits_value(t@) == digits_value(before) * 10 + d,
            ;
            assert((big_l - (i + 1)) as nat == (big_l - 1 - i) as nat);
        }
        i = i + 1;
    }
    proof {
        assert(pow10(0) == 1);
        assert(pow10((big_l - i) as nat) == 1);
        assert(val(rem@) == 0);
        assert(digits_value(t@) * 1 == digits_value(t@));
        assert(digits_value(t@) == total);
        assert(fraction_digits(t@) == 1074);
        lemma_units_exact(b);
        lemma_pow2_pos_num(1074);
        assert(pow10(1074) > 0) by {
            lemma_pow5_pow2(1074);
            assert(pow5(1074) > 0) by {
                lemma_pow5_pos(1074);
            }
            assert(pow5(1074) * pow2_u64(1074) > 0) by (nonlinear_arith)
                requires
                    pow5(1074) > 0,
                    pow2_u64(1074) > 0,
            ;
        }
        assert(total * pow2_u64(1074) == u * pow10(1074)) by (nonlinear_arith)
            requires
                total == u * pow5(1074),
                pow5(1074) * pow2_u64(1074) == pow10(1074),
        ;
        lemma_round_units_scale(u, 1, pow10(1074));
        assert(u * pow10(1074) == (u * pow10(1074)) as nat);
        assert(1 * pow10(1074) == pow10(1074));
    }
    t
}

proof fn lemma_pow5_pos(n: nat)
    ensures
        pow5(n) > 0,
    decreases n,
{
    if n > 0 {
        lemma_pow5_pos((n - 1) as nat);
    }
}

} // verus!
