//! Arbitrary-precision natural numbers, stored as little-endian 32-bit limbs.
//!
//! These are the exact integers that binary64 rounding and decimal digit
//! generation in `number` work with.
use vstd::prelude::*;

verus! {

/// 2^32, the base of a limb.
pub open spec fn base() -> nat {
    0x1_0000_0000
}

/// `base()^n`.
pub open spec fn base_pow(n: nat) -> nat
    decreases n,
{
    if n == 0 {
        1
    } else {
        base() * base_pow((n - 1) as nat)
    }
}

/// The natural number that a little-endian limb sequence stands for.
pub open spec fn val(s: Seq<u32>) -> nat
    decreases s.len(),
{
    if s.len() == 0 {
        0
    } else {
        val(s.drop_last()) + s.last() as nat * base_pow((s.len() - 1) as nat)
    }
}

/// Largest number of limbs any bignum in this crate grows to.
pub const MAX_LIMBS: usize = 8192;

proof fn lemma_base_pow_pos(n: nat)
    ensures
        base_pow(n) > 0,
    decreases n,
{
    if n > 0 {
        lemma_base_pow_pos((n - 1) as nat);
        assert(base() * base_pow((n - 1) as nat) > 0) by (nonlinear_arith)
            requires
                base_pow((n - 1) as nat) > 0,
        ;
    }
}

proof fn lemma_val_push(s: Seq<u32>, x: u32)
    ensures
        val(s.push(x)) == val(s) + x as nat * base_pow(s.len()),
{
    assert(s.push(x).drop_last() =~= s);
}

/// The value of a limb sequence is below `base()^len`.
proof fn lemma_val_bound(s: Seq<u32>)
    ensures
        val(s) < base_pow(s.len()),
    decreases s.len(),
{
    if s.len() > 0 {
        let n = (s.len() - 1) as nat;
        lemma_val_bound(s.drop_last());
        let l = s.last() as nat;
        let p = base_pow(n);
        assert(val(s.drop_last()) + l * p < base() * p) by (nonlinear_arith)
            requires
                val(s.drop_last()) < p,
                l < base(),
        ;
    }
}

/// Builds the bignum for a `u64`.
pub fn big_from_u64(n: u64) -> (r: Vec<u32>)
    ensures
        val(r@) == n,
        r.len() == 2,
{
    let lo = (n % 0x1_0000_0000) as u32;
    let hi = (n / 0x1_0000_0000) as u32;
    let mut r = Vec::new();
    r.push(lo);
    r.push(hi);
    proof {
        assert(r@.drop_last() =~= seq![lo]);
        assert(seq![lo].drop_last() =~= Seq::<u32>::empty());
        assert(base_pow(0) == 1);
        assert(base_pow(1) == base());
        assert(val(Seq::<u32>::empty()) == 0);
        assert(seq![lo].last() == lo);
        assert(lo as nat * base_pow(0) == lo as nat);
        assert(val(seq![lo]) == lo as nat);
        assert(val(r@) == lo as nat + hi as nat * base());
    }
    r
}

/// Whether the bignum is zero.
pub fn big_is_zero(a: &Vec<u32>) -> (b: bool)
    ensures
        b == (val(a@) == 0),
{
    let mut i: usize = 0;
    while i < a.len()
        invariant
            i <= a.len(),
            forall|j: int| 0 <= j < i ==> a@[j] == 0,
        decreases a.len() - i,
    {
        if a[i] != 0 {
            proof {
                lemma_val_nonzero_limb(a@, i as int);
            }
            return false;
        }
        i = i + 1;
    }
    proof {
        lemma_val_all_zero(a@);
    }
    true
}

proof fn lemma_val_all_zero(s: Seq<u32>)
    requires
        forall|j: int| 0 <= j < s.len() ==> s[j] == 0,
    ensures
        val(s) == 0,
    decreases s.len(),
{
    if s.len() > 0 {
        lemma_val_all_zero(s.drop_last());
    }
}

proof fn lemma_val_nonzero_limb(s: Seq<u32>, i: int)
    requires
        0 <= i < s.len(),
        s[i] != 0,
    ensures
        val(s) > 0,
    decreases s.len(),
{
    let n = (s.len() - 1) as nat;
    lemma_base_pow_pos(n);
    if i == s.len() - 1 {
        assert(s.last() as nat * base_pow(n) > 0) by (nonlinear_arith)
            requires
                s.last() as nat > 0,
                base_pow(n) > 0,
        ;
    } else {
        lemma_val_nonzero_limb(s.drop_last(), i);
    }
}

/// The limb of `a` at `i`, or zero past its end.
fn limb_at(a: &Vec<u32>, i: usize) -> (r: u32)
    ensures
        r == (if i < a.len() {
            a@[i as int]
        } else {
            0u32
        }),
{
    if i < a.len() {
        a[i]
    } else {
        0
    }
}

/// Limb `i` of `s`, zero outside it.
pub open spec fn limb(s: Seq<u32>, i: int) -> nat {
    if 0 <= i < s.len() {
        s[i] as nat
    } else {
        0
    }
}

/// The value of the lowest `n` limbs of `s`, missing limbs counting as
/// zero.
pub open spec fn valn(s: Seq<u32>, n: nat) -> nat
    decreases n,
{
    if n == 0 {
        0
    } else {
        valn(s, (n - 1) as nat) + limb(s, n - 1) * base_pow((n - 1) as nat)
    }
}

proof fn lemma_valn_prefix(s: Seq<u32>, n: nat)
    requires
        n <= s.len(),
    ensures
        valn(s, n) == val(s.subrange(0, n as int)),
    decreases n,
{
    if n > 0 {
        lemma_valn_prefix(s, (n - 1) as nat);
        assert(s.subrange(0, n as int).drop_last() =~= s.subrange(0, n - 1));
    } else {
        assert(s.subrange(0, 0) =~= Seq::<u32>::empty());
    }
}

/// Past the last limb, `valn` is the whole value.
pub proof fn lemma_valn_full(s: Seq<u32>, n: nat)
    requires
        n >= s.len(),
    ensures
        valn(s, n) == val(s),
    decreases n,
{
    if n > s.len() {
        lemma_valn_full(s, (n - 1) as nat);
    } else {
        lemma_valn_prefix(s, n);
        assert(s.subrange(0, n as int) =~= s);
    }
}

proof fn lemma_valn_bound(s: Seq<u32>, n: nat)
    ensures
        valn(s, n) < base_pow(n),
    decreases n,
{
    if n > 0 {
        let k = (n - 1) as nat;
        lemma_valn_bound(s, k);
        let p = base_pow(k);
        let l = limb(s, n - 1);
        assert(valn(s, k) + l * p < base() * p) by (nonlinear_arith)
            requires
                valn(s, k) < p,
                l < base(),
        ;
    }
}

/// A limb step of a carry chain: `lo + carry * base == total`, spread over
/// position `i`.
proof fn lemma_carry_step(total: int, lo: int, carry: int, p: int)
    requires
        total == lo + carry * 0x1_0000_0000,
    ensures
        total * p == lo * p + carry * (0x1_0000_0000 * p),
{
    assert(total * p == lo * p + carry * (0x1_0000_0000 * p)) by (nonlinear_arith)
        requires
            total == lo + carry * 0x1_0000_0000,
    ;
}

/// Sum of two bignums.
pub fn big_add(a: &Vec<u32>, b: &Vec<u32>) -> (r: Vec<u32>)
    requires
        a.len() < MAX_LIMBS,
        b.len() < MAX_LIMBS,
    ensures
        r.len() <= if a.len() > b.len() {
            a.len() + 1
        } else {
            b.len() + 1
        },
        val(r@) == val(a@) + val(b@),
{
    let n = if a.len() > b.len() {
        a.len()
    } else {
        b.len()
    };
    let mut r: Vec<u32> = Vec::new();
    let mut carry: u64 = 0;
    let mut i: usize = 0;
    while i < n
        invariant
            i <= n,
            r.len() == i,
            carry <= 1,
            n < MAX_LIMBS,
            val(r@) + carry * base_pow(i as nat) == valn(a@, i as nat) + valn(b@, i as nat),
        decreases n - i,
    {
        let la = limb_at(a, i);
        let lb = limb_at(b, i);
        let s: u64 = la as u64 + lb as u64 + carry;
        let lo = (s % 0x1_0000_0000) as u32;
        let ghost r0 = r@;
        r.push(lo);
        proof {
            lemma_val_push(r0, lo);
            let bp = base_pow(i as nat) as int;
            lemma_carry_step(s as int, lo as int, (s / 0x1_0000_0000) as int, bp);
            assert(base_pow((i + 1) as nat) == base() * base_pow(i as nat));
            assert(limb(a@, i as int) == la as nat);
            assert(limb(b@, i as int) == lb as nat);
            assert(valn(a@, (i + 1) as nat) == valn(a@, i as nat) + la * bp);
            assert(valn(b@, (i + 1) as nat) == valn(b@, i as nat) + lb * bp);
            assert((la + lb + carry) * bp == la * bp + lb * bp + carry * bp) by (nonlinear_arith);
        }
        carry = s / 0x1_0000_0000;
        i = i + 1;
    }
    let ghost r0 = r@;
    if carry > 0 {
        r.push(carry as u32);
        proof {
            lemma_val_push(r0, carry as u32);
        }
    }
    proof {
        lemma_valn_full(a@, n as nat);
        lemma_valn_full(b@, n as nat);
    }
    r
}

/// Adds a small number to a bignum.
pub fn big_add_small(a: &Vec<u32>, m: u32) -> (r: Vec<u32>)
    requires
        a.len() < MAX_LIMBS,
    ensures
        r.len() <= a.len() + 1,
        val(r@) == val(a@) + m,
{
    let mut r: Vec<u32> = Vec::new();
    let mut carry: u64 = m as u64;
    let mut i: usize = 0;
    proof {
        assert(base_pow(0) == 1);
    }
    while i < a.len()
        invariant
            i <= a.len(),
            r.len() == i,
            carry < 0x1_0000_0000,
            val(r@) + carry * base_pow(i as nat) == valn(a@, i as nat) + m,
        decreases a.len() - i,
    {
        let la = a[i];
        let s: u64 = la as u64 + carry;
        let lo = (s % 0x1_0000_0000) as u32;
        let ghost r0 = r@;
        r.push(lo);
        proof {
            lemma_val_push(r0, lo);
            let bp = base_pow(i as nat) as int;
            lemma_carry_step(s as int, lo as int, (s / 0x1_0000_0000) as int, bp);
            assert(base_pow((i + 1) as nat) == base() * base_pow(i as nat));
            assert(limb(a@, i as int) == la as nat);
            assert(valn(a@, (i + 1) as nat) == valn(a@, i as nat) + la * bp);
            assert((la + carry) * bp == la * bp + carry * bp) by (nonlinear_arith);
        }
        carry = s / 0x1_0000_0000;
        i = i + 1;
    }
    let ghost r0 = r@;
    if carry > 0 {
        r.push(carry as u32);
        proof {
            lemma_val_push(r0, carry as u32);
        }
    }
    proof {
        lemma_valn_full(a@, a.len() as nat);
    }
    r
}

/// Difference `a - b` of two bignums, where `a` is at least `b`.
pub fn big_sub(a: &Vec<u32>, b: &Vec<u32>) -> (r: Vec<u32>)
    requires
        a.len() < MAX_LIMBS,
        b.len() < MAX_LIMBS,
        val(a@) >= val(b@),
    ensures
        r.len() == if a.len() > b.len() {
            a.len()
        } else {
            b.len()
        },
        val(r@) == val(a@) - val(b@),
{
    let n = if a.len() > b.len() {
        a.len()
    } else {
        b.len()
    };
    let mut r: Vec<u32> = Vec::new();
    let mut borrow: u64 = 0;
    let mut i: usize = 0;
    while i < n
        invariant
            i <= n,
            r.len() == i,
            borrow <= 1,
            val(r@) - borrow * base_pow(i as nat) == valn(a@, i as nat) - valn(b@, i as nat),
        decreases n - i,
    {
        let la = limb_at(a, i);
        let lb = limb_at(b, i);
        let d: u64 = la as u64 + 0x1_0000_0000 - lb as u64 - borrow;
        let lo = (d % 0x1_0000_0000) as u32;
        let ghost r0 = r@;
        r.push(lo);
        proof {
            lemma_val_push(r0, lo);
            let bp = base_pow(i as nat) as int;
            lemma_carry_step(d as int, lo as int, (d / 0x1_0000_0000) as int, bp);
            assert(base_pow((i + 1) as nat) == base() * base_pow(i as nat));
            assert(limb(a@, i as int) == la as nat);
            assert(limb(b@, i as int) == lb as nat);
            assert(valn(a@, (i + 1) as nat) == valn(a@, i as nat) + la * bp);
            assert(valn(b@, (i + 1) as nat) == valn(b@, i as nat) + lb * bp);
            assert((la + 0x1_0000_0000 - lb - borrow) * bp == la * bp - lb * bp - borrow * bp
                + 0x1_0000_0000 * bp) by (nonlinear_arith);
            assert((1 - d / 0x1_0000_0000) * (0x1_0000_0000 * bp) == 0x1_0000_0000 * bp - (d
                / 0x1_0000_0000) * (0x1_0000_0000 * bp)) by (nonlinear_arith);
        }
        borrow = 1 - d / 0x1_0000_0000;
        i = i + 1;
    }
    proof {
        lemma_valn_full(a@, n as nat);
        lemma_valn_full(b@, n as nat);
        lemma_val_bound(r@);
        if borrow == 1 {
            assert(borrow * base_pow(n as nat) == base_pow(n as nat));
            assert(false);
        }
        assert(borrow == 0);
        assert(borrow * base_pow(n as nat) == 0);
    }
    r
}

proof fn lemma_valn_less(a: Seq<u32>, b: Seq<u32>, i: nat, n: nat)
    requires
        i < n,
        limb(a, i as int) < limb(b, i as int),
        forall|j: int| i < j < n ==> limb(a, j) == limb(b, j),
    ensures
        valn(a, n) < valn(b, n),
    decreases n,
{
    if n == i + 1 {
        lemma_valn_bound(a, i);
        let p = base_pow(i);
        let la = limb(a, i as int);
        let lb = limb(b, i as int);
        assert(valn(a, i) + la * p < lb * p) by (nonlinear_arith)
            requires
                valn(a, i) < p,
                la < lb,
        ;
    } else {
        lemma_valn_less(a, b, i, (n - 1) as nat);
    }
}

proof fn lemma_valn_equal(a: Seq<u32>, b: Seq<u32>, n: nat)
    requires
        forall|j: int| 0 <= j < n ==> limb(a, j) == limb(b, j),
    ensures
        valn(a, n) == valn(b, n),
    decreases n,
{
    if n > 0 {
        lemma_valn_equal(a, b, (n - 1) as nat);
    }
}

/// Three-way comparison of two bignums: -1, 0 or 1 as `a` is smaller,
/// equal or larger.
pub fn big_compare(a: &Vec<u32>, b: &Vec<u32>) -> (c: i8)
    ensures
        c == -1 <==> val(a@) < val(b@),
        c == 0 <==> val(a@) == val(b@),
        c == 1 <==> val(a@) > val(b@),
{
    let n: usize = if a.len() > b.len() {
        a.len()
    } else {
        b.len()
    };
    proof {
        lemma_valn_full(a@, n as nat);
        lemma_valn_full(b@, n as nat);
    }
    let mut i: usize = n;
    while i > 0
        invariant
            i <= n,
            n >= a.len(),
            n >= b.len(),
            valn(a@, n as nat) == val(a@),
            valn(b@, n as nat) == val(b@),
            forall|j: int| i <= j < n ==> limb(a@, j) == limb(b@, j),
        decreases i,
    {
        i = i - 1;
        let x = limb_at(a, i);
        let y = limb_at(b, i);
        if x < y {
            proof {
                lemma_valn_less(a@, b@, i as nat, n as nat);
            }
            return -1;
        }
        if x > y {
            proof {
                lemma_valn_less(b@, a@, i as nat, n as nat);
            }
            return 1;
        }
    }
    proof {
        lemma_valn_equal(a@, b@, n as nat);
    }
    0
}

/// Product of a bignum with a small number.
pub fn big_mul_small(a: &Vec<u32>, m: u32) -> (r: Vec<u32>)
    requires
        a.len() < MAX_LIMBS,
    ensures
        r.len() <= a.len() + 1,
        val(r@) == val(a@) * m,
{
    let mut r: Vec<u32> = Vec::new();
    let mut carry: u64 = 0;
    let mut i: usize = 0;
    proof {
        assert(valn(a@, 0) == 0);
        assert(valn(a@, 0) * m == 0);
        assert(val(r@) == 0);
    }
    while i < a.len()
        invariant
            i <= a.len(),
            r.len() == i,
            carry < 0x1_0000_0000,
            val(r@) + carry * base_pow(i as nat) == valn(a@, i as nat) * m,
        decreases a.len() - i,
    {
        let x = a[i] as u64;
        let mm = m as u64;
        assert(x * mm + carry < 0x1_0000_0000 * 0x1_0000_0000) by (nonlinear_arith)
            requires
                x < 0x1_0000_0000,
                mm < 0x1_0000_0000,
                carry < 0x1_0000_0000,
        ;
        let p: u64 = x * mm + carry;
        let lo = (p % 0x1_0000_0000) as u32;
        let ghost r0 = r@;
        r.push(lo);
        proof {
            lemma_val_push(r0, lo);
            lemma_carry_step(p as int, lo as int, (p / 0x1_0000_0000) as int, base_pow(i as nat) as int);
            assert(base_pow((i + 1) as nat) == base() * base_pow(i as nat));
            let bp = base_pow(i as nat) as int;
            assert(valn(a@, (i + 1) as nat) == valn(a@, i as nat) + x * bp);
            assert((valn(a@, i as nat) + x * bp) * mm == valn(a@, i as nat) * mm + (x * mm) * bp)
                by (nonlinear_arith);
            assert((x * mm + carry) * bp == (x * mm) * bp + carry * bp) by (nonlinear_arith);
        }
        carry = p / 0x1_0000_0000;
        i = i + 1;
    }
    let ghost r0 = r@;
    if carry > 0 {
        r.push(carry as u32);
        proof {
            lemma_val_push(r0, carry as u32);
        }
    }
    proof {
        lemma_valn_full(a@, a.len() as nat);
    }
    r
}

proof fn lemma_base_pow_add(m: nat, k: nat)
    ensures
        base_pow(m + k) == base_pow(m) * base_pow(k),
    decreases k,
{
    if k > 0 {
        lemma_base_pow_add(m, (k - 1) as nat);
        assert(base_pow(m + k) == base() * base_pow((m + k - 1) as nat));
        assert(base() * (base_pow(m) * base_pow((k - 1) as nat)) == base_pow(m) * (base()
            * base_pow((k - 1) as nat))) by (nonlinear_arith);
    } else {
        assert(base_pow(0) == 1);
        assert(m + k == m);
        assert(base_pow(m) * 1 == base_pow(m));
    }
}

proof fn lemma_pow2_sum(a: nat, b: nat)
    ensures
        pow2_u64(a + b) == pow2_u64(a) * pow2_u64(b),
    decreases a,
{
    if a > 0 {
        lemma_pow2_sum((a - 1) as nat, b);
        assert(pow2_u64(a + b) == 2 * pow2_u64((a - 1 + b) as nat));
        assert(2 * (pow2_u64((a - 1) as nat) * pow2_u64(b)) == (2 * pow2_u64((a - 1) as nat))
            * pow2_u64(b)) by (nonlinear_arith);
    } else {
        assert(pow2_u64(0) == 1);
        assert(a + b == b);
        assert(1 * pow2_u64(b) == pow2_u64(b));
    }
}

proof fn lemma_base_pow_pow2(k: nat)
    ensures
        base_pow(k) == pow2_u64(32 * k),
    decreases k,
{
    if k > 0 {
        lemma_base_pow_pow2((k - 1) as nat);
        lemma_pow2_32();
        lemma_pow2_sum(32, 32 * (k - 1) as nat);
        assert(32 + 32 * (k - 1) as nat == 32 * k);
    }
}

/// `a * 2^n`.
pub fn big_shl(a: &Vec<u32>, n: usize) -> (r: Vec<u32>)
    requires
        a.len() < MAX_LIMBS,
        n < 32 * MAX_LIMBS,
    ensures
        r.len() <= a.len() + n / 32 + 1,
        val(r@) == val(a@) * pow2_u64(n as nat),
{
    let limbs = n / 32;
    let bits = n % 32;
    let mut p: u64 = 1;
    let mut k: usize = 0;
    proof {
        lemma_pow2_31();
    }
    while k < bits
        invariant
            k <= bits,
            bits < 32,
            p == pow2_u64(k as nat),
            pow2_u64(31) == 0x8000_0000,
        decreases bits - k,
    {
        proof {
            lemma_pow2_mono(k as nat, 30);
        }
        p = p * 2;
        k = k + 1;
    }
    proof {
        lemma_pow2_mono(k as nat, 31);
        lemma_pow2_pos(k as nat);
    }
    let mut r: Vec<u32> = Vec::new();
    let mut i: usize = 0;
    while i < limbs
        invariant
            i <= limbs,
            r.len() == i,
            forall|j: int| 0 <= j < i ==> r@[j] == 0,
        decreases limbs - i,
    {
        r.push(0);
        i = i + 1;
    }
    let ghost bl = base_pow(limbs as nat) as int;
    proof {
        lemma_val_all_zero(r@);
        lemma_base_pow_pos(limbs as nat);
        assert(valn(a@, 0) == 0);
        assert(valn(a@, 0) * p * bl == 0) by (nonlinear_arith)
            requires
                valn(a@, 0) == 0,
        ;
        assert(limbs + 0 == limbs);
    }
    let mut carry: u64 = 0;
    let mut j: usize = 0;
    while j < a.len()
        invariant
            j <= a.len(),
            r.len() == limbs + j,
            carry < 0x1_0000_0000,
            1 <= p <= 0x8000_0000,
            bl == base_pow(limbs as nat),
            val(r@) + carry * base_pow((limbs + j) as nat) == valn(a@, j as nat) * p * bl,
        decreases a.len() - j,
    {
        let x = a[j] as u64;
        assert(x * p + carry < 0x1_0000_0000 * 0x1_0000_0000) by (nonlinear_arith)
            requires
                x < 0x1_0000_0000,
                p <= 0x8000_0000,
                carry < 0x1_0000_0000,
        ;
        let v: u64 = x * p + carry;
        let lo = (v % 0x1_0000_0000) as u32;
        let ghost r0 = r@;
        r.push(lo);
        proof {
            lemma_val_push(r0, lo);
            let bp = base_pow((limbs + j) as nat) as int;
            lemma_carry_step(v as int, lo as int, (v / 0x1_0000_0000) as int, bp);
            assert(base_pow((limbs + j + 1) as nat) == base() * base_pow((limbs + j) as nat));
            lemma_base_pow_add(limbs as nat, j as nat);
            let bj = base_pow(j as nat) as int;
            assert(bp == bl * bj);
            assert(limb(a@, j as int) == x as nat);
            assert(valn(a@, (j + 1) as nat) == valn(a@, j as nat) + x * bj);
            assert((valn(a@, j as nat) + x * bj) * p * bl == valn(a@, j as nat) * p * bl + (x * p)
                * (bl * bj)) by (nonlinear_arith);
            assert((x * p + carry) * bp == (x * p) * bp + carry * bp) by (nonlinear_arith);
        }
        carry = v / 0x1_0000_0000;
        j = j + 1;
    }
    let ghost r0 = r@;
    if carry > 0 {
        r.push(carry as u32);
        proof {
            lemma_val_push(r0, carry as u32);
        }
    }
    proof {
        lemma_valn_full(a@, a.len() as nat);
        lemma_base_pow_pow2(limbs as nat);
        lemma_pow2_sum(32 * limbs as nat, bits as nat);
        assert(32 * limbs + bits == n);
        assert(val(a@) * p * bl == val(a@) * (bl * p)) by (nonlinear_arith);
    }
    r
}

/// `2^k` as a natural number.
pub open spec fn pow2_u64(k: nat) -> nat
    decreases k,
{
    if k == 0 {
        1
    } else {
        2 * pow2_u64((k - 1) as nat)
    }
}

proof fn lemma_pow2_mono(j: nat, k: nat)
    requires
        j <= k,
    ensures
        pow2_u64(j) <= pow2_u64(k),
    decreases k - j,
{
    if j < k {
        lemma_pow2_mono(j, (k - 1) as nat);
        lemma_pow2_pos((k - 1) as nat);
    }
}

proof fn lemma_pow2_31()
    ensures
        pow2_u64(31) == 0x8000_0000,
{
    reveal_with_fuel(pow2_u64, 32);
}

proof fn lemma_valn_zero_top(s: Seq<u32>, i: nat, n: nat)
    requires
        i <= n,
        forall|j: int| i <= j < n ==> limb(s, j) == 0,
    ensures
        valn(s, n) == valn(s, i),
    decreases n,
{
    if n > i {
        lemma_valn_zero_top(s, i, (n - 1) as nat);
    }
}

/// Number of significant bits: the position of the highest set bit plus
/// one, so that `2^(r-1) <= a < 2^r` (and `r == 0` for zero).
pub fn big_bitlen(a: &Vec<u32>) -> (r: usize)
    requires
        a.len() < MAX_LIMBS,
    ensures
        r <= 32 * a.len(),
        val(a@) < pow2_u64(r as nat),
        r > 0 ==> pow2_u64((r - 1) as nat) <= val(a@),
        r == 0 <==> val(a@) == 0,
{
    let mut i: usize = a.len();
    proof {
        lemma_valn_full(a@, a.len() as nat);
    }
    while i > 0
        invariant
            i <= a.len(),
            a.len() < MAX_LIMBS,
            forall|j: int| i <= j < a.len() ==> limb(a@, j) == 0,
            valn(a@, a.len() as nat) == val(a@),
        decreases i,
    {
        let x = a[i - 1];
        if x != 0 {
            let b = crate::number::bitlen_u64(x as u64);
            proof {
                lemma_pow2_32();
                if b > 32 {
                    lemma_pow2_mono(32, (b - 1) as nat);
                }
                let k = (i - 1) as nat;
                lemma_valn_zero_top(a@, i as nat, a.len() as nat);
                lemma_valn_bound(a@, k);
                lemma_base_pow_pow2(k);
                lemma_pow2_sum(32 * k, b as nat);
                lemma_pow2_sum(32 * k, (b - 1) as nat);
                let bp = base_pow(k);
                assert(limb(a@, k as int) == x as nat);
                assert(valn(a@, i as nat) == valn(a@, k) + x * bp);
                assert(valn(a@, k) + x * bp < pow2_u64(b as nat) * bp) by (nonlinear_arith)
                    requires
                        valn(a@, k) < bp,
                        x < pow2_u64(b as nat),
                ;
                assert(pow2_u64((b - 1) as nat) * bp <= valn(a@, k) + x * bp) by (nonlinear_arith)
                    requires
                        pow2_u64((b - 1) as nat) <= x,
                ;
                assert(pow2_u64(32 * k + b as nat) == bp * pow2_u64(b as nat));
                assert(pow2_u64(32 * k + (b - 1) as nat) == bp * pow2_u64((b - 1) as nat));
                assert(pow2_u64(b as nat) * bp == bp * pow2_u64(b as nat)) by (nonlinear_arith);
                assert(pow2_u64((b - 1) as nat) * bp == bp * pow2_u64((b - 1) as nat))
                    by (nonlinear_arith);
                assert(val(a@) < pow2_u64(32 * k + b as nat));
                assert(pow2_u64(32 * k + (b - 1) as nat) <= val(a@));
                assert((32 * (i - 1) + b) as nat == 32 * k + b as nat);
                assert((32 * (i - 1) + b - 1) as nat == 32 * k + (b - 1) as nat);
            }
            return 32 * (i - 1) + b as usize;
        }
        i = i - 1;
    }
    proof {
        lemma_valn_zero_top(a@, 0, a.len() as nat);
        assert(pow2_u64(0) == 1);
    }
    0
}

proof fn lemma_pow2_pos(k: nat)
    ensures
        pow2_u64(k) > 0,
    decreases k,
{
    if k > 0 {
        lemma_pow2_pos((k - 1) as nat);
    }
}

proof fn lemma_pow2_32()
    ensures
        pow2_u64(32) == 0x1_0000_0000,
{
    reveal_with_fuel(pow2_u64, 33);
}

/// `10^n`.
pub open spec fn pow10(n: nat) -> nat
    decreases n,
{
    if n == 0 {
        1
    } else {
        10 * pow10((n - 1) as nat)
    }
}

/// `10^n` as a bignum.
pub fn big_pow10(n: usize) -> (r: Vec<u32>)
    requires
        n < MAX_LIMBS / 2,
    ensures
        r.len() <= n + 2,
        val(r@) == pow10(n as nat),
{
    let mut r = big_from_u64(1);
    let mut i: usize = 0;
    while i < n
        invariant
            i <= n,
            n < MAX_LIMBS / 2,
            r.len() <= i + 2,
            val(r@) == pow10(i as nat),
        decreases n - i,
    {
        r = big_mul_small(&r, 10);
        i = i + 1;
    }
    r
}

/// A copy of a bignum.
pub fn big_copy(a: &Vec<u32>) -> (r: Vec<u32>)
    ensures
        r@ == a@,
{
    let mut r: Vec<u32> = Vec::new();
    let mut i: usize = 0;
    while i < a.len()
        invariant
            i <= a.len(),
            r@ == a@.subrange(0, i as int),
        decreases a.len() - i,
    {
        r.push(a[i]);
        i = i + 1;
        assert(r@ =~= a@.subrange(0, i as int));
    }
    assert(a@.subrange(0, a.len() as int) =~= a@);
    r
}

/// `a * 10^n`.
pub fn big_mul_pow10(a: &Vec<u32>, n: usize) -> (r: Vec<u32>)
    requires
        a.len() + n < MAX_LIMBS,
    ensures
        r.len() <= a.len() + n,
        val(r@) == val(a@) * pow10(n as nat),
{
    let mut r = big_copy(a);
    let mut i: usize = 0;
    proof {
        assert(pow10(0) == 1);
        assert(val(a@) * 1 == val(a@));
    }
    while i < n
        invariant
            i <= n,
            a.len() + n < MAX_LIMBS,
            r.len() <= a.len() + i,
            val(r@) == val(a@) * pow10(i as nat),
        decreases n - i,
    {
        r = big_mul_small(&r, 10);
        proof {
            assert(val(a@) * pow10(i as nat) * 10 == val(a@) * (10 * pow10(i as nat)))
                by (nonlinear_arith);
        }
        i = i + 1;
    }
    r
}

} // verus!
