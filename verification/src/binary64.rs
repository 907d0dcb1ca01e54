//! The binary64 value nearest a decimal number, given by its bit pattern.
//!
//! A number written in decimal is read as a binary64 (IEEE 754 double)
//! value by rounding it to the nearest such value, ties to the one with an
//! even significand, and values from halfway past the largest finite one up
//! become infinity. The bit patterns of the non-negative values are ordered
//! as the values are, so the comparisons of such numbers are comparisons of
//! integers. The rounding is computed here on natural numbers of any size,
//! kept as their decimal digits.

use vstd::prelude::*;
use vstd::arithmetic::power2::{
    pow2,
    lemma_pow2_adds,
    lemma_pow2_pos,
    lemma_pow2_strictly_increases,
    lemma2_to64,
    lemma2_to64_rest,
};
use vstd::arithmetic::mul::lemma_mul_inequality;
use vstd::arithmetic::div_mod::{
    lemma_fundamental_div_mod,
    lemma_fundamental_div_mod_converse,
    lemma_mod_pos_bound,
};

use crate::decimal::{all_digits, dnum, lemma_pow10_positive, pow10, DecimalView};

verus! {

// ---------------------------------------------------------------------
// Natural numbers as little-endian decimal digits
// ---------------------------------------------------------------------

/// Digit `i` of the little-endian digits `s`; 0 past their end.
pub open spec fn digit_at(s: Seq<u8>, i: int) -> nat {
    if 0 <= i < s.len() {
        s[i] as nat
    } else {
        0
    }
}

/// The number that the lowest `i` of the little-endian digits `s` write.
pub open spec fn low_value(s: Seq<u8>, i: nat) -> nat
    decreases i,
{
    if i == 0 {
        0
    } else {
        low_value(s, (i - 1) as nat) + digit_at(s, i - 1) * pow10((i - 1) as nat)
    }
}

/// The number that the little-endian digits `s` write.
pub open spec fn le_value(s: Seq<u8>) -> nat {
    low_value(s, s.len())
}

proof fn lemma_low_value_agree(s: Seq<u8>, t: Seq<u8>, i: nat)
    requires
        forall|j: int| 0 <= j < i ==> digit_at(s, j) == digit_at(t, j),
    ensures
        low_value(s, i) == low_value(t, i),
    decreases i,
{
    if i > 0 {
        lemma_low_value_agree(s, t, (i - 1) as nat);
        assert(digit_at(s, i - 1) == digit_at(t, i - 1));
    }
}

proof fn lemma_low_value_past(s: Seq<u8>, i: nat)
    requires
        i >= s.len(),
    ensures
        low_value(s, i) == le_value(s),
    decreases i,
{
    if i > s.len() {
        lemma_low_value_past(s, (i - 1) as nat);
        assert(digit_at(s, i - 1) == 0);
        assert(low_value(s, i) == low_value(s, (i - 1) as nat) + 0 * pow10((i - 1) as nat));
    }
}

proof fn lemma_low_value_bound(s: Seq<u8>, i: nat)
    requires
        all_digits(s),
    ensures
        low_value(s, i) < pow10(i),
    decreases i,
{
    if i == 0 {
        assert(pow10(0) == 1);
    } else {
        lemma_low_value_bound(s, (i - 1) as nat);
        let p = pow10((i - 1) as nat);
        let d = digit_at(s, i - 1);
        assert(d <= 9);
        assert(pow10(i) == 10 * p);
        assert(low_value(s, (i - 1) as nat) + d * p < 10 * p) by (nonlinear_arith)
            requires
                low_value(s, (i - 1) as nat) < p,
                d <= 9,
        ;
    }
}

proof fn lemma_low_value_shift(d: u8, t: Seq<u8>, i: nat)
    ensures
        low_value(seq![d] + t, i + 1) == d + 10 * low_value(t, i),
    decreases i,
{
    let s = seq![d] + t;
    if i == 0 {
        assert(pow10(0) == 1);
        assert(digit_at(s, 0) == d);
        assert(low_value(s, 1) == low_value(s, 0) + digit_at(s, 0) * pow10(0));
        assert(low_value(t, 0) == 0);
    } else {
        lemma_low_value_shift(d, t, (i - 1) as nat);
        let p = pow10((i - 1) as nat);
        assert(pow10(i) == 10 * p);
        assert(digit_at(s, i as int) == digit_at(t, i - 1));
        let a = digit_at(t, i - 1);
        assert(low_value(s, i + 1) == low_value(s, i) + digit_at(s, i as int) * pow10(i));
        assert(low_value(t, i) == low_value(t, (i - 1) as nat) + a * p);
        assert(a * (10 * p) == 10 * (a * p)) by (nonlinear_arith);
    }
}

/// The little-endian digits of the big-endian digits `s`.
pub open spec fn reversed(s: Seq<u8>) -> Seq<u8> {
    Seq::new(s.len(), |j: int| s[s.len() - 1 - j])
}

proof fn lemma_reversed_value(s: Seq<u8>)
    ensures
        le_value(reversed(s)) == dnum(s),
    decreases s.len(),
{
    if s.len() > 0 {
        let t = s.drop_last();
        lemma_reversed_value(t);
        assert(reversed(s) =~= seq![s.last()] + reversed(t));
        lemma_low_value_shift(s.last(), reversed(t), reversed(t).len());
    }
}

/// `a` times the small number `c`.
fn mul_small(a: &Vec<u8>, c: u64) -> (r: Vec<u8>)
    requires
        all_digits(a@),
        1 <= c <= 0x1000_0000_0000_0000,
    ensures
        all_digits(r@),
        le_value(r@) == le_value(a@) * c,
{
    let mut r: Vec<u8> = Vec::new();
    let mut carry: u64 = 0;
    let mut i: usize = 0;
    assert(le_value(r@) == 0);
    assert(low_value(a@, 0) == 0);
    assert(0 * c == 0);
    while i < a.len()
        invariant
            i <= a@.len(),
            r@.len() == i,
            all_digits(a@),
            all_digits(r@),
            1 <= c <= 0x1000_0000_0000_0000,
            carry < c,
            le_value(r@) + carry * pow10(i as nat) == low_value(a@, i as nat) * c,
        decreases a@.len() - i,
    {
        let d: u64 = a[i] as u64;
        assert(d <= 9);
        assert(d * c <= 9 * c) by (nonlinear_arith)
            requires
                d <= 9,
        ;
        let v: u64 = d * c + carry;
        let ghost p = pow10(i as nat);
        let ghost old_r = r@;
        let ghost old_carry = carry;
        let ghost la = low_value(a@, i as nat);
        r.push((v % 10) as u8);
        carry = v / 10;
        proof {
            lemma_low_value_agree(r@, old_r, i as nat);
            assert(digit_at(r@, i as int) == v % 10);
            assert(digit_at(a@, i as int) == d);
            assert(pow10((i + 1) as nat) == 10 * p);
            assert(low_value(r@, (i + 1) as nat) == le_value(old_r) + (v % 10) * p);
            assert(low_value(a@, (i + 1) as nat) == la + d * p);
            assert(v == 10 * (v / 10) + v % 10);
            assert(le_value(old_r) + (v % 10) * p + (v / 10) * (10 * p) == (la + d * p) * c)
                by (nonlinear_arith)
                requires
                    le_value(old_r) + old_carry * p == la * c,
                    v == d * c + old_carry,
                    v == 10 * (v / 10) + v % 10,
            ;
            assert(all_digits(r@)) by {
                assert forall|j: int| 0 <= j < r@.len() implies #[trigger] r@[j] < 10 by {
                    if j < i {
                        assert(r@[j] == old_r[j]);
                    }
                }
            }
        }
        i += 1;
    }
    assert(low_value(a@, i as nat) == le_value(a@));
    while carry > 0
        invariant
            all_digits(r@),
            le_value(r@) + carry * pow10(r@.len()) == le_value(a@) * c,
        decreases carry,
    {
        let ghost p = pow10(r@.len());
        let ghost old_r = r@;
        let ghost old_carry = carry;
        let ghost n = r@.len();
        r.push((carry % 10) as u8);
        carry = carry / 10;
        proof {
            lemma_low_value_agree(r@, old_r, n);
            assert(digit_at(r@, n as int) == old_carry % 10);
            assert(pow10(n + 1) == 10 * p);
            assert(le_value(r@) == le_value(old_r) + (old_carry % 10) * p);
            assert(old_carry == 10 * (old_carry / 10) + old_carry % 10);
            assert((old_carry % 10) * p + (old_carry / 10) * (10 * p) == old_carry * p)
                by (nonlinear_arith)
                requires
                    old_carry == 10 * (old_carry / 10) + old_carry % 10,
            ;
            assert(all_digits(r@)) by {
                assert forall|j: int| 0 <= j < r@.len() implies #[trigger] r@[j] < 10 by {
                    if j < n {
                        assert(r@[j] == old_r[j]);
                    }
                }
            }
        }
    }
    r
}

/// Whether the number that `a` writes is at most the one `b` writes.
fn le_digits(a: &Vec<u8>, b: &Vec<u8>) -> (r: bool)
    requires
        all_digits(a@),
        all_digits(b@),
    ensures
        r == (le_value(a@) <= le_value(b@)),
{
    let n: usize = if a.len() >= b.len() { a.len() } else { b.len() };
    let mut res = true;
    let mut i: usize = 0;
    while i < n
        invariant
            i <= n,
            n >= a@.len(),
            n >= b@.len(),
            all_digits(a@),
            all_digits(b@),
            res == (low_value(a@, i as nat) <= low_value(b@, i as nat)),
        decreases n - i,
    {
        let da: u8 = if i < a.len() { a[i] } else { 0 };
        let db: u8 = if i < b.len() { b[i] } else { 0 };
        let ghost p = pow10(i as nat);
        let ghost la = low_value(a@, i as nat);
        let ghost lb = low_value(b@, i as nat);
        proof {
            lemma_low_value_bound(a@, i as nat);
            lemma_low_value_bound(b@, i as nat);
            assert(digit_at(a@, i as int) == da);
            assert(digit_at(b@, i as int) == db);
        }
        if da < db {
            res = true;
            assert(la + da * p <= lb + db * p) by (nonlinear_arith)
                requires
                    la < p,
                    (da as int) + 1 <= db,
                    p > 0,
            ;
        } else if da > db {
            res = false;
            assert(lb + db * p < la + da * p) by (nonlinear_arith)
                requires
                    lb < p,
                    (db as int) + 1 <= da,
                    p > 0,
            ;
        }
        i += 1;
    }
    proof {
        lemma_low_value_past(a@, n as nat);
        lemma_low_value_past(b@, n as nat);
    }
    res
}

/// The little-endian digits of the big-endian digits `s`.
fn reverse_digits(s: &Vec<u8>) -> (r: Vec<u8>)
    requires
        all_digits(s@),
    ensures
        all_digits(r@),
        le_value(r@) == dnum(s@),
{
    let n = s.len();
    let mut r: Vec<u8> = Vec::new();
    let mut j: usize = 0;
    while j < n
        invariant
            n == s@.len(),
            j <= n,
            all_digits(s@),
            r@ =~= Seq::new(j as nat, |x: int| s@[n - 1 - x]),
        decreases n - j,
    {
        r.push(s[n - 1 - j]);
        j += 1;
    }
    proof {
        assert(r@ =~= reversed(s@));
        lemma_reversed_value(s@);
        assert forall|x: int| 0 <= x < r@.len() implies #[trigger] r@[x] < 10 by {
            assert(r@[x] == s@[n - 1 - x]);
        }
    }
    r
}


// ---------------------------------------------------------------------
// Rounding to binary64
// ---------------------------------------------------------------------

/// `n / d` rounded to the nearest whole number, ties to the even one.
pub open spec fn round_half_even(n: nat, d: nat) -> nat {
    let q = n / d;
    let r = n % d;
    if 2 * r > d || (2 * r == d && q % 2 == 1) {
        q + 1
    } else {
        q
    }
}

/// Whether `e` is the exponent field, less one, of the binary64 values
/// around `n / 10^k`: with `t = e - 1074`, the number over `2^t` is below
/// `2^53`, and at least `2^52` unless `e` is 0 (the subnormal values).
/// Here both sides are multiplied by `2^1074 * 10^k`.
pub open spec fn exponent_fits(n: nat, k: nat, e: nat) -> bool {
    &&& e <= 2045
    &&& e == 0 || pow2(52 + e) * pow10(k) <= n * pow2(1074)
    &&& n * pow2(1074) < pow2(53 + e) * pow10(k)
}

/// The bit pattern of the binary64 value nearest `n / 10^k`, ties to an
/// even significand: the exponent part times `2^52` plus the rounded
/// significand (a carry into `2^53` moves to the next exponent, and from
/// the largest one to infinity). Numbers from `2^1024` up are infinity.
pub open spec fn binary64_bits(n: nat, k: nat) -> nat {
    if exists|e: nat| exponent_fits(n, k, e) {
        let e = choose|e: nat| exponent_fits(n, k, e);
        e * pow2(52) + round_half_even(n * pow2(1074), pow2(e) * pow10(k))
    } else {
        2047 * pow2(52)
    }
}

/// The binary64 value nearest the decimal `d`, as an integer ordered as
/// those values are: its bit pattern, negated for a negative `d` (so that
/// `-0` and `0` are the same).
pub open spec fn f64_key(d: DecimalView) -> int {
    let b = binary64_bits(dnum(d.int_digits + d.frac_digits), d.frac_digits.len());
    if d.negative {
        -(b as int)
    } else {
        b as int
    }
}

/// At most one exponent fits a number.
pub proof fn lemma_exponent_unique(n: nat, k: nat, e1: nat, e2: nat)
    requires
        exponent_fits(n, k, e1),
        exponent_fits(n, k, e2),
    ensures
        e1 == e2,
{
    if e1 != e2 {
        let (a, b) = if e1 < e2 { (e1, e2) } else { (e2, e1) };
        let p = pow10(k);
        if 53 + a < 52 + b {
            lemma_pow2_strictly_increases(53 + a, 52 + b);
        }
        lemma_mul_inequality(pow2(53 + a) as int, pow2(52 + b) as int, p as int);
    }
}

/// Whether `den * c1 * c2` is at most `num`.
fn scaled_le(den: &Vec<u8>, c1: u64, c2: u64, num: &Vec<u8>) -> (r: bool)
    requires
        all_digits(den@),
        all_digits(num@),
        1 <= c1 <= 0x1000_0000_0000_0000,
        1 <= c2 <= 0x1000_0000_0000_0000,
    ensures
        r == (le_value(den@) * c1 * c2 <= le_value(num@)),
{
    let t = mul_small(den, c1);
    let t2 = mul_small(&t, c2);
    le_digits(&t2, num)
}

/// The bit pattern of the binary64 value nearest `n / 10^k`, where the
/// big-endian digits `digits` write `n`.
pub fn binary64_bits_of(digits: &Vec<u8>, k: usize) -> (r: u64)
    requires
        all_digits(digits@),
    ensures
        r == binary64_bits(dnum(digits@), k as nat),
        r <= 0x7FF0_0000_0000_0000,
{
    let ghost n = dnum(digits@);
    let ghost pk = pow10(k as nat);
    let ghost x = n * pow2(1074);
    proof {
        lemma2_to64();
        lemma2_to64_rest();
    }
    // n * 2^1074 = n * (2^60)^17 * 2^54
    let mut num = reverse_digits(digits);
    let mut j: usize = 0;
    assert(pow2(0) == 1);
    assert((60 * j) as nat == 0);
    assert(n * pow2(0) == n);
    assert(le_value(num@) == n * pow2((60 * j) as nat));
    while j < 17
        invariant
            j <= 17,
            all_digits(num@),
            le_value(num@) == n * pow2((60 * j) as nat),
            pow2(60) == 0x1000_0000_0000_0000,
        decreases 17 - j,
    {
        let ghost b = pow2((60 * j) as nat);
        num = mul_small(&num, 0x1000_0000_0000_0000);
        proof {
            lemma_pow2_adds((60 * j) as nat, 60);
            assert((60 * j) as nat + 60 == (60 * (j + 1)) as nat);
            assert(n * b * pow2(60) == n * (b * pow2(60))) by (nonlinear_arith);
        }
        j += 1;
    }
    let ghost b = pow2(1020);
    num = mul_small(&num, 0x40_0000_0000_0000);
    proof {
        lemma_pow2_adds(1020, 54);
        assert(n * b * pow2(54) == n * (b * pow2(54))) by (nonlinear_arith);
    }
    assert(le_value(num@) == x);
    // 10^k
    let mut den: Vec<u8> = Vec::new();
    den.push(1);
    assert(den@.len() == 1 && den@[0] == 1);
    assert(digit_at(den@, 0) == 1);
    assert(low_value(den@, 0) == 0);
    assert(pow10(0) == 1);
    assert(le_value(den@) == low_value(den@, 0) + digit_at(den@, 0) * pow10(0));
    assert(all_digits(den@));
    let mut i: usize = 0;
    while i < k
        invariant
            i <= k,
            all_digits(den@),
            le_value(den@) == pow10(i as nat),
        decreases k - i,
    {
        den = mul_small(&den, 10);
        assert(pow10((i + 1) as nat) == 10 * pow10(i as nat));
        i += 1;
    }
    // the exponent: first in steps of 50, then of 1
    let mut e: u64 = 0;
    assert(le_value(den@) == pow2(e as nat) * pk);
    while e + 50 <= 2045 && scaled_le(&den, 0x4_0000_0000_0000, 0x20_0000_0000_0000, &num)
        invariant
            e <= 2045,
            all_digits(den@),
            all_digits(num@),
            le_value(num@) == x,
            le_value(den@) == pow2(e as nat) * pk,
            e == 0 || pow2((52 + e) as nat) * pk <= x,
            pow2(50) == 0x4_0000_0000_0000,
            pow2(52) == 0x10_0000_0000_0000,
            pow2(53) == 0x20_0000_0000_0000,
        decreases 2045 - e,
    {
        let ghost be = pow2(e as nat);
        den = mul_small(&den, 0x4_0000_0000_0000);
        proof {
            lemma_pow2_adds(e as nat, 50);
            lemma_pow2_adds((e + 50) as nat, 52);
            lemma_pow2_pos(e as nat);
            assert((e + 50) as nat + 52 == (52 + (e + 50)) as nat);
            assert(be * pk * pow2(50) == be * pow2(50) * pk) by (nonlinear_arith);
            assert(be * pow2(50) * pow2(52) * pk <= be * pk * pow2(50) * pow2(53)) by (nonlinear_arith)
                requires
                    pow2(52) < pow2(53),
            ;
        }
        e = e + 50;
    }
    while e < 2045 && scaled_le(&den, 0x20_0000_0000_0000, 1, &num)
        invariant
            e <= 2045,
            all_digits(den@),
            all_digits(num@),
            le_value(num@) == x,
            le_value(den@) == pow2(e as nat) * pk,
            e == 0 || pow2((52 + e) as nat) * pk <= x,
            pow2(52) == 0x10_0000_0000_0000,
            pow2(53) == 0x20_0000_0000_0000,
        decreases 2045 - e,
    {
        let ghost be = pow2(e as nat);
        den = mul_small(&den, 2);
        proof {
            lemma_pow2_adds(e as nat, 1);
            lemma_pow2_adds((e + 1) as nat, 52);
            lemma_pow2_adds(1, 52);
            assert(pow2(1) == 2);
            assert((e + 1) as nat + 52 == (52 + (e + 1)) as nat);
            assert(be * pk * 2 == be * 2 * pk) by (nonlinear_arith);
            assert(be * 2 * pow2(52) * pk == be * pk * pow2(53) * 1) by (nonlinear_arith)
                requires
                    pow2(53) == 2 * pow2(52),
            ;
        }
        e = e + 1;
    }
    let ghost d = le_value(den@);
    let over = scaled_le(&den, 0x20_0000_0000_0000, 1, &num);
    proof {
        lemma_pow2_adds(e as nat, 53);
        assert((e as nat) + 53 == (53 + e) as nat);
        assert(d * pow2(53) * 1 == pow2((53 + e) as nat) * pk) by (nonlinear_arith)
            requires
                d == pow2(e as nat) * pk,
                pow2((53 + e) as nat) == pow2(e as nat) * pow2(53),
        ;
    }
    if over {
        proof {
            assert(e == 2045);
            assert forall|e2: nat| !exponent_fits(n, k as nat, e2) by {
                if exponent_fits(n, k as nat, e2) {
                    if e2 < 2045 {
                        lemma_pow2_strictly_increases(53 + e2, 53 + 2045);
                    }
                    lemma_mul_inequality(pow2(53 + e2) as int, pow2(53 + 2045) as int, pk as int);
                }
            }
        }
        return 0x7FF0_0000_0000_0000;
    }
    // the significand: the quotient, then rounded
    let mut lo: u64 = 0;
    let mut hi: u64 = 0x20_0000_0000_0000;
    assert(d * lo == 0);
    while hi - lo > 1
        invariant
            lo < hi <= 0x20_0000_0000_0000,
            all_digits(den@),
            all_digits(num@),
            le_value(num@) == x,
            le_value(den@) == d,
            d * lo <= x,
            x < d * hi,
        decreases hi - lo,
    {
        let mid = lo + (hi - lo) / 2;
        if scaled_le(&den, mid, 1, &num) {
            lo = mid;
        } else {
            hi = mid;
        }
    }
    let q = lo;
    let ghost rem = x - d * q;
    proof {
        lemma_pow2_pos(e as nat);
        lemma_pow10_positive(k as nat);
        assert(d > 0) by (nonlinear_arith)
            requires
                d == pow2(e as nat) * pk,
                pow2(e as nat) > 0,
                pk > 0,
        ;
        assert(d * (q + 1) == d * q + d) by (nonlinear_arith);
        lemma_fundamental_div_mod_converse(x as int, d as int, q as int, rem as int);
    }
    let a2 = mul_small(&num, 2);
    let b2 = mul_small(&den, 2 * q + 1);
    let le1 = le_digits(&a2, &b2);
    let le2 = le_digits(&b2, &a2);
    proof {
        assert(d * (2 * q + 1) == 2 * (d * q) + d) by (nonlinear_arith);
    }
    let m: u64 = if !le1 || (le2 && q % 2 == 1) { q + 1 } else { q };
    proof {
        assert(m == round_half_even(x, d));
        assert(exponent_fits(n, k as nat, e as nat));
        let e2 = choose|e2: nat| exponent_fits(n, k as nat, e2);
        lemma_exponent_unique(n, k as nat, e as nat, e2);
        assert(e * 0x10_0000_0000_0000 <= 2045 * 0x10_0000_0000_0000) by (nonlinear_arith)
            requires
                e <= 2045,
        ;
    }
    e * 0x10_0000_0000_0000 + m
}


// ---------------------------------------------------------------------
// What the rounding keeps
// ---------------------------------------------------------------------

proof fn lemma_div_parts(a: nat, d: nat)
    requires
        d > 0,
    ensures
        a == d * (a / d) + a % d,
        a % d < d,
        a / d >= 0,
{
    lemma_fundamental_div_mod(a as int, d as int);
    lemma_mod_pos_bound(a as int, d as int);
}

/// Rounding `a / d` gives at most `c` when `a < c * d`, and at least `c`
/// when `c * d <= a`.
proof fn lemma_round_bounds(a: nat, d: nat, c: nat)
    requires
        d > 0,
    ensures
        a < c * d ==> round_half_even(a, d) <= c,
        c * d <= a ==> round_half_even(a, d) >= c,
{
    lemma_div_parts(a, d);
    let q = a / d;
    let r = a % d;
    if a < c * d {
        assert(q < c) by (nonlinear_arith)
            requires
                a == d * q + r,
                a < c * d,
                d > 0,
                r >= 0,
        ;
    }
    if c * d <= a {
        assert(q >= c) by (nonlinear_arith)
            requires
                a == d * q + r,
                c * d <= a,
                r < d,
        ;
    }
}

/// Rounding is monotone: `a1 / d1 <= a2 / d2` gives rounded values in the
/// same order.
proof fn lemma_round_monotone(a1: nat, d1: nat, a2: nat, d2: nat)
    requires
        d1 > 0,
        d2 > 0,
        a1 * d2 <= a2 * d1,
    ensures
        round_half_even(a1, d1) <= round_half_even(a2, d2),
{
    lemma_div_parts(a1, d1);
    lemma_div_parts(a2, d2);
    let q1 = a1 / d1;
    let r1 = a1 % d1;
    let q2 = a2 / d2;
    let r2 = a2 % d2;
    assert(q1 <= q2) by (nonlinear_arith)
        requires
            a1 == d1 * q1 + r1,
            a2 == d2 * q2 + r2,
            0 <= r1 < d1,
            0 <= r2 < d2,
            a1 * d2 <= a2 * d1,
            q1 >= 0,
            q2 >= 0,
    {
        if q1 > q2 {
            assert(a1 * d2 >= (q2 + 1) * d1 * d2);
            assert(a2 * d1 < (q2 + 1) * d2 * d1);
        }
    }
    if q1 == q2 {
        assert(r1 * d2 <= r2 * d1) by (nonlinear_arith)
            requires
                a1 == d1 * q1 + r1,
                a2 == d2 * q1 + r2,
                a1 * d2 <= a2 * d1,
        ;
        if 2 * r1 > d1 {
            assert(2 * r2 > d2) by (nonlinear_arith)
                requires
                    2 * r1 > d1,
                    r1 * d2 <= r2 * d1,
                    d1 > 0,
                    d2 > 0,
            ;
        } else if 2 * r1 == d1 && q1 % 2 == 1 {
            assert(2 * r2 >= d2) by (nonlinear_arith)
                requires
                    2 * r1 == d1,
                    r1 * d2 <= r2 * d1,
                    d1 > 0,
                    d2 > 0,
            ;
        }
    }
}

/// A number below `2^(53 + E) * 2^-1074` for an `E` up to 2045 has an
/// exponent that fits it, at most `E`.
proof fn lemma_exponent_exists(n: nat, k: nat, big_e: nat)
    requires
        big_e <= 2045,
        n * pow2(1074) < pow2(53 + big_e) * pow10(k),
    ensures
        exists|e: nat| exponent_fits(n, k, e),
    decreases big_e,
{
    if big_e == 0 {
        assert(exponent_fits(n, k, 0));
    } else if n * pow2(1074) < pow2((53 + big_e - 1) as nat) * pow10(k) {
        lemma_exponent_exists(n, k, (big_e - 1) as nat);
    } else {
        assert((53 + big_e - 1) as nat == 52 + big_e);
        assert(exponent_fits(n, k, big_e));
    }
}

/// Zero is read as the bit pattern 0.
proof fn lemma_bits_of_zero(k: nat)
    ensures
        binary64_bits(0, k) == 0,
{
    lemma_pow2_pos(53);
    lemma_pow10_positive(k);
    assert(0 * pow2(1074) == 0);
    assert(pow2(53 + 0) * pow10(k) > 0) by (nonlinear_arith)
        requires
            pow2(53 + 0) > 0,
            pow10(k) > 0,
    ;
    assert(exponent_fits(0, k, 0));
    let e = choose|e: nat| exponent_fits(0, k, e);
    lemma_exponent_unique(0, k, 0, e);
    lemma_pow2_pos(0);
    let d = pow2(0) * pow10(k);
    assert(d > 0) by (nonlinear_arith)
        requires
            pow2(0) > 0,
            pow10(k) > 0,
            d == pow2(0) * pow10(k),
    ;
    lemma_div_parts(0, d);
    let q = 0nat / d;
    let r = 0nat % d;
    assert(q == 0) by (nonlinear_arith)
        requires
            0 == d * q + r,
            d > 0,
            q >= 0,
            r >= 0,
    ;
    assert(e == 0);
    assert(0 * pow2(1074) == 0);
}

/// A number written exactly as `m * 2^(e - 1074)`, with a significand `m`
/// of 53 bits at most, and of exactly 53 bits for an exponent field `e`
/// above 0, is read as the bit pattern `e * 2^52 + m`: the values that
/// binary64 holds are read as themselves.
pub proof fn lemma_bits_exact(n: nat, k: nat, e: nat, m: nat)
    requires
        n * pow2(1074) == m * (pow2(e) * pow10(k)),
        m < 0x20_0000_0000_0000,
        e == 0 || (1 <= e <= 2045 && 0x10_0000_0000_0000 <= m),
    ensures
        binary64_bits(n, k) == e * 0x10_0000_0000_0000 + m,
{
    lemma2_to64();
    lemma2_to64_rest();
    lemma_pow2_pos(e);
    lemma_pow10_positive(k);
    let d = pow2(e) * pow10(k);
    assert(d > 0) by (nonlinear_arith)
        requires
            pow2(e) > 0,
            pow10(k) > 0,
            d == pow2(e) * pow10(k),
    ;
    lemma_pow2_adds(52, e);
    lemma_pow2_adds(53, e);
    assert(pow2(52 + e) * pow10(k) == pow2(52) * d) by (nonlinear_arith)
        requires
            pow2(52 + e) == pow2(52) * pow2(e),
            d == pow2(e) * pow10(k),
    ;
    assert(pow2(53 + e) * pow10(k) == pow2(53) * d) by (nonlinear_arith)
        requires
            pow2(53 + e) == pow2(53) * pow2(e),
            d == pow2(e) * pow10(k),
    ;
    assert(m * d < pow2(53) * d) by (nonlinear_arith)
        requires
            m < pow2(53),
            d > 0,
    ;
    if e > 0 {
        assert(pow2(52) * d <= m * d) by (nonlinear_arith)
            requires
                pow2(52) <= m,
                d > 0,
        ;
    }
    assert(exponent_fits(n, k, e));
    let e2 = choose|e2: nat| exponent_fits(n, k, e2);
    lemma_exponent_unique(n, k, e, e2);
    lemma_div_parts(m * d, d);
    lemma_fundamental_div_mod_converse((m * d) as int, d as int, m as int, 0);
}

/// A number between two neighbouring binary64 values `m * 2^(e - 1074)`
/// and `(m + 1) * 2^(e - 1074)` (from the first up to, not including, the
/// second) is read as the nearer of the two, and as the one with the even
/// significand when it lies halfway; with `e` and `m` as in
/// [`lemma_bits_exact`], the bit patterns of the two are `e * 2^52 + m` and
/// the next one up.
pub proof fn lemma_bits_nearest(n: nat, k: nat, e: nat, m: nat)
    requires
        m < 0x20_0000_0000_0000,
        e == 0 || (1 <= e <= 2045 && 0x10_0000_0000_0000 <= m),
        m * (pow2(e) * pow10(k)) <= n * pow2(1074),
        n * pow2(1074) < (m + 1) * (pow2(e) * pow10(k)),
    ensures
        2 * n * pow2(1074) < (2 * m + 1) * (pow2(e) * pow10(k)) ==> binary64_bits(n, k) == e
            * 0x10_0000_0000_0000 + m,
        2 * n * pow2(1074) > (2 * m + 1) * (pow2(e) * pow10(k)) ==> binary64_bits(n, k) == e
            * 0x10_0000_0000_0000 + m + 1,
        2 * n * pow2(1074) == (2 * m + 1) * (pow2(e) * pow10(k)) ==> binary64_bits(n, k) == e
            * 0x10_0000_0000_0000 + m + m % 2,
{
    lemma2_to64();
    lemma2_to64_rest();
    lemma_pow2_pos(e);
    lemma_pow10_positive(k);
    let x = n * pow2(1074);
    let d = pow2(e) * pow10(k);
    assert(d > 0) by (nonlinear_arith)
        requires
            pow2(e) > 0,
            pow10(k) > 0,
            d == pow2(e) * pow10(k),
    ;
    lemma_pow2_adds(52, e);
    lemma_pow2_adds(53, e);
    assert(pow2(52 + e) * pow10(k) == pow2(52) * d) by (nonlinear_arith)
        requires
            pow2(52 + e) == pow2(52) * pow2(e),
            d == pow2(e) * pow10(k),
    ;
    assert(pow2(53 + e) * pow10(k) == pow2(53) * d) by (nonlinear_arith)
        requires
            pow2(53 + e) == pow2(53) * pow2(e),
            d == pow2(e) * pow10(k),
    ;
    assert((m + 1) * d <= pow2(53) * d) by (nonlinear_arith)
        requires
            m + 1 <= pow2(53),
            d > 0,
    ;
    if e > 0 {
        assert(pow2(52) * d <= m * d) by (nonlinear_arith)
            requires
                pow2(52) <= m,
                d > 0,
        ;
    }
    assert(exponent_fits(n, k, e));
    let e2 = choose|e2: nat| exponent_fits(n, k, e2);
    lemma_exponent_unique(n, k, e, e2);
    let r = (x - m * d) as nat;
    assert(x == m * d + r);
    assert(r < d) by (nonlinear_arith)
        requires
            x < (m + 1) * d,
            x == m * d + r,
    ;
    lemma_fundamental_div_mod_converse(x as int, d as int, m as int, r as int);
    assert(2 * n * pow2(1074) == 2 * x) by (nonlinear_arith)
        requires
            x == n * pow2(1074),
    ;
    assert((2 * m + 1) * d == 2 * (m * d) + d) by (nonlinear_arith);
}

/// Numbers from `2^1024` up are read as infinity, the bit pattern
/// `2047 * 2^52`.
pub proof fn lemma_bits_overflow(n: nat, k: nat)
    requires
        n * pow2(1074) >= pow2(2098) * pow10(k),
    ensures
        binary64_bits(n, k) == 0x7FF0_0000_0000_0000,
{
    lemma2_to64();
    lemma2_to64_rest();
    lemma_pow10_positive(k);
    assert forall|e: nat| !exponent_fits(n, k, e) by {
        if exponent_fits(n, k, e) {
            if 53 + e < 2098 {
                lemma_pow2_strictly_increases(53 + e, 2098);
            }
            lemma_mul_inequality(pow2(53 + e) as int, pow2(2098) as int, pow10(k) as int);
        }
    }
}

/// Rounding keeps the order of numbers: `n1 / 10^k1 <= n2 / 10^k2` gives
/// bit patterns in the same order.
pub proof fn lemma_bits_monotone(n1: nat, k1: nat, n2: nat, k2: nat)
    requires
        n1 * pow10(k2) <= n2 * pow10(k1),
    ensures
        binary64_bits(n1, k1) <= binary64_bits(n2, k2),
{
    lemma2_to64();
    lemma2_to64_rest();
    let t = pow2(1074);
    let p1 = pow10(k1);
    let p2 = pow10(k2);
    let x1 = n1 * t;
    let x2 = n2 * t;
    lemma_pow10_positive(k1);
    lemma_pow10_positive(k2);
    lemma_pow2_pos(1074);
    assert(x1 * p2 <= x2 * p1) by (nonlinear_arith)
        requires
            n1 * p2 <= n2 * p1,
            x1 == n1 * t,
            x2 == n2 * t,
            t > 0,
    ;
    if !(exists|e: nat| exponent_fits(n2, k2, e)) {
        if exists|e: nat| exponent_fits(n1, k1, e) {
            let e1 = choose|e: nat| exponent_fits(n1, k1, e);
            let d1 = pow2(e1) * p1;
            lemma_pow2_pos(e1);
            lemma_pow2_adds(53, e1);
            assert(d1 > 0) by (nonlinear_arith)
                requires
                    pow2(e1) > 0,
                    p1 > 0,
                    d1 == pow2(e1) * p1,
            ;
            assert(x1 < pow2(53) * d1) by (nonlinear_arith)
                requires
                    x1 < pow2(53 + e1) * p1,
                    pow2(53 + e1) == pow2(53) * pow2(e1),
                    d1 == pow2(e1) * p1,
            ;
            lemma_round_bounds(x1, d1, pow2(53));
        }
        return;
    }
    let e2 = choose|e: nat| exponent_fits(n2, k2, e);
    let d2 = pow2(e2) * p2;
    lemma_pow2_pos(e2);
    assert(d2 > 0) by (nonlinear_arith)
        requires
            pow2(e2) > 0,
            p2 > 0,
            d2 == pow2(e2) * p2,
    ;
    // the upper bound of `e2` holds of the smaller number too
    let c = pow2(53 + e2);
    assert(x1 < c * p1) by (nonlinear_arith)
        requires
            x1 * p2 <= x2 * p1,
            x2 < c * p2,
            p1 > 0,
            p2 > 0,
    ;
    lemma_exponent_exists(n1, k1, e2);
    let e1 = choose|e: nat| exponent_fits(n1, k1, e);
    let d1 = pow2(e1) * p1;
    lemma_pow2_pos(e1);
    assert(d1 > 0) by (nonlinear_arith)
        requires
            pow2(e1) > 0,
            p1 > 0,
            d1 == pow2(e1) * p1,
    ;
    if e1 > e2 {
        let l = pow2(52 + e1);
        assert(l * p2 <= x2) by (nonlinear_arith)
            requires
                l * p1 <= x1,
                x1 * p2 <= x2 * p1,
                p1 > 0,
                p2 > 0,
        ;
        if 53 + e2 < 52 + e1 {
            lemma_pow2_strictly_increases(53 + e2, 52 + e1);
        }
        lemma_mul_inequality(c as int, l as int, p2 as int);
        assert(false);
    } else if e1 < e2 {
        lemma_pow2_adds(53, e1);
        lemma_pow2_adds(52, e2);
        assert(x1 < pow2(53) * d1) by (nonlinear_arith)
            requires
                x1 < pow2(53 + e1) * p1,
                pow2(53 + e1) == pow2(53) * pow2(e1),
                d1 == pow2(e1) * p1,
        ;
        assert(pow2(52) * d2 <= x2) by (nonlinear_arith)
            requires
                pow2(52 + e2) * p2 <= x2,
                pow2(52 + e2) == pow2(52) * pow2(e2),
                d2 == pow2(e2) * p2,
        ;
        lemma_round_bounds(x1, d1, pow2(53));
        lemma_round_bounds(x2, d2, pow2(52));
        assert(e1 * pow2(52) + pow2(53) <= e2 * pow2(52) + pow2(52)) by (nonlinear_arith)
            requires
                e1 + 1 <= e2,
                pow2(53) == 2 * pow2(52),
        ;
    } else {
        assert(x1 * d2 <= x2 * d1) by (nonlinear_arith)
            requires
                x1 * p2 <= x2 * p1,
                d1 == pow2(e1) * p1,
                d2 == pow2(e1) * p2,
                e1 == e2,
        ;
        lemma_round_monotone(x1, d1, x2, d2);
    }
}

/// The value of the decimal `d` times `10` to the number of its digits
/// after the point: its digits read as a whole number, with its sign.
pub open spec fn scaled_signed(d: DecimalView) -> int {
    let n = dnum(d.int_digits + d.frac_digits) as int;
    if d.negative {
        -n
    } else {
        n
    }
}

/// Whether the value of the decimal `a` is at most that of `b`.
pub open spec fn value_le(a: DecimalView, b: DecimalView) -> bool {
    scaled_signed(a) * pow10(b.frac_digits.len()) <= scaled_signed(b) * pow10(a.frac_digits.len())
}

/// The keys of decimals are ordered as their values are: reading each as
/// the nearest binary64 value keeps their order. A number that is not
/// negative has a key of at least 0, a negative one a key of at most 0.
pub proof fn lemma_f64_key_monotone(a: DecimalView, b: DecimalView)
    ensures
        value_le(a, b) ==> f64_key(a) <= f64_key(b),
        !a.negative ==> f64_key(a) >= 0,
        a.negative ==> f64_key(a) <= 0,
{
    if value_le(a, b) {
        let na = dnum(a.int_digits + a.frac_digits);
        let nb = dnum(b.int_digits + b.frac_digits);
        let ka = a.frac_digits.len();
        let kb = b.frac_digits.len();
        let pa = pow10(ka);
        let pb = pow10(kb);
        lemma_pow10_positive(ka);
        lemma_pow10_positive(kb);
        if !a.negative && !b.negative {
            lemma_bits_monotone(na, ka, nb, kb);
        } else if a.negative && b.negative {
            assert(nb * pa <= na * pb) by (nonlinear_arith)
                requires
                    (-(na as int)) * pb <= (-(nb as int)) * pa,
            ;
            lemma_bits_monotone(nb, kb, na, ka);
        } else if !a.negative && b.negative {
            assert(na == 0 && nb == 0) by (nonlinear_arith)
                requires
                    (na as int) * pb <= (-(nb as int)) * pa,
                    pa > 0,
                    pb > 0,
            ;
            lemma_bits_of_zero(ka);
            lemma_bits_of_zero(kb);
        }
    }
}

} // verus!
