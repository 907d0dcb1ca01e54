//! Decimal numbers as they are written in modifier texts (`-12.5`), read
//! digit by digit; `f64_key` gives the binary64 value nearest each.

use vstd::prelude::*;

use crate::item_parser::{digits_value, is_ascii_digit};
use crate::text::{chars_of, sub_chars};
use crate::binary64::{binary64_bits_of, f64_key, scaled_signed};

verus! {

/// `10` to the power `n`.
pub open spec fn pow10(n: nat) -> nat
    decreases n,
{
    if n == 0 {
        1
    } else {
        10 * pow10((n - 1) as nat)
    }
}

/// Whether every element of `s` is a decimal digit value (below 10).
pub open spec fn all_digits(s: Seq<u8>) -> bool {
    forall|i: int| 0 <= i < s.len() ==> #[trigger] s[i] < 10
}

/// The number that the digit values `s` write, most significant first.
pub open spec fn dnum(s: Seq<u8>) -> nat
    decreases s.len(),
{
    if s.len() == 0 {
        0
    } else {
        dnum(s.drop_last()) * 10 + s.last() as nat
    }
}

/// A decimal number: a sign, the digits before the point and the digits
/// after it, as digit values.
pub struct DecimalView {
    pub negative: bool,
    pub int_digits: Seq<u8>,
    pub frac_digits: Seq<u8>,
}

/// The value zero.
pub open spec fn zero_view() -> DecimalView {
    DecimalView { negative: false, int_digits: Seq::empty(), frac_digits: Seq::empty() }
}

/// The digit values of the ASCII digits `s`.
pub open spec fn digit_values(s: Seq<char>) -> Seq<u8> {
    s.map_values(|c: char| (c as int - '0' as int) as u8)
}

pub open spec fn all_ascii_digits(s: Seq<char>) -> bool {
    forall|i: int| 0 <= i < s.len() ==> is_ascii_digit(#[trigger] s[i])
}

/// The first position of `'.'` in `s`, or its length.
pub open spec fn dot_position(s: Seq<char>) -> int
    decreases s.len(),
{
    if s.len() == 0 {
        0
    } else if s[0] == '.' {
        0
    } else {
        1 + dot_position(s.drop_first())
    }
}

/// Whether `s` is written `-?D+(.D+)?` with ASCII digits `D`.
pub open spec fn is_decimal_text(s: Seq<char>) -> bool {
    let neg = s.len() > 0 && s[0] == '-';
    let body = if neg { s.drop_first() } else { s };
    let p = dot_position(body);
    &&& p > 0
    &&& all_ascii_digits(body.take(p))
    &&& p < body.len() ==> (p + 1 < body.len() && all_ascii_digits(body.skip(p + 1)))
}

/// The number that the text `s` writes as `-?D+(.D+)?`; zero for any other
/// text.
pub open spec fn parse_decimal(s: Seq<char>) -> DecimalView {
    let neg = s.len() > 0 && s[0] == '-';
    let body = if neg { s.drop_first() } else { s };
    let p = dot_position(body);
    if is_decimal_text(s) {
        DecimalView {
            negative: neg,
            int_digits: digit_values(body.take(p)),
            frac_digits: if p < body.len() {
                digit_values(body.skip(p + 1))
            } else {
                Seq::empty()
            },
        }
    } else {
        zero_view()
    }
}

// ---------------------------------------------------------------------
// Facts about digit sequences
// ---------------------------------------------------------------------

pub proof fn lemma_pow10_positive(n: nat)
    ensures
        pow10(n) >= 1,
    decreases n,
{
    if n > 0 {
        lemma_pow10_positive((n - 1) as nat);
    }
}

/// Whether every digit of `d` is a digit value.
pub open spec fn view_digits_ok(d: DecimalView) -> bool {
    all_digits(d.int_digits) && all_digits(d.frac_digits)
}

/// A decimal number `-?D+(.D+)?`, kept as its sign and its digits before
/// and after the point.
#[derive(Debug)]
pub struct Decimal {
    negative: bool,
    int_digits: Vec<u8>,
    frac_digits: Vec<u8>,
}

impl Decimal {
    #[verifier::type_invariant]
    spec fn inv(&self) -> bool {
        view_digits_ok(self@)
    }
}

impl View for Decimal {
    type V = DecimalView;

    closed spec fn view(&self) -> DecimalView {
        DecimalView {
            negative: self.negative,
            int_digits: self.int_digits@,
            frac_digits: self.frac_digits@,
        }
    }
}

proof fn lemma_dot_position(s: Seq<char>, q: int)
    requires
        0 <= q <= s.len(),
        forall|j: int| 0 <= j < q ==> #[trigger] s[j] != '.',
        q == s.len() || s[q] == '.',
    ensures
        dot_position(s) == q,
    decreases q,
{
    if q > 0 {
        let t = s.drop_first();
        assert forall|j: int| 0 <= j < q - 1 implies #[trigger] t[j] != '.' by {
            assert(t[j] == s[j + 1]);
        }
        if q < s.len() {
            assert(t[q - 1] == s[q]);
        }
        lemma_dot_position(t, q - 1);
    }
}

/// Whether `v[from..to]` are all ASCII digits.
fn all_digit_chars(v: &Vec<char>, from: usize, to: usize) -> (r: bool)
    requires
        from <= to <= v@.len(),
    ensures
        r == all_ascii_digits(v@.subrange(from as int, to as int)),
{
    let mut i = from;
    while i < to
        invariant
            from <= i <= to <= v@.len(),
            forall|j: int| from <= j < i ==> is_ascii_digit(#[trigger] v@[j]),
        decreases to - i,
    {
        if !('0' <= v[i] && v[i] <= '9') {
            assert(v@.subrange(from as int, to as int)[i - from] == v@[i as int]);
            return false;
        }
        i += 1;
    }
    assert forall|j: int| 0 <= j < to - from implies is_ascii_digit(
        #[trigger] v@.subrange(from as int, to as int)[j],
    ) by {
        assert(v@.subrange(from as int, to as int)[j] == v@[j + from]);
    }
    true
}

/// The digit values of the ASCII digits `v[from..to]`.
fn digit_values_of(v: &Vec<char>, from: usize, to: usize) -> (r: Vec<u8>)
    requires
        from <= to <= v@.len(),
        all_ascii_digits(v@.subrange(from as int, to as int)),
    ensures
        r@ == digit_values(v@.subrange(from as int, to as int)),
        all_digits(r@),
{
    let ghost sub = v@.subrange(from as int, to as int);
    let mut r: Vec<u8> = Vec::new();
    let mut i = from;
    while i < to
        invariant
            from <= i <= to <= v@.len(),
            sub == v@.subrange(from as int, to as int),
            all_ascii_digits(sub),
            r@ == digit_values(sub.take(i - from)),
            all_digits(r@),
        decreases to - i,
    {
        assert(sub[i - from] == v@[i as int]);
        assert(is_ascii_digit(sub[i - from]));
        let d = ((v[i] as u32) - ('0' as u32)) as u8;
        r.push(d);
        i += 1;
        assert(r@ =~= digit_values(sub.take(i - from)));
    }
    assert(sub.take(to - from) =~= sub);
    r
}

impl Decimal {
    /// The value zero.
    pub fn zero() -> (r: Self)
        ensures
            r@ == zero_view(),
    {
        let r = Decimal { negative: false, int_digits: Vec::new(), frac_digits: Vec::new() };
        assert(r@.int_digits =~= Seq::<u8>::empty());
        assert(r@.frac_digits =~= Seq::<u8>::empty());
        r
    }

    /// The number that `s` writes as `-?D+(.D+)?` with ASCII digits `D`;
    /// zero for any other text.
    pub fn from_chars(s: &Vec<char>) -> (r: Self)
        ensures
            r@ == parse_decimal(s@),
    {
        let neg = s.len() > 0 && s[0] == '-';
        let start: usize = if neg { 1 } else { 0 };
        let body = sub_chars(s, start, s.len());
        assert(body@ =~= (if neg { s@.drop_first() } else { s@ }));
        let mut p: usize = 0;
        while p < body.len() && body[p] != '.'
            invariant
                p <= body@.len(),
                forall|j: int| 0 <= j < p ==> #[trigger] body@[j] != '.',
            decreases body@.len() - p,
        {
            p += 1;
        }
        proof {
            lemma_dot_position(body@, p as int);
        }
        assert(body@.take(p as int) =~= body@.subrange(0, p as int));
        if p == 0 || !all_digit_chars(&body, 0, p) {
            return Decimal::zero();
        }
        if p < body.len() {
            if p + 1 >= body.len() || !all_digit_chars(&body, p + 1, body.len()) {
                proof {
                    if p + 1 < body@.len() {
                        assert(body@.skip(p + 1) =~= body@.subrange(p + 1, body@.len() as int));
                    }
                }
                return Decimal::zero();
            }
            assert(body@.skip(p + 1) =~= body@.subrange(p + 1, body@.len() as int));
            let int_digits = digit_values_of(&body, 0, p);
            let frac_digits = digit_values_of(&body, p + 1, body.len());
            Decimal { negative: neg, int_digits, frac_digits }
        } else {
            let int_digits = digit_values_of(&body, 0, p);
            let r = Decimal { negative: neg, int_digits, frac_digits: Vec::new() };
            assert(r@.frac_digits =~= Seq::<u8>::empty());
            r
        }
    }

    /// The number that `s` writes as `-?D+(.D+)?` with ASCII digits `D`;
    /// zero for any other text.
    pub fn parse(s: &str) -> (r: Self)
        ensures
            r@ == parse_decimal(s@),
    {
        let v = chars_of(s);
        Self::from_chars(&v)
    }
}


impl Decimal {
    /// The binary64 value nearest this number, as an integer that orders
    /// those values (see [`f64_key`]).
    pub fn f64_key(&self) -> (r: i64)
        ensures
            r == f64_key(self@),
    {
        proof {
            use_type_invariant(self);
        }
        let mut all: Vec<u8> = Vec::new();
        let mut i: usize = 0;
        while i < self.int_digits.len()
            invariant
                i <= self.int_digits@.len(),
                all@ =~= self.int_digits@.take(i as int),
            decreases self.int_digits@.len() - i,
        {
            all.push(self.int_digits[i]);
            i += 1;
        }
        let mut j: usize = 0;
        while j < self.frac_digits.len()
            invariant
                j <= self.frac_digits@.len(),
                i == self.int_digits@.len(),
                all@ =~= self.int_digits@ + self.frac_digits@.take(j as int),
            decreases self.frac_digits@.len() - j,
        {
            all.push(self.frac_digits[j]);
            j += 1;
        }
        proof {
            assert(self.frac_digits@.take(j as int) =~= self.frac_digits@);
            assert forall|x: int| 0 <= x < all@.len() implies #[trigger] all@[x] < 10 by {
                if x < self.int_digits@.len() {
                    assert(all@[x] == self.int_digits@[x]);
                } else {
                    assert(all@[x] == self.frac_digits@[x - self.int_digits@.len()]);
                }
            }
        }
        let bits = binary64_bits_of(&all, self.frac_digits.len());
        if self.negative {
            -(bits as i64)
        } else {
            bits as i64
        }
    }
}

/// The digit values of ASCII digits write the number the digits write.
proof fn lemma_digit_values_number(s: Seq<char>)
    requires
        all_ascii_digits(s),
    ensures
        dnum(digit_values(s)) == digits_value(s),
        all_digits(digit_values(s)),
    decreases s.len(),
{
    if s.len() > 0 {
        let t = s.drop_last();
        assert(all_ascii_digits(t)) by {
            assert forall|i: int| 0 <= i < t.len() implies is_ascii_digit(#[trigger] t[i]) by {
                assert(t[i] == s[i]);
            }
        }
        lemma_digit_values_number(t);
        assert(digit_values(s).drop_last() =~= digit_values(t));
        assert(is_ascii_digit(s.last()));
    }
}

/// The text of a number reads as that number: digits `ip` are the whole
/// number they write, `ip.fp` that number over `10` to the length of `fp`,
/// and a leading `'-'` negates either.
pub proof fn lemma_parse_decimal_value(ip: Seq<char>, fp: Seq<char>)
    requires
        ip.len() > 0,
        all_ascii_digits(ip),
        all_ascii_digits(fp),
    ensures
        scaled_signed(parse_decimal(ip)) == digits_value(ip),
        parse_decimal(ip).frac_digits.len() == 0,
        scaled_signed(parse_decimal(seq!['-'] + ip)) == -(digits_value(ip) as int),
        parse_decimal(seq!['-'] + ip).frac_digits.len() == 0,
        fp.len() > 0 ==> scaled_signed(parse_decimal(ip + seq!['.'] + fp)) == digits_value(ip + fp)
            && parse_decimal(ip + seq!['.'] + fp).frac_digits.len() == fp.len(),
        fp.len() > 0 ==> scaled_signed(parse_decimal(seq!['-'] + ip + seq!['.'] + fp)) == -(
        digits_value(ip + fp) as int) && parse_decimal(seq!['-'] + ip + seq!['.'] + fp).frac_digits.len()
            == fp.len(),
{
    lemma_digit_values_number(ip);
    assert(ip[0] != '-') by {
        assert(is_ascii_digit(ip[0]));
    }
    assert forall|j: int| 0 <= j < ip.len() implies #[trigger] ip[j] != '.' by {
        assert(is_ascii_digit(ip[j]));
    }
    // `ip`
    lemma_dot_position(ip, ip.len() as int);
    assert(ip.take(ip.len() as int) =~= ip);
    assert(digit_values(ip) + Seq::<u8>::empty() =~= digit_values(ip));
    // `-ip`
    let n = seq!['-'] + ip;
    assert(n.drop_first() =~= ip);
    if fp.len() > 0 {
        let all = ip + fp;
        assert(all_ascii_digits(all)) by {
            assert forall|i: int| 0 <= i < all.len() implies is_ascii_digit(#[trigger] all[i]) by {
                if i < ip.len() {
                    assert(all[i] == ip[i]);
                } else {
                    assert(all[i] == fp[i - ip.len()]);
                }
            }
        }
        lemma_digit_values_number(all);
        assert(digit_values(ip) + digit_values(fp) =~= digit_values(all));
        let t = ip + seq!['.'] + fp;
        let q = ip.len() as int;
        assert forall|j: int| 0 <= j < q implies #[trigger] t[j] != '.' by {
            assert(t[j] == ip[j]);
        }
        lemma_dot_position(t, q);
        assert(t.take(q) =~= ip);
        assert(t.skip(q + 1) =~= fp);
        let nt = seq!['-'] + ip + seq!['.'] + fp;
        assert(nt.drop_first() =~= t);
        assert(nt[0] == '-');
        assert(t[0] != '-') by {
            assert(t[0] == ip[0]);
        }
    }
}

} // verus!
