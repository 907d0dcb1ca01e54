//! A store of item modifiers, filed under their text with the numbers taken
//! out, and the lookup of the modifier that an affix line of an item shows.

use regex::Regex;
use vstd::prelude::*;

use crate::decimal::{
    all_ascii_digits, parse_decimal, zero_view, Decimal, DecimalView,
};
use crate::lua_struct::{
    first_index, int_of, keys_of, is_first_index, lemma_first_index_absent, lemma_first_index_found,
    lemma_first_index_in_range, lemma_first_index_least, lookup, LuaStruct, LuaValue,
};
use crate::binary64::f64_key;
use crate::item_parser::{
    decimal_text, digits_value, is_ascii_digit, lemma_decimal_text_digits, lemma_digits_value_monotone,
};
use crate::text::{chars_eq_str, chars_of, sub_chars};

verus! {

/// Whether a modifier is a prefix or a suffix.
#[derive(Debug, Clone, Copy, PartialEq, Eq, Structural)]
pub enum AffixType {
    Prefix,
    Suffix,
    Unknown,
}

/// The values that one number of a modifier can take, bounds included.
#[derive(Debug)]
pub struct ValueRange {
    pub min: Decimal,
    pub max: Decimal,
}

/// One tier of a modifier.
#[derive(Debug)]
pub struct Mod {
    /// The item level from which the tier can occur.
    pub ilvl: i64,
    /// The range of each number in the modifier text, in order; numbers
    /// are compared with them as the binary64 values nearest each.
    pub values: Vec<ValueRange>,
    /// The tier: the number that ends the modifier's name.
    pub tier: i64,
    /// Tells apart modifiers with the same text.
    pub mod_hash: i64,
    pub affix_type: AffixType,
    /// The name of the modifier, without its tier.
    pub pob_name: String,
}

/// The groups that one match of the number pattern of modifier texts
/// captures: a range `(min-max)`, or a plain number.
#[derive(Debug)]
pub struct NumberCapture {
    pub min: Option<String>,
    pub max: Option<String>,
    pub plain: Option<String>,
}

/// Modifiers filed under their text with the numbers replaced by `#`.
pub struct ModStore {
    mods: Vec<(String, Vec<Mod>)>,
}

/// Whether no template occurs twice among `keys`.
pub open spec fn keys_distinct(keys: Seq<Seq<char>>) -> bool {
    forall|i: int, j: int| 0 <= i < j < keys.len() ==> keys[i] != keys[j]
}

impl ModStore {
    /// Each template is filed once.
    #[verifier::type_invariant]
    spec fn templates_once(&self) -> bool {
        keys_distinct(store_keys(self@))
    }
}

/// What a [`Mod`] holds, with its strings as character sequences and its
/// ranges as pairs of numbers.
pub struct ModView {
    pub ilvl: i64,
    pub values: Seq<(DecimalView, DecimalView)>,
    pub tier: i64,
    pub mod_hash: i64,
    pub affix_type: AffixType,
    pub pob_name: Seq<char>,
}

pub open spec fn opt_view(o: Option<String>) -> Option<Seq<char>> {
    match o {
        Some(s) => Some(s@),
        None => None,
    }
}

impl View for ValueRange {
    type V = (DecimalView, DecimalView);

    open spec fn view(&self) -> (DecimalView, DecimalView) {
        (self.min@, self.max@)
    }
}

impl View for Mod {
    type V = ModView;

    open spec fn view(&self) -> ModView {
        ModView {
            ilvl: self.ilvl,
            values: self.values@.map_values(|r: ValueRange| r@),
            tier: self.tier,
            mod_hash: self.mod_hash,
            affix_type: self.affix_type,
            pob_name: self.pob_name@,
        }
    }
}

impl View for NumberCapture {
    type V = (Option<Seq<char>>, Option<Seq<char>>, Option<Seq<char>>);

    open spec fn view(&self) -> (Option<Seq<char>>, Option<Seq<char>>, Option<Seq<char>>) {
        (opt_view(self.min), opt_view(self.max), opt_view(self.plain))
    }
}

pub open spec fn mods_view(mods: Seq<Mod>) -> Seq<ModView> {
    mods.map_values(|m: Mod| m@)
}

pub open spec fn store_view(entries: Seq<(String, Vec<Mod>)>) -> Seq<(Seq<char>, Seq<ModView>)> {
    entries.map_values(|e: (String, Vec<Mod>)| (e.0@, mods_view(e.1@)))
}

pub open spec fn store_keys(store: Seq<(Seq<char>, Seq<ModView>)>) -> Seq<Seq<char>> {
    store.map_values(|e: (Seq<char>, Seq<ModView>)| e.0)
}

impl View for ModStore {
    type V = Seq<(Seq<char>, Seq<ModView>)>;

    closed spec fn view(&self) -> Seq<(Seq<char>, Seq<ModView>)> {
        store_view(self.mods@)
    }
}

// ---------------------------------------------------------------------
// The regular expressions
// ---------------------------------------------------------------------

/// The text of a modifier with every match of the pattern
/// `-?\((?<min>-?\d+(\.\d+)?)-(?<max>-?\d+(\.\d+)?)\)|(\d+)` replaced by `#`.
pub open spec fn affix_template(affix: Seq<char>) -> Seq<char> {
    affix_scan(affix, 0).0
}

/// The groups `min`, `max` and 5 of the successive matches of that pattern
/// in the text of a modifier.
pub open spec fn affix_numbers(affix: Seq<char>) -> Seq<
    (Option<Seq<char>>, Option<Seq<char>>, Option<Seq<char>>),
> {
    affix_scan(affix, 0).1
}

/// The groups `name` and `tier` of the pattern `(?<name>.+?)(?<tier>\d+)$`
/// in a modifier name, if it matches.
pub open spec fn pob_name_parts(pob_name: Seq<char>) -> Option<
    (Option<Seq<char>>, Option<Seq<char>>),
> {
    pob_name_scan(pob_name)
}

/// An affix line with every match of the pattern `(-?\d+(\.\d+)?)` replaced
/// by `#`.
pub open spec fn line_template(line: Seq<char>) -> Seq<char> {
    line_scan(line, 0).0
}

/// Group 1 of the successive matches of that pattern in an affix line.
pub open spec fn line_numbers(line: Seq<char>) -> Seq<Option<Seq<char>>> {
    line_scan(line, 0).1.map_values(|t: Seq<char>| Some(t))
}

// ---------------------------------------------------------------------
// What the patterns match
//
// The patterns are used in the regex crate's default Unicode mode: `.`
// matches any character but `'\n'`, `$` only the end of the text, and `\d`
// any decimal digit of Unicode. The regex engine reports, from left to
// right, the leftmost match that starts at or after the end of the
// previous one; among the matches that start at one place it takes the one
// that the quantifiers (greedy, or lazy where marked `?`) and the left
// alternative prefer.
// ---------------------------------------------------------------------

/// Whether `c` is a decimal digit (Unicode general category `Nd`, as of
/// Unicode 16.0): the characters that `\d` matches, in the ranges of the
/// table that regex-syntax 0.8 builds `\d` from.
pub open spec fn is_decimal_digit(c: char) -> bool {
    let x = c as u32;
    ||| 48 <= x <= 57
    ||| 1632 <= x <= 1641
    ||| 1776 <= x <= 1785
    ||| 1984 <= x <= 1993
    ||| 2406 <= x <= 2415
    ||| 2534 <= x <= 2543
    ||| 2662 <= x <= 2671
    ||| 2790 <= x <= 2799
    ||| 2918 <= x <= 2927
    ||| 3046 <= x <= 3055
    ||| 3174 <= x <= 3183
    ||| 3302 <= x <= 3311
    ||| 3430 <= x <= 3439
    ||| 3558 <= x <= 3567
    ||| 3664 <= x <= 3673
    ||| 3792 <= x <= 3801
    ||| 3872 <= x <= 3881
    ||| 4160 <= x <= 4169
    ||| 4240 <= x <= 4249
    ||| 6112 <= x <= 6121
    ||| 6160 <= x <= 6169
    ||| 6470 <= x <= 6479
    ||| 6608 <= x <= 6617
    ||| 6784 <= x <= 6793
    ||| 6800 <= x <= 6809
    ||| 6992 <= x <= 7001
    ||| 7088 <= x <= 7097
    ||| 7232 <= x <= 7241
    ||| 7248 <= x <= 7257
    ||| 42528 <= x <= 42537
    ||| 43216 <= x <= 43225
    ||| 43264 <= x <= 43273
    ||| 43472 <= x <= 43481
    ||| 43504 <= x <= 43513
    ||| 43600 <= x <= 43609
    ||| 44016 <= x <= 44025
    ||| 65296 <= x <= 65305
    ||| 66720 <= x <= 66729
    ||| 68912 <= x <= 68921
    ||| 68928 <= x <= 68937
    ||| 69734 <= x <= 69743
    ||| 69872 <= x <= 69881
    ||| 69942 <= x <= 69951
    ||| 70096 <= x <= 70105
    ||| 70384 <= x <= 70393
    ||| 70736 <= x <= 70745
    ||| 70864 <= x <= 70873
    ||| 71248 <= x <= 71257
    ||| 71360 <= x <= 71369
    ||| 71376 <= x <= 71395
    ||| 71472 <= x <= 71481
    ||| 71904 <= x <= 71913
    ||| 72016 <= x <= 72025
    ||| 72688 <= x <= 72697
    ||| 72784 <= x <= 72793
    ||| 73040 <= x <= 73049
    ||| 73120 <= x <= 73129
    ||| 73552 <= x <= 73561
    ||| 90416 <= x <= 90425
    ||| 92768 <= x <= 92777
    ||| 92864 <= x <= 92873
    ||| 93008 <= x <= 93017
    ||| 93552 <= x <= 93561
    ||| 118000 <= x <= 118009
    ||| 120782 <= x <= 120831
    ||| 123200 <= x <= 123209
    ||| 123632 <= x <= 123641
    ||| 124144 <= x <= 124153
    ||| 124401 <= x <= 124410
    ||| 125264 <= x <= 125273
    ||| 130032 <= x <= 130041
}

/// The number of decimal digits of `t` from position `i` on.
pub open spec fn digit_run(t: Seq<char>, i: int) -> nat
    decreases t.len() - i,
{
    if 0 <= i < t.len() && is_decimal_digit(t[i]) {
        1 + digit_run(t, i + 1)
    } else {
        0
    }
}

/// The length of the longest `-?D+(.D+)?` that starts at position `i` of
/// `t` (0 when none does): an optional `'-'`, digits, and, when a point
/// with digits after it follows, the point and those digits.
pub open spec fn number_len_at(t: Seq<char>, i: int) -> nat {
    let sign: nat = if 0 <= i < t.len() && t[i] == '-' { 1 } else { 0 };
    let d = digit_run(t, i + sign);
    if d == 0 {
        0
    } else {
        let e = i + sign + d;
        let f = if 0 <= e < t.len() && t[e] == '.' { digit_run(t, e + 1) } else { 0 };
        sign + d + if f > 0 { 1 + f } else { 0 }
    }
}

pub proof fn lemma_digit_run_bound(t: Seq<char>, i: int)
    requires
        0 <= i,
    ensures
        i + digit_run(t, i) <= t.len() || digit_run(t, i) == 0,
    decreases t.len() - i,
{
    if 0 <= i < t.len() && is_decimal_digit(t[i]) {
        lemma_digit_run_bound(t, i + 1);
    }
}

pub proof fn lemma_number_len_bound(t: Seq<char>, i: int)
    requires
        0 <= i,
    ensures
        i + number_len_at(t, i) <= t.len() || number_len_at(t, i) == 0,
{
    let sign: int = if 0 <= i < t.len() && t[i] == '-' { 1 } else { 0 };
    lemma_digit_run_bound(t, i + sign);
    let e = i + sign + digit_run(t, i + sign);
    if 0 <= e < t.len() && t[e] == '.' {
        lemma_digit_run_bound(t, e + 1);
    }
}

/// The template and the numbers of an affix line from position `i` on:
/// each match of `(-?\d+(\.\d+)?)` becomes `#` and is listed.
pub open spec fn line_scan(t: Seq<char>, i: int) -> (Seq<char>, Seq<Seq<char>>)
    decreases t.len() - i,
{
    if i < 0 || i >= t.len() {
        (Seq::empty(), Seq::empty())
    } else {
        let l = number_len_at(t, i);
        if l > 0 {
            proof {
                lemma_number_len_bound(t, i);
            }
            let rest = line_scan(t, i + l);
            (seq!['#'] + rest.0, seq![t.subrange(i, i + l)] + rest.1)
        } else {
            let rest = line_scan(t, i + 1);
            (seq![t[i]] + rest.0, rest.1)
        }
    }
}

/// The length of the match of `-?\((N)-(N)\)` with `N` = `-?\d+(\.\d+)?`
/// that starts at position `i` of `a` (0 when none does).
pub open spec fn range_len_at(a: Seq<char>, i: int) -> nat {
    let p = if 0 <= i < a.len() && a[i] == '-' { i + 1 } else { i };
    let m1 = number_len_at(a, p + 1);
    let q = p + 2 + m1;
    let m2 = number_len_at(a, q);
    if 0 <= p < a.len() && a[p] == '(' && m1 > 0 && q - 1 < a.len() && a[q - 1] == '-' && m2 > 0
        && q + m2 < a.len() && a[q + m2] == ')' {
        (q + m2 + 1 - i) as nat
    } else {
        0
    }
}

/// The `min` and `max` groups of the range match at position `i`.
pub open spec fn range_groups_at(a: Seq<char>, i: int) -> (Seq<char>, Seq<char>) {
    let p = if 0 <= i < a.len() && a[i] == '-' { i + 1 } else { i };
    let m1 = number_len_at(a, p + 1);
    let q = p + 2 + m1;
    (a.subrange(p + 1, p + 1 + m1), a.subrange(q, q + number_len_at(a, q)))
}

/// The template and the captured groups of a modifier text from position
/// `i` on: each match of the modifier number pattern becomes `#` and is
/// listed as its groups `min`, `max` and 5.
pub open spec fn affix_scan(a: Seq<char>, i: int) -> (
    Seq<char>,
    Seq<(Option<Seq<char>>, Option<Seq<char>>, Option<Seq<char>>)>,
)
    decreases a.len() - i,
{
    if i < 0 || i >= a.len() {
        (Seq::empty(), Seq::empty())
    } else {
        let r = range_len_at(a, i);
        let d = digit_run(a, i);
        if r > 0 {
            let rest = affix_scan(a, i + r);
            let g = range_groups_at(a, i);
            (seq!['#'] + rest.0, seq![(Some(g.0), Some(g.1), None)] + rest.1)
        } else if d > 0 {
            proof {
                lemma_digit_run_bound(a, i);
            }
            let rest = affix_scan(a, i + d);
            (seq!['#'] + rest.0, seq![(None, None, Some(a.subrange(i, i + d)))] + rest.1)
        } else {
            let rest = affix_scan(a, i + 1);
            (seq![a[i]] + rest.0, rest.1)
        }
    }
}

/// The position of the last `'\n'` of `s` before position `end`, or -1.
pub open spec fn last_newline_before(s: Seq<char>, end: int) -> int
    decreases end,
{
    if end <= 0 || end > s.len() {
        -1
    } else if s[end - 1] == '\n' {
        end - 1
    } else {
        last_newline_before(s, end - 1)
    }
}

/// The number of decimal digits that end `s[..end]`.
pub open spec fn trailing_digit_run(s: Seq<char>, end: int) -> nat
    decreases end,
{
    if end <= 0 || end > s.len() || !is_decimal_digit(s[end - 1]) {
        0
    } else {
        1 + trailing_digit_run(s, end - 1)
    }
}

/// The groups `name` and `tier` of `(?<name>.+?)(?<tier>\d+)$`: the text
/// ends with a run of digits; the tier is that whole run and the name the
/// rest of its last line. Where that rest is empty, the name takes the
/// first digit of the run, and the run needs a second one.
pub open spec fn pob_name_scan(s: Seq<char>) -> Option<(Option<Seq<char>>, Option<Seq<char>>)> {
    let n = s.len() as int;
    let p = n - trailing_digit_run(s, n);
    let start = last_newline_before(s, p) + 1;
    if p == n {
        None
    } else if start < p {
        Some((Some(s.subrange(start, p)), Some(s.subrange(p, n))))
    } else if p + 2 <= n {
        Some((Some(s.subrange(p, p + 1)), Some(s.subrange(p + 1, n))))
    } else {
        None
    }
}

/// `regex::Regex::replace_all` of the modifier number pattern with `"#"`:
/// claimed to be the template that [`affix_scan`] gives.
#[verifier::external_body]
fn strip_affix_numbers(affix: &str) -> (r: String)
    ensures
        r@ == affix_template(affix@),
{
    let re = Regex::new(r"-?\((?<min>-?\d+(\.\d+)?)-(?<max>-?\d+(\.\d+)?)\)|(\d+)").unwrap();
    re.replace_all(affix, "#").into_owned()
}

/// `regex::Regex::captures_iter` of the modifier number pattern, each match
/// given as its groups `min`, `max` and 5: claimed to be the list that
/// [`affix_scan`] gives.
#[verifier::external_body]
fn capture_affix_numbers(affix: &str) -> (r: Vec<NumberCapture>)
    ensures
        r@.map_values(|c: NumberCapture| c@) == affix_numbers(affix@),
{
    let re = Regex::new(r"-?\((?<min>-?\d+(\.\d+)?)-(?<max>-?\d+(\.\d+)?)\)|(\d+)").unwrap();
    let owned = |m: regex::Match| m.as_str().to_owned();
    re.captures_iter(affix).map(
        |c| NumberCapture { min: c.name("min").map(owned), max: c.name("max").map(owned), plain: c.get(5).map(owned) },
    ).collect()
}

/// `regex::Regex::captures` of the pattern `(?<name>.+?)(?<tier>\d+)$`, given
/// as its groups `name` and `tier`: claimed to be what [`pob_name_scan`]
/// gives.
#[verifier::external_body]
fn capture_pob_name(pob_name: &str) -> (r: Option<(Option<String>, Option<String>)>)
    ensures
        pair_view(r) == pob_name_parts(pob_name@),
{
    let re = Regex::new(r"(?<name>.+?)(?<tier>\d+)$").unwrap();
    let owned = |m: regex::Match| m.as_str().to_owned();
    re.captures(pob_name).map(|c| (c.name("name").map(owned), c.name("tier").map(owned)))
}

/// `regex::Regex::replace_all` of the pattern `(-?\d+(\.\d+)?)` with `"#"`:
/// claimed to be the template that [`line_scan`] gives.
#[verifier::external_body]
fn strip_line_numbers(line: &str) -> (r: String)
    ensures
        r@ == line_template(line@),
{
    let re = Regex::new(r"(-?\d+(\.\d+)?)").unwrap();
    re.replace_all(line, "#").into_owned()
}

/// `regex::Regex::captures_iter` of the pattern `(-?\d+(\.\d+)?)`, each
/// match given as its group 1: claimed to be the numbers that
/// [`line_scan`] gives, each group present.
#[verifier::external_body]
fn capture_line_numbers(line: &str) -> (r: Vec<Option<String>>)
    ensures
        r@.map_values(|o: Option<String>| opt_view(o)) == line_numbers(line@),
{
    let re = Regex::new(r"(-?\d+(\.\d+)?)").unwrap();
    re.captures_iter(line).map(|c| c.get(1).map(|m| m.as_str().to_owned())).collect()
}

pub open spec fn pair_view(r: Option<(Option<String>, Option<String>)>) -> Option<
    (Option<Seq<char>>, Option<Seq<char>>),
> {
    match r {
        Some((a, b)) => Some((opt_view(a), opt_view(b))),
        None => None,
    }
}


// ---------------------------------------------------------------------
// Whole numbers
// ---------------------------------------------------------------------

/// The `i64` that `s` writes as an optional `'+'` or `'-'` followed by one
/// or more ASCII digits; `None` for any other text and for numbers out of
/// range.
pub open spec fn parse_i64_spec(s: Seq<char>) -> Option<i64> {
    let signed = s.len() > 0 && (s[0] == '-' || s[0] == '+');
    let digits = if signed { s.drop_first() } else { s };
    if digits.len() > 0 && all_ascii_digits(digits) {
        let v = digits_value(digits);
        if s[0] == '-' {
            if v <= 0x8000_0000_0000_0000 {
                Some((-(v as int)) as i64)
            } else {
                None
            }
        } else {
            if v <= 0x7fff_ffff_ffff_ffff {
                Some(v as i64)
            } else {
                None
            }
        }
    } else {
        None
    }
}

/// The `i64` that `s` writes as an optional `'+'` or `'-'` followed by one
/// or more ASCII digits; `None` for any other text and for numbers out of
/// range.
pub fn parse_i64(s: &Vec<char>) -> (r: Option<i64>)
    ensures
        r == parse_i64_spec(s@),
{
    let signed = s.len() > 0 && (s[0] == '-' || s[0] == '+');
    let start: usize = if signed { 1 } else { 0 };
    let digits = sub_chars(s, start, s.len());
    assert(digits@ =~= (if signed { s@.drop_first() } else { s@ }));
    if digits.len() == 0 {
        return None;
    }
    let mut mag: u64 = 0;
    let mut i: usize = 0;
    while i < digits.len()
        invariant
            i <= digits@.len(),
            signed == (s@.len() > 0 && (s@[0] == '-' || s@[0] == '+')),
            digits@ == (if signed { s@.drop_first() } else { s@ }),
            digits@.len() > 0,
            mag == digits_value(digits@.take(i as int)),
            mag <= 0x8000_0000_0000_0000,
            forall|j: int| 0 <= j < i ==> is_ascii_digit(#[trigger] digits@[j]),
        decreases digits@.len() - i,
    {
        let c = digits[i];
        if !('0' <= c && c <= '9') {
            assert(!is_ascii_digit(digits@[i as int]));
            return None;
        }
        assert(digits@.take(i + 1).drop_last() =~= digits@.take(i as int));
        let d = ((c as u32) - ('0' as u32)) as u64;
        if mag > 922337203685477580 || (mag == 922337203685477580 && d > 8) {
            proof {
                lemma_digits_value_monotone(digits@, i + 1, digits@.len() as int);
                assert(digits@.take(digits@.len() as int) =~= digits@);
            }
            return None;
        }
        mag = mag * 10 + d;
        i += 1;
    }
    assert(digits@.take(i as int) =~= digits@);
    if s[0] == '-' {
        if mag == 0x8000_0000_0000_0000 {
            Some(i64::MIN)
        } else {
            Some(-(mag as i64))
        }
    } else if mag <= 0x7fff_ffff_ffff_ffff {
        Some(mag as i64)
    } else {
        None
    }
}


// ---------------------------------------------------------------------
// Building modifiers
// ---------------------------------------------------------------------

/// The range that one captured number of a modifier text gives: `min` to
/// `max` for a range, the number itself for a plain number, zero otherwise.
pub open spec fn range_of(c: (Option<Seq<char>>, Option<Seq<char>>, Option<Seq<char>>)) -> (
    DecimalView,
    DecimalView,
) {
    match c {
        (Some(min), Some(max), _) => (parse_decimal(min), parse_decimal(max)),
        (_, _, Some(v)) => (parse_decimal(v), parse_decimal(v)),
        _ => (zero_view(), zero_view()),
    }
}

/// The integer under `key` in `data`, 0 when there is none.
pub open spec fn int_field(data: Seq<(String, LuaValue)>, key: Seq<char>) -> i64 {
    match lookup(data, key) {
        Some(v) => match int_of(v) {
            Some(i) => i,
            None => 0,
        },
        None => 0,
    }
}

/// The affix type that the string under `type` names.
pub open spec fn affix_type_of(data: Seq<(String, LuaValue)>) -> AffixType {
    match lookup(data, "type"@) {
        Some(LuaValue::String(s)) => if s@ == "Suffix"@ {
            AffixType::Suffix
        } else if s@ == "Prefix"@ {
            AffixType::Prefix
        } else {
            AffixType::Unknown
        },
        _ => AffixType::Unknown,
    }
}

/// The tier that the groups of a modifier name give: the `tier` group read
/// as a whole number, 0 when it is missing or does not read.
pub open spec fn tier_of(parts: Option<(Option<Seq<char>>, Option<Seq<char>>)>) -> i64 {
    match parts {
        Some((_, Some(t))) => match parse_i64_spec(t) {
            Some(v) => v,
            None => 0,
        },
        _ => 0,
    }
}

/// The name that the groups of a modifier name give: the `name` group,
/// empty when it is missing.
pub open spec fn name_of(parts: Option<(Option<Seq<char>>, Option<Seq<char>>)>) -> Seq<char> {
    match parts {
        Some((Some(n), _)) => n,
        _ => Seq::empty(),
    }
}

/// The modifier that the groups of its name, its data and the numbers of
/// its text describe.
pub open spec fn mod_of(
    parts: Option<(Option<Seq<char>>, Option<Seq<char>>)>,
    data: Seq<(String, LuaValue)>,
    numbers: Seq<(Option<Seq<char>>, Option<Seq<char>>, Option<Seq<char>>)>,
) -> ModView {
    ModView {
        ilvl: int_field(data, "level"@),
        values: numbers.map_values(|c: (Option<Seq<char>>, Option<Seq<char>>, Option<Seq<char>>)| range_of(c)),
        tier: tier_of(parts),
        mod_hash: int_field(data, "tradeHash"@),
        affix_type: affix_type_of(data),
        pob_name: name_of(parts),
    }
}

proof fn lemma_trailing_run_of_digits(s: Seq<char>, p: int, end: int)
    requires
        0 < p <= end <= s.len(),
        !is_decimal_digit(s[p - 1]),
        forall|i: int| p <= i < s.len() ==> is_ascii_digit(#[trigger] s[i]),
    ensures
        trailing_digit_run(s, end) == end - p,
    decreases end - p,
{
    if end > p {
        assert(is_ascii_digit(s[end - 1]));
        lemma_trailing_run_of_digits(s, p, end - 1);
    }
}

proof fn lemma_no_newline_before(s: Seq<char>, end: int)
    requires
        0 <= end <= s.len(),
        forall|i: int| 0 <= i < end ==> #[trigger] s[i] != '\n',
    ensures
        last_newline_before(s, end) == -1,
    decreases end,
{
    if end > 0 {
        lemma_no_newline_before(s, end - 1);
    }
}

/// A modifier named by a name followed by the decimal writing of a tier
/// `t` has that tier and that name, where the name is one line that does
/// not end in a digit.
pub proof fn lemma_tier_from_name(
    name: Seq<char>,
    t: nat,
    data: Seq<(String, LuaValue)>,
    numbers: Seq<(Option<Seq<char>>, Option<Seq<char>>, Option<Seq<char>>)>,
)
    requires
        name.len() > 0,
        forall|i: int| 0 <= i < name.len() ==> #[trigger] name[i] != '\n',
        !is_decimal_digit(name.last()),
        t <= 0x7fff_ffff_ffff_ffff,
    ensures
        mod_of(pob_name_parts(name + decimal_text(t)), data, numbers).tier == t,
        mod_of(pob_name_parts(name + decimal_text(t)), data, numbers).pob_name == name,
{
    let d = decimal_text(t);
    let s = name + d;
    let p = name.len() as int;
    lemma_decimal_text_digits(t);
    assert forall|i: int| p <= i < s.len() implies is_ascii_digit(#[trigger] s[i]) by {
        assert(s[i] == d[i - p]);
    }
    assert(s[p - 1] == name.last());
    lemma_trailing_run_of_digits(s, p, s.len() as int);
    assert forall|i: int| 0 <= i < p implies #[trigger] s[i] != '\n' by {
        assert(s[i] == name[i]);
    }
    lemma_no_newline_before(s, p);
    assert(s.subrange(0, p) =~= name);
    assert(s.subrange(p, s.len() as int) =~= d);
    assert(d.len() > 0);
    assert(is_ascii_digit(d[0]));
    assert(all_ascii_digits(d));
}

proof fn lemma_lookup_entry(data: Seq<(String, LuaValue)>, key: Seq<char>)
    ensures
        forall|i: int|
            0 <= i < data.len() && (#[trigger] data[i]).0@ == key && (forall|j: int|
                0 <= j < i ==> data[j].0@ != key) ==> lookup(data, key) == Some(data[i].1),
        (forall|j: int| 0 <= j < data.len() ==> data[j].0@ != key) ==> lookup(data, key) is None,
{
    let keys = keys_of(data);
    assert forall|i: int|
        0 <= i < data.len() && (#[trigger] data[i]).0@ == key && (forall|j: int|
            0 <= j < i ==> data[j].0@ != key) implies lookup(data, key) == Some(data[i].1) by {
        assert forall|j: int| 0 <= j < i implies keys[j] != key by {
            assert(keys[j] == data[j].0@);
        }
        lemma_first_index_found(keys, key, i);
    }
    if forall|j: int| 0 <= j < data.len() ==> data[j].0@ != key {
        assert forall|j: int| 0 <= j < keys.len() implies keys[j] != key by {
            assert(keys[j] == data[j].0@);
        }
        lemma_first_index_absent(keys, key);
    }
}

/// What a modifier takes from its data: the item level is the integer of
/// the first entry `level` and the trade hash that of the first entry
/// `tradeHash` (0 where that entry is missing or holds no integer), and the
/// affix type is `Suffix` or `Prefix` where the first entry `type` is that
/// string, `Unknown` otherwise. Each depends on its own entry alone, so the
/// item level is the same for every affix type.
pub proof fn lemma_mod_data_fields(
    parts: Option<(Option<Seq<char>>, Option<Seq<char>>)>,
    data: Seq<(String, LuaValue)>,
    numbers: Seq<(Option<Seq<char>>, Option<Seq<char>>, Option<Seq<char>>)>,
)
    ensures
        forall|i: int|
            0 <= i < data.len() && (#[trigger] data[i]).0@ == "level"@ && (forall|j: int|
                0 <= j < i ==> data[j].0@ != "level"@) ==> mod_of(parts, data, numbers).ilvl == (
            match data[i].1 {
                LuaValue::Integer(l) => l,
                _ => 0,
            }),
        (forall|j: int| 0 <= j < data.len() ==> data[j].0@ != "level"@) ==> mod_of(
            parts,
            data,
            numbers,
        ).ilvl == 0,
        forall|i: int|
            0 <= i < data.len() && (#[trigger] data[i]).0@ == "tradeHash"@ && (forall|j: int|
                0 <= j < i ==> data[j].0@ != "tradeHash"@) ==> mod_of(parts, data, numbers).mod_hash
                == (match data[i].1 {
                LuaValue::Integer(h) => h,
                _ => 0,
            }),
        (forall|j: int| 0 <= j < data.len() ==> data[j].0@ != "tradeHash"@) ==> mod_of(
            parts,
            data,
            numbers,
        ).mod_hash == 0,
        forall|i: int|
            0 <= i < data.len() && (#[trigger] data[i]).0@ == "type"@ && (forall|j: int|
                0 <= j < i ==> data[j].0@ != "type"@) ==> mod_of(parts, data, numbers).affix_type
                == (match data[i].1 {
                LuaValue::String(t) => if t@ == "Suffix"@ {
                    AffixType::Suffix
                } else if t@ == "Prefix"@ {
                    AffixType::Prefix
                } else {
                    AffixType::Unknown
                },
                _ => AffixType::Unknown,
            }),
        (forall|j: int| 0 <= j < data.len() ==> data[j].0@ != "type"@) ==> mod_of(
            parts,
            data,
            numbers,
        ).affix_type == AffixType::Unknown,
        mod_of(parts, data, numbers).values.len() == numbers.len(),
{
    lemma_lookup_entry(data, "level"@);
    lemma_lookup_entry(data, "tradeHash"@);
    lemma_lookup_entry(data, "type"@);
}

fn decimal_of(s: &String) -> (r: Decimal)
    ensures
        r@ == parse_decimal(s@),
{
    let v = chars_of(s.as_str());
    Decimal::from_chars(&v)
}

/// The range that one captured number of a modifier text gives.
pub fn value_range(c: &NumberCapture) -> (r: ValueRange)
    ensures
        r@ == range_of(c@),
{
    match (&c.min, &c.max) {
        (Some(min), Some(max)) => ValueRange { min: decimal_of(min), max: decimal_of(max) },
        _ => match &c.plain {
            Some(v) => ValueRange { min: decimal_of(v), max: decimal_of(v) },
            None => ValueRange { min: Decimal::zero(), max: Decimal::zero() },
        },
    }
}

fn int_field_of(data: &LuaStruct, key: &str) -> (r: i64)
    ensures
        r == int_field(data.data@, key@),
{
    match data.get(key) {
        Some(v) => match v.as_int() {
            Some(i) => i,
            None => 0,
        },
        None => 0,
    }
}

/// The modifier that the groups of its name (`parts`), its data and the
/// captured numbers of its text describe.
pub fn build_mod(
    parts: &Option<(Option<String>, Option<String>)>,
    data: &LuaStruct,
    numbers: &Vec<NumberCapture>,
) -> (r: Mod)
    ensures
        r@ == mod_of(pair_view(*parts), data.data@, numbers@.map_values(|c: NumberCapture| c@)),
{
    let ilvl = int_field_of(data, "level");
    let mod_hash = int_field_of(data, "tradeHash");
    let tier = match parts {
        Some((_, Some(t))) => match parse_i64(&chars_of(t.as_str())) {
            Some(v) => v,
            None => 0,
        },
        _ => 0,
    };
    let pob_name = match parts {
        Some((Some(n), _)) => n.clone(),
        _ => String::new(),
    };
    let affix_type = match data.get("type") {
        Some(LuaValue::String(s)) => {
            let v = chars_of(s.as_str());
            if chars_eq_str(&v, "Suffix") {
                AffixType::Suffix
            } else if chars_eq_str(&v, "Prefix") {
                AffixType::Prefix
            } else {
                AffixType::Unknown
            }
        },
        _ => AffixType::Unknown,
    };
    let mut values: Vec<ValueRange> = Vec::new();
    let mut i: usize = 0;
    while i < numbers.len()
        invariant
            i <= numbers@.len(),
            values@.len() == i,
            forall|j: int| 0 <= j < i ==> #[trigger] values@[j]@ == range_of(numbers@[j]@),
        decreases numbers@.len() - i,
    {
        let vr = value_range(&numbers[i]);
        values.push(vr);
        i += 1;
    }
    let r = Mod { ilvl, values, tier, mod_hash, affix_type, pob_name };
    assert(r@.values =~= numbers@.map_values(|c: NumberCapture| c@).map_values(
        |c: (Option<Seq<char>>, Option<Seq<char>>, Option<Seq<char>>)| range_of(c),
    ));
    r
}


// ---------------------------------------------------------------------
// The store
// ---------------------------------------------------------------------

/// `store` with the modifier `m` filed under `key`: added at the end of the
/// modifiers of the first entry with that key, or as a new entry.
pub open spec fn with_mod(store: Seq<(Seq<char>, Seq<ModView>)>, key: Seq<char>, m: ModView) -> Seq<
    (Seq<char>, Seq<ModView>),
> {
    match first_index(store_keys(store), key) {
        Some(i) => store.update(i, (store[i].0, store[i].1.push(m))),
        None => store.push((key, seq![m])),
    }
}

/// `store` after the modifier texts among `values` are filed, in order, for
/// the modifier named `pob_name` with the data `data`.
pub open spec fn with_mod_texts(
    store: Seq<(Seq<char>, Seq<ModView>)>,
    pob_name: Seq<char>,
    data: Seq<(String, LuaValue)>,
    values: Seq<LuaValue>,
) -> Seq<(Seq<char>, Seq<ModView>)>
    decreases values.len(),
{
    if values.len() == 0 {
        store
    } else {
        let before = with_mod_texts(store, pob_name, data, values.drop_last());
        match values.last() {
            LuaValue::String(affix) => with_mod(
                before,
                affix_template(affix@),
                mod_of(pob_name_parts(pob_name), data, affix_numbers(affix@)),
            ),
            _ => before,
        }
    }
}

/// Filing a modifier keeps every entry and every modifier filed before, in
/// place, and the new modifier is the last one filed under its key.
pub proof fn lemma_with_mod_keeps(store: Seq<(Seq<char>, Seq<ModView>)>, key: Seq<char>, m: ModView)
    ensures
        ({
            let after = with_mod(store, key, m);
            &&& store.len() <= after.len()
            &&& forall|i: int|
                0 <= i < store.len() ==> (#[trigger] after[i]).0 == store[i].0 && after[i].1.take(
                    store[i].1.len() as int,
                ) == store[i].1
            &&& first_index(store_keys(after), key) matches Some(j) && after[j].1.len() > 0
                && after[j].1.last() == m
        }),
{
    let after = with_mod(store, key, m);
    let keys = store_keys(store);
    match first_index(keys, key) {
        Some(i) => {
            lemma_first_index_in_range(keys, key);
            assert(store_keys(after) =~= keys);
            assert forall|j: int| 0 <= j < store.len() implies (#[trigger] after[j]).0
                == store[j].0 && after[j].1.take(store[j].1.len() as int) == store[j].1 by {
                if j == i {
                    assert(after[j].1.take(store[j].1.len() as int) =~= store[j].1);
                } else {
                    assert(after[j] == store[j]);
                    assert(store[j].1.take(store[j].1.len() as int) =~= store[j].1);
                }
            }
        },
        None => {
            assert(store_keys(after) =~= keys.push(key));
            assert forall|j: int| 0 <= j < keys.len() implies keys[j] != key by {
                if keys[j] == key {
                    lemma_first_index_least(keys, key, j);
                }
            }
            lemma_first_index_found(store_keys(after), key, keys.len() as int);
            assert forall|j: int| 0 <= j < store.len() implies (#[trigger] after[j]).0
                == store[j].0 && after[j].1.take(store[j].1.len() as int) == store[j].1 by {
                assert(after[j] == store[j]);
                assert(store[j].1.take(store[j].1.len() as int) =~= store[j].1);
            }
        },
    }
}

/// Filing the modifier texts of a modifier keeps every entry and every
/// modifier filed before, in place.
pub proof fn lemma_with_mod_texts_keeps(
    store: Seq<(Seq<char>, Seq<ModView>)>,
    pob_name: Seq<char>,
    data: Seq<(String, LuaValue)>,
    values: Seq<LuaValue>,
)
    ensures
        ({
            let after = with_mod_texts(store, pob_name, data, values);
            &&& store.len() <= after.len()
            &&& forall|i: int|
                0 <= i < store.len() ==> (#[trigger] after[i]).0 == store[i].0 && store[i].1.len()
                    <= after[i].1.len() && after[i].1.take(store[i].1.len() as int) == store[i].1
        }),
    decreases values.len(),
{
    if values.len() == 0 {
        assert forall|i: int| 0 <= i < store.len() implies store[i].1.take(
            store[i].1.len() as int,
        ) == store[i].1 by {
            assert(store[i].1.take(store[i].1.len() as int) =~= store[i].1);
        }
    } else {
        lemma_with_mod_texts_keeps(store, pob_name, data, values.drop_last());
        let before = with_mod_texts(store, pob_name, data, values.drop_last());
        match values.last() {
            LuaValue::String(affix) => {
                let key = affix_template(affix@);
                let m = mod_of(pob_name_parts(pob_name), data, affix_numbers(affix@));
                lemma_with_mod_keeps(before, key, m);
                let after = with_mod(before, key, m);
                assert forall|i: int| 0 <= i < store.len() implies (#[trigger] after[i]).0
                    == store[i].0 && store[i].1.len() <= after[i].1.len() && after[i].1.take(
                    store[i].1.len() as int,
                ) == store[i].1 by {
                    assert(after[i].1.take(before[i].1.len() as int) == before[i].1);
                    assert(before[i].1.take(store[i].1.len() as int) == store[i].1);
                    assert(after[i].1.take(store[i].1.len() as int) =~= before[i].1.take(
                        store[i].1.len() as int,
                    ));
                }
            },
            _ => {},
        }
    }
}

/// The number of modifiers filed in `store`.
pub open spec fn mod_count(store: Seq<(Seq<char>, Seq<ModView>)>) -> nat
    decreases store.len(),
{
    if store.len() == 0 {
        0
    } else {
        mod_count(store.drop_last()) + store.last().1.len()
    }
}

/// The number of strings among `values`.
pub open spec fn string_count(values: Seq<LuaValue>) -> nat
    decreases values.len(),
{
    if values.len() == 0 {
        0
    } else {
        string_count(values.drop_last()) + if values.last() is String {
            1nat
        } else {
            0nat
        }
    }
}

proof fn lemma_mod_count_update(
    store: Seq<(Seq<char>, Seq<ModView>)>,
    i: int,
    entry: (Seq<char>, Seq<ModView>),
)
    requires
        0 <= i < store.len(),
    ensures
        mod_count(store.update(i, entry)) + store[i].1.len() == mod_count(store) + entry.1.len(),
    decreases store.len(),
{
    let after = store.update(i, entry);
    if i < store.len() - 1 {
        lemma_mod_count_update(store.drop_last(), i, entry);
        assert(after.drop_last() =~= store.drop_last().update(i, entry));
    } else {
        assert(after.drop_last() =~= store.drop_last());
    }
}

/// Filing a modifier adds one to the number filed.
proof fn lemma_with_mod_count(store: Seq<(Seq<char>, Seq<ModView>)>, key: Seq<char>, m: ModView)
    ensures
        mod_count(with_mod(store, key, m)) == mod_count(store) + 1,
{
    match first_index(store_keys(store), key) {
        Some(i) => {
            lemma_first_index_in_range(store_keys(store), key);
            lemma_mod_count_update(store, i, (store[i].0, store[i].1.push(m)));
        },
        None => {
            assert(store.push((key, seq![m])).drop_last() =~= store);
        },
    }
}

/// Filing the modifier texts of `values` adds exactly one modifier for each
/// string among them and nothing for the other values, so a list without
/// strings leaves the store as it is; every entry added is filed under the
/// template of one of those strings.
pub proof fn lemma_with_mod_texts_count(
    store: Seq<(Seq<char>, Seq<ModView>)>,
    pob_name: Seq<char>,
    data: Seq<(String, LuaValue)>,
    values: Seq<LuaValue>,
)
    ensures
        ({
            let after = with_mod_texts(store, pob_name, data, values);
            &&& mod_count(after) == mod_count(store) + string_count(values)
            &&& string_count(values) == 0 ==> after == store
            &&& forall|j: int|
                store.len() <= j < after.len() ==> exists|k: int|
                    0 <= k < values.len() && (#[trigger] values[k] matches LuaValue::String(a)
                        && (#[trigger] after[j]).0 == affix_template(a@))
        }),
    decreases values.len(),
{
    if values.len() > 0 {
        let init = values.drop_last();
        lemma_with_mod_texts_count(store, pob_name, data, init);
        let before = with_mod_texts(store, pob_name, data, init);
        match values.last() {
            LuaValue::String(affix) => {
                let key = affix_template(affix@);
                let m = mod_of(pob_name_parts(pob_name), data, affix_numbers(affix@));
                lemma_with_mod_count(before, key, m);
                let after = with_mod(before, key, m);
                assert forall|j: int| store.len() <= j < after.len() implies exists|k: int|
                    0 <= k < values.len() && (#[trigger] values[k] matches LuaValue::String(a)
                        && (#[trigger] after[j]).0 == affix_template(a@)) by {
                    if j < before.len() {
                        let k = choose|k: int|
                            0 <= k < init.len() && (#[trigger] init[k] matches LuaValue::String(a)
                                && (#[trigger] before[j]).0 == affix_template(a@));
                        assert(values[k] == init[k]);
                        match first_index(store_keys(before), key) {
                            Some(i) => {
                                lemma_first_index_in_range(store_keys(before), key);
                            },
                            None => {},
                        }
                        assert(after[j].0 == before[j].0);
                    } else {
                        match first_index(store_keys(before), key) {
                            Some(i) => {
                                lemma_first_index_in_range(store_keys(before), key);
                            },
                            None => {},
                        }
                        assert(values[values.len() - 1] == values.last());
                        assert(after[j].0 == key);
                    }
                }
            },
            _ => {
                assert forall|j: int| store.len() <= j < before.len() implies exists|k: int|
                    0 <= k < values.len() && (#[trigger] values[k] matches LuaValue::String(a)
                        && (#[trigger] before[j]).0 == affix_template(a@)) by {
                    let k = choose|k: int|
                        0 <= k < init.len() && (#[trigger] init[k] matches LuaValue::String(a)
                            && (#[trigger] before[j]).0 == affix_template(a@));
                    assert(values[k] == init[k]);
                }
            },
        }
    }
}

/// Text whose numbers are plain whole numbers: it holds no `'('`,
/// and no digit follows a `'-'` or a `'.'`.
pub open spec fn plain_number_text(a: Seq<char>) -> bool {
    &&& forall|i: int| 0 <= i < a.len() ==> #[trigger] a[i] != '('
    &&& forall|i: int|
        0 < i < a.len() && is_decimal_digit(#[trigger] a[i]) ==> a[i - 1] != '-' && a[i - 1] != '.'
}

/// The plain number captures of the numbers `nums`.
pub open spec fn plain_captures(nums: Seq<Seq<char>>) -> Seq<
    (Option<Seq<char>>, Option<Seq<char>>, Option<Seq<char>>),
> {
    nums.map_values(|t: Seq<char>| (None::<Seq<char>>, None::<Seq<char>>, Some(t)))
}

/// On text with plain numbers the two number patterns agree: the same
/// template, and each number captured as a plain number.
proof fn lemma_scans_agree_on_plain_text(a: Seq<char>, i: int)
    requires
        plain_number_text(a),
        0 <= i,
    ensures
        affix_scan(a, i).0 == line_scan(a, i).0,
        affix_scan(a, i).1 == plain_captures(line_scan(a, i).1),
    decreases a.len() - i,
{
    if i < a.len() {
        let d = digit_run(a, i);
        assert(range_len_at(a, i) == 0) by {
            if 0 <= i < a.len() && a[i] == '-' && i + 1 < a.len() {
                assert(a[i + 1] != '(');
            }
            assert(a[i] != '(');
        }
        assert(number_len_at(a, i) == d) by {
            if a[i] == '-' {
                if i + 1 < a.len() && is_decimal_digit(a[i + 1]) {
                    assert(a[i + 1 - 1] != '-');
                }
                assert(digit_run(a, i + 1) == 0);
            } else if d > 0 {
                lemma_digit_run_bound(a, i);
                let e = i + d;
                if 0 <= e < a.len() && a[e] == '.' {
                    if e + 1 < a.len() && is_decimal_digit(a[e + 1]) {
                        assert(a[e + 1 - 1] != '.');
                    }
                    assert(digit_run(a, e + 1) == 0);
                }
            }
        }
        if d > 0 {
            lemma_digit_run_bound(a, i);
            lemma_scans_agree_on_plain_text(a, i + d);
            let rest = line_scan(a, i + d).1;
            assert(plain_captures(seq![a.subrange(i, i + d)] + rest) =~= seq![
                (None::<Seq<char>>, None::<Seq<char>>, Some(a.subrange(i, i + d))),
            ] + plain_captures(rest));
        } else {
            lemma_scans_agree_on_plain_text(a, i + 1);
        }
    }
}

/// Reading the captured groups `nums` of the line pattern as decimals.
proof fn lemma_line_values_of_groups(nums: Seq<Seq<char>>)
    ensures
        line_values(nums.map_values(|t: Seq<char>| Some(t))) == nums.map_values(
            |t: Seq<char>| parse_decimal(t),
        ),
    decreases nums.len(),
{
    if nums.len() > 0 {
        lemma_line_values_of_groups(nums.drop_last());
        let opts = nums.map_values(|t: Seq<char>| Some(t));
        assert(opts.drop_last() =~= nums.drop_last().map_values(|t: Seq<char>| Some(t)));
        assert(nums.map_values(|t: Seq<char>| parse_decimal(t)) =~= nums.drop_last().map_values(
            |t: Seq<char>| parse_decimal(t),
        ).push(parse_decimal(nums.last())));
    }
}

/// A modifier that a run of `values` files under `key` stays filed there,
/// at the first entry with that key.
proof fn lemma_filed_mod_stays(
    store: Seq<(Seq<char>, Seq<ModView>)>,
    pob_name: Seq<char>,
    data: Seq<(String, LuaValue)>,
    values: Seq<LuaValue>,
    i: int,
    a: String,
)
    requires
        0 <= i < values.len(),
        values[i] == LuaValue::String(a),
    ensures
        ({
            let after = with_mod_texts(store, pob_name, data, values);
            let m0 = mod_of(pob_name_parts(pob_name), data, affix_numbers(a@));
            exists|j: int|
                first_index(store_keys(after), affix_template(a@)) == Some(j) && (#[trigger] after[j]).1.contains(m0)
        }),
    decreases values.len(),
{
    let key = affix_template(a@);
    let m0 = mod_of(pob_name_parts(pob_name), data, affix_numbers(a@));
    let init = values.drop_last();
    let before = with_mod_texts(store, pob_name, data, init);
    let after = with_mod_texts(store, pob_name, data, values);
    if i == values.len() - 1 {
        assert(values.last() == LuaValue::String(a));
        assert(after == with_mod(before, key, m0));
        lemma_with_mod_keeps(before, key, m0);
        let j = first_index(store_keys(after), key).unwrap();
        assert(after[j].1[after[j].1.len() - 1] == m0);
        assert(after[j].1.contains(m0));
    } else {
        assert(init[i] == values[i]);
        lemma_filed_mod_stays(store, pob_name, data, init, i, a);
        let j = choose|j: int|
            first_index(store_keys(before), key) == Some(j) && (#[trigger] before[j]).1.contains(m0);
        lemma_first_index_in_range(store_keys(before), key);
        let p = choose|p: int| 0 <= p < before[j].1.len() && before[j].1[p] == m0;
        match values.last() {
            LuaValue::String(b) => {
                let key2 = affix_template(b@);
                let m2 = mod_of(pob_name_parts(pob_name), data, affix_numbers(b@));
                lemma_with_mod_keeps(before, key2, m2);
                assert(after[j].1.take(before[j].1.len() as int) == before[j].1);
                assert(after[j].1[p] == before[j].1.take(before[j].1.len() as int)[p]);
                assert(after[j].1.contains(m0));
                assert(is_first_index(store_keys(after), key, j)) by {
                    assert forall|q: int| 0 <= q < j implies store_keys(after)[q] != key by {
                        assert(after[q].0 == before[q].0);
                        assert(store_keys(before)[q] != key);
                    }
                }
                lemma_first_index_found(store_keys(after), key, j);
            },
            _ => {
                assert(after == before);
            },
        }
    }
}

/// A modifier list that some modifier fits has a first one that fits.
proof fn lemma_first_match_exists(mods: Seq<ModView>, vals: Seq<DecimalView>, p: int)
    requires
        0 <= p < mods.len(),
        mod_matches(mods[p], vals),
    ensures
        exists|k: int| is_first_match(mods, vals, k),
    decreases p,
{
    if exists|q: int| 0 <= q < p && mod_matches(#[trigger] mods[q], vals) {
        let q = choose|q: int| 0 <= q < p && mod_matches(#[trigger] mods[q], vals);
        lemma_first_match_exists(mods, vals, q);
    } else {
        assert(is_first_match(mods, vals, p));
    }
}

/// Find after insert: when a modifier text `a` with plain whole numbers was
/// filed (one of the `values` given to `insert` is the string `a`), the
/// affix line `a` itself finds the entry it was filed in. That entry holds
/// the modifier built from `a`, whose ranges are its numbers exactly, so
/// some modifier of the entry fits the line's numbers, and the tier is
/// that of the first one that does.
pub proof fn lemma_find_after_insert(
    store: Seq<(Seq<char>, Seq<ModView>)>,
    pob_name: Seq<char>,
    data: Seq<(String, LuaValue)>,
    values: Seq<LuaValue>,
    i: int,
    a: String,
)
    requires
        0 <= i < values.len(),
        values[i] == LuaValue::String(a),
        plain_number_text(a@),
    ensures
        ({
            let after = with_mod_texts(store, pob_name, data, values);
            let m0 = mod_of(pob_name_parts(pob_name), data, affix_numbers(a@));
            let vals = line_values(line_numbers(a@));
            &&& line_template(a@) == affix_template(a@)
            &&& m0.values == vals.map_values(|v: DecimalView| (v, v))
            &&& mod_matches(m0, vals)
            &&& exists|j: int|
                first_index(store_keys(after), line_template(a@)) == Some(j) && (#[trigger] after[j]).1.contains(m0)
                    && exists|k: int|
                    is_first_match(after[j].1, vals, k) && matched_tier(after[j].1, vals)
                        == after[j].1[k].tier
        }),
{
    let after = with_mod_texts(store, pob_name, data, values);
    let m0 = mod_of(pob_name_parts(pob_name), data, affix_numbers(a@));
    let vals = line_values(line_numbers(a@));
    let nums = line_scan(a@, 0).1;
    lemma_scans_agree_on_plain_text(a@, 0);
    lemma_line_values_of_groups(nums);
    assert(vals == nums.map_values(|t: Seq<char>| parse_decimal(t)));
    assert(m0.values =~= vals.map_values(|v: DecimalView| (v, v)));
    assert forall|q: int| 0 <= q < vals.len() implies in_range(#[trigger] m0.values[q], vals[q]) by {
        assert(m0.values[q] == (vals[q], vals[q]));
    }
    lemma_filed_mod_stays(store, pob_name, data, values, i, a);
    let j = choose|j: int|
        first_index(store_keys(after), affix_template(a@)) == Some(j) && (#[trigger] after[j]).1.contains(m0);
    let p = choose|p: int| 0 <= p < after[j].1.len() && after[j].1[p] == m0;
    lemma_first_match_exists(after[j].1, vals, p);
    let k = choose|k: int| is_first_match(after[j].1, vals, k);
    lemma_first_match_unique(after[j].1, vals, k);
}

impl ModStore {
    /// An empty store.
    pub fn new() -> (r: ModStore)
        ensures
            r@ == Seq::<(Seq<char>, Seq<ModView>)>::empty(),
    {
        let r = ModStore { mods: Vec::new() };
        assert(r@ =~= Seq::<(Seq<char>, Seq<ModView>)>::empty());
        r
    }

    /// The position of the first entry filed under `key`.
    fn position(&self, key: &String) -> (r: Option<usize>)
        ensures
            match r {
                Some(i) => first_index(store_keys(self@), key@) == Some(i as int) && i
                    < self.mods@.len(),
                None => first_index(store_keys(self@), key@) is None,
            },
    {
        let ghost keys = store_keys(self@);
        let mut i: usize = 0;
        while i < self.mods.len()
            invariant
                i <= self.mods@.len(),
                keys == store_keys(self@),
                keys.len() == self.mods@.len(),
                forall|j: int| 0 <= j < i ==> keys[j] != key@,
            decreases self.mods@.len() - i,
        {
            assert(keys[i as int] == self.mods@[i as int].0@);
            if self.mods[i].0 == *key {
                proof {
                    lemma_first_index_found(keys, key@, i as int);
                }
                return Some(i);
            }
            i += 1;
        }
        proof {
            lemma_first_index_absent(keys, key@);
        }
        None
    }

    /// The templates that modifiers are filed under, in the order they were
    /// first filed.
    pub fn templates(&self) -> (r: Vec<String>)
        ensures
            r@.map_values(|t: String| t@) == store_keys(self@),
            keys_distinct(store_keys(self@)),
    {
        proof {
            use_type_invariant(self);
        }
        let mut r: Vec<String> = Vec::new();
        let mut i: usize = 0;
        while i < self.mods.len()
            invariant
                i <= self.mods@.len(),
                r@.len() == i,
                forall|j: int| 0 <= j < i ==> #[trigger] r@[j]@ == self.mods@[j].0@,
            decreases self.mods@.len() - i,
        {
            r.push(self.mods[i].0.clone());
            i += 1;
        }
        assert(r@.map_values(|t: String| t@) =~= store_keys(self@));
        r
    }

    /// Files the modifier `m` under `key`, after the modifiers already
    /// filed there.
    pub fn add_mod(&mut self, key: String, m: Mod)
        ensures
            final(self)@ == with_mod(old(self)@, key@, m@),
    {
        proof {
            use_type_invariant(&*self);
        }
        let pos = self.position(&key);
        let ghost before = self.mods@;
        let ghost mv = m@;
        let mut mods: Vec<(String, Vec<Mod>)> = Vec::new();
        std::mem::swap(&mut mods, &mut self.mods);
        assert(mods@ == before);
        match pos {
            Some(i) => {
                mods[i].1.push(m);
                proof {
                    assert(mods@ == before.update(i as int, (before[i as int].0, mods@[i as int].1)));
                    assert(mods_view(mods@[i as int].1@) =~= mods_view(before[i as int].1@).push(mv));
                    assert(store_view(mods@) =~= with_mod(store_view(before), key@, mv));
                    assert(store_keys(store_view(mods@)) =~= store_keys(store_view(before)));
                }
            },
            None => {
                let mut list: Vec<Mod> = Vec::new();
                list.push(m);
                assert(mods_view(list@) =~= seq![mv]);
                proof {
                    let keys = store_keys(store_view(before));
                    assert forall|j: int| 0 <= j < keys.len() implies keys[j] != key@ by {
                        if keys[j] == key@ {
                            lemma_first_index_least(keys, key@, j);
                        }
                    }
                }
                mods.push((key, list));
                assert(store_view(mods@) =~= store_view(before).push((key@, seq![mv])));
                assert(store_keys(store_view(mods@)) =~= store_keys(store_view(before)).push(key@));
            },
        }
        self.mods = mods;
    }
}


// ---------------------------------------------------------------------
// Lookup
// ---------------------------------------------------------------------

/// The numbers of an affix line: each captured group read as a decimal;
/// matches without the group are left out.
pub open spec fn line_values(caps: Seq<Option<Seq<char>>>) -> Seq<DecimalView>
    decreases caps.len(),
{
    if caps.len() == 0 {
        Seq::empty()
    } else {
        let before = line_values(caps.drop_last());
        match caps.last() {
            Some(t) => before.push(parse_decimal(t)),
            None => before,
        }
    }
}

/// Whether `v` lies in the range `r`, bounds included, once the three
/// numbers are each read as the nearest binary64 value.
pub open spec fn in_range(r: (DecimalView, DecimalView), v: DecimalView) -> bool {
    f64_key(r.0) <= f64_key(v) && f64_key(v) <= f64_key(r.1)
}

/// Whether the numbers `values` fit the modifier `m`: one for each of its
/// ranges, each in its range.
pub open spec fn mod_matches(m: ModView, values: Seq<DecimalView>) -> bool {
    &&& m.values.len() == values.len()
    &&& forall|j: int| 0 <= j < values.len() ==> in_range(#[trigger] m.values[j], values[j])
}

/// Whether `i` is the first position of a modifier that `values` fit.
pub open spec fn is_first_match(mods: Seq<ModView>, values: Seq<DecimalView>, i: int) -> bool {
    &&& 0 <= i < mods.len()
    &&& mod_matches(mods[i], values)
    &&& forall|j: int| 0 <= j < i ==> !mod_matches(#[trigger] mods[j], values)
}

/// The tier of the first modifier that `values` fit, 0 when none does.
pub open spec fn matched_tier(mods: Seq<ModView>, values: Seq<DecimalView>) -> i64 {
    if exists|i: int| is_first_match(mods, values, i) {
        mods[choose|i: int| is_first_match(mods, values, i)].tier
    } else {
        0
    }
}

pub open spec fn decimals_view(v: Seq<Decimal>) -> Seq<DecimalView> {
    v.map_values(|d: Decimal| d@)
}

proof fn lemma_first_match_unique(mods: Seq<ModView>, values: Seq<DecimalView>, i: int)
    requires
        is_first_match(mods, values, i),
    ensures
        matched_tier(mods, values) == mods[i].tier,
{
    let c = choose|c: int| is_first_match(mods, values, c);
    assert(is_first_match(mods, values, c));
    if c < i {
        assert(!mod_matches(mods[c], values));
    } else if c > i {
        assert(!mod_matches(mods[i], values));
    }
}

/// The tier found for numbers is that of the first modifier with one range
/// for each number and each number, read as the nearest binary64 value, at
/// least the range's lower bound and at most its upper bound (both read the
/// same way); it is 0 when no modifier is such.
pub proof fn lemma_matched_tier_bounds(mods: Seq<ModView>, values: Seq<DecimalView>)
    ensures
        forall|k: int|
            0 <= k < mods.len() && mods[k].values.len() == values.len() && (forall|j: int|
                0 <= j < values.len() ==> f64_key(mods[k].values[j].0) <= f64_key(#[trigger] values[j])
                    && f64_key(values[j]) <= f64_key(mods[k].values[j].1)) && (forall|i: int|
                0 <= i < k ==> !(mods[i].values.len() == values.len() && forall|j: int|
                    0 <= j < values.len() ==> f64_key(mods[i].values[j].0) <= f64_key(
                        #[trigger] values[j],
                    ) && f64_key(values[j]) <= f64_key(mods[i].values[j].1)))
                ==> matched_tier(mods, values) == mods[k].tier,
        (forall|k: int|
            0 <= k < mods.len() ==> !(mods[k].values.len() == values.len() && forall|j: int|
                0 <= j < values.len() ==> f64_key(mods[k].values[j].0) <= f64_key(#[trigger] values[j])
                    && f64_key(values[j]) <= f64_key(mods[k].values[j].1)))
            ==> matched_tier(mods, values) == 0,
{
    assert forall|k: int|
        0 <= k < mods.len() && mods[k].values.len() == values.len() && (forall|j: int|
            0 <= j < values.len() ==> f64_key(mods[k].values[j].0) <= f64_key(#[trigger] values[j])
                && f64_key(values[j]) <= f64_key(mods[k].values[j].1)) && (forall|i: int|
            0 <= i < k ==> !(mods[i].values.len() == values.len() && forall|j: int|
                0 <= j < values.len() ==> f64_key(mods[i].values[j].0) <= f64_key(
                    #[trigger] values[j],
                ) && f64_key(values[j]) <= f64_key(mods[i].values[j].1)))
        implies matched_tier(mods, values) == mods[k].tier by {
        assert forall|i: int| 0 <= i < k implies !mod_matches(#[trigger] mods[i], values) by {
            if mod_matches(mods[i], values) {
                assert forall|j: int| 0 <= j < values.len() implies f64_key(mods[i].values[j].0)
                    <= f64_key(#[trigger] values[j]) && f64_key(values[j]) <= f64_key(mods[i].values[j].1) by {
                    assert(in_range(mods[i].values[j], values[j]));
                }
            }
        }
        assert(is_first_match(mods, values, k));
        lemma_first_match_unique(mods, values, k);
    }
    if (forall|k: int|
        0 <= k < mods.len() ==> !(mods[k].values.len() == values.len() && forall|j: int|
            0 <= j < values.len() ==> f64_key(mods[k].values[j].0) <= f64_key(#[trigger] values[j])
                && f64_key(values[j]) <= f64_key(mods[k].values[j].1))) {
        if exists|i: int| is_first_match(mods, values, i) {
            let i = choose|i: int| is_first_match(mods, values, i);
            assert forall|j: int| 0 <= j < values.len() implies f64_key(mods[i].values[j].0)
                <= f64_key(#[trigger] values[j]) && f64_key(values[j]) <= f64_key(mods[i].values[j].1) by {
                assert(in_range(mods[i].values[j], values[j]));
            }
            assert(false);
        }
    }
}

/// Whether the numbers `values` fit the modifier `m`.
fn fits_mod(m: &Mod, values: &Vec<Decimal>) -> (r: bool)
    ensures
        r == mod_matches(m@, decimals_view(values@)),
{
    if m.values.len() != values.len() {
        return false;
    }
    let ghost vs = decimals_view(values@);
    let mut j: usize = 0;
    while j < values.len()
        invariant
            m.values@.len() == values@.len(),
            vs == decimals_view(values@),
            j <= values@.len(),
            forall|k: int| 0 <= k < j ==> in_range(#[trigger] m@.values[k], vs[k]),
        decreases values@.len() - j,
    {
        let range = &m.values[j];
        let v = &values[j];
        assert(m@.values[j as int] == range@);
        assert(vs[j as int] == v@);
        let kv = v.f64_key();
        if !(range.min.f64_key() <= kv && kv <= range.max.f64_key()) {
            return false;
        }
        j += 1;
    }
    true
}

impl ModStore {
    /// Files each modifier text in `data.list` under its text with the
    /// numbers replaced by `#`, as a modifier named by `pob_name` (name and
    /// tier) with the item level, trade hash and affix type of `data` and
    /// the ranges of the numbers of its text.
    pub fn insert(&mut self, pob_name: &String, data: &LuaStruct)
        ensures
            final(self)@ == with_mod_texts(old(self)@, pob_name@, data.data@, data.list@),
    {
        let mut i: usize = 0;
        while i < data.list.len()
            invariant
                i <= data.list@.len(),
                self@ == with_mod_texts(old(self)@, pob_name@, data.data@, data.list@.take(i as int)),
            decreases data.list@.len() - i,
        {
            assert(data.list@.take(i + 1).drop_last() =~= data.list@.take(i as int));
            if let LuaValue::String(affix) = &data.list[i] {
                let key = strip_affix_numbers(affix.as_str());
                let parts = capture_pob_name(pob_name.as_str());
                let numbers = capture_affix_numbers(affix.as_str());
                let m = build_mod(&parts, data, &numbers);
                self.add_mod(key, m);
            }
            i += 1;
        }
        assert(data.list@.take(i as int) =~= data.list@);
    }

    /// The entry filed under `template`, if any, with the tier of its first
    /// modifier that the numbers `values` fit (0 when none does).
    pub fn find_with(&self, template: &String, values: &Vec<Decimal>) -> (r: Option<(i64, &Vec<Mod>)>)
        ensures
            match first_index(store_keys(self@), template@) {
                None => r is None,
                Some(i) => r matches Some((t, ms)) && t == matched_tier(
                    self@[i].1,
                    decimals_view(values@),
                ) && mods_view(ms@) == self@[i].1,
            },
    {
        match self.position(template) {
            None => None,
            Some(i) => {
                let mods = &self.mods[i].1;
                let ghost ms = mods_view(mods@);
                let ghost vs = decimals_view(values@);
                assert(ms == self@[i as int].1);
                let mut j: usize = 0;
                while j < mods.len()
                    invariant
                        j <= mods@.len(),
                        ms == mods_view(mods@),
                        ms == self@[i as int].1,
                        first_index(store_keys(self@), template@) == Some(i as int),
                        vs == decimals_view(values@),
                        forall|k: int| 0 <= k < j ==> !mod_matches(#[trigger] ms[k], vs),
                    decreases mods@.len() - j,
                {
                    assert(ms[j as int] == mods@[j as int]@);
                    if fits_mod(&mods[j], values) {
                        proof {
                            lemma_first_match_unique(ms, vs, j as int);
                        }
                        return Some((mods[j].tier, mods));
                    }
                    j += 1;
                }
                assert(!exists|k: int| is_first_match(ms, vs, k));
                Some((0, mods))
            },
        }
    }

    /// The entry filed under the affix line `mod_line` with its numbers
    /// replaced by `#`, if any, with the tier of its first modifier that the
    /// numbers of the line fit (0 when none does).
    pub fn find(&self, mod_line: &str) -> (r: Option<(i64, &Vec<Mod>)>)
        ensures
            match first_index(store_keys(self@), line_template(mod_line@)) {
                None => r is None,
                Some(i) => r matches Some((t, ms)) && t == matched_tier(
                    self@[i].1,
                    line_values(line_numbers(mod_line@)),
                ) && mods_view(ms@) == self@[i].1,
            },
    {
        let template = strip_line_numbers(mod_line);
        let caps = capture_line_numbers(mod_line);
        let ghost cv = caps@.map_values(|o: Option<String>| opt_view(o));
        let mut values: Vec<Decimal> = Vec::new();
        let mut i: usize = 0;
        while i < caps.len()
            invariant
                i <= caps@.len(),
                cv == caps@.map_values(|o: Option<String>| opt_view(o)),
                decimals_view(values@) == line_values(cv.take(i as int)),
            decreases caps@.len() - i,
        {
            assert(cv.take(i + 1).drop_last() =~= cv.take(i as int));
            assert(cv.take(i + 1).last() == opt_view(caps@[i as int]));
            let ghost before = values@;
            match &caps[i] {
                Some(t) => {
                    let d = decimal_of(t);
                    values.push(d);
                    assert(decimals_view(values@) =~= decimals_view(before).push(d@));
                },
                None => {},
            }
            i += 1;
        }
        assert(cv.take(i as int) =~= cv);
        self.find_with(&template, &values)
    }
}

} // verus!
