//! Parsing of the text that the game client copies for an item.
//!
//! The text is a sequence of lines. Lines of the form `Key: value` set a
//! field, the first lines without such a separator name the item, and the
//! lines that follow the item level are its affixes.

use regex::Regex;
use vstd::prelude::*;

use crate::text::{chars_contain, chars_eq_str, chars_of, string_from_chars, sub_chars};

verus! {

/// The attribute requirements of an item.
#[derive(Debug, Clone, Copy, PartialEq, Eq, Structural)]
pub struct Requirements {
    pub level: i64,
    pub str: i64,
    pub dex: i64,
    pub int: i64,
}

impl Default for Requirements {
    fn default() -> (r: Self)
        ensures
            r == (Requirements { level: 0, str: 0, dex: 0, int: 0 }),
    {
        Requirements { level: 0, str: 0, dex: 0, int: 0 }
    }
}

/// The rarity of an item.
#[derive(Debug, Clone, Copy, PartialEq, Eq, Structural)]
pub enum Rarity {
    Magic,
    Rare,
    Normal,
    Unique,
    Unknown,
}

/// An item, as read from its text.
#[derive(Debug)]
pub struct Item {
    pub level: i64,
    pub class: Option<String>,
    pub rarity: Rarity,
    pub base: Option<String>,
    pub name: Option<String>,
    pub requirements: Requirements,
    pub affixes: Vec<String>,
    pub special_affixes: Vec<(String, String)>,
    pub corrupted: bool,
    pub socket_count: i64,
    quality: i64,
}

/// What an [`Item`] holds, with its strings taken as character sequences.
pub struct ItemView {
    pub level: i64,
    pub class: Option<Seq<char>>,
    pub rarity: Rarity,
    pub base: Option<Seq<char>>,
    pub name: Option<Seq<char>>,
    pub requirements: Requirements,
    pub affixes: Seq<Seq<char>>,
    pub special_affixes: Seq<(Seq<char>, Seq<char>)>,
    pub corrupted: bool,
    pub socket_count: i64,
    pub quality: i64,
}

pub open spec fn option_view(o: Option<String>) -> Option<Seq<char>> {
    match o {
        Some(s) => Some(s@),
        None => None,
    }
}

pub open spec fn strings_view(v: Seq<String>) -> Seq<Seq<char>> {
    v.map_values(|s: String| s@)
}

pub open spec fn string_pairs_view(v: Seq<(String, String)>) -> Seq<(Seq<char>, Seq<char>)> {
    v.map_values(|p: (String, String)| (p.0@, p.1@))
}

impl View for Item {
    type V = ItemView;

    closed spec fn view(&self) -> ItemView {
        ItemView {
            level: self.level,
            class: option_view(self.class),
            rarity: self.rarity,
            base: option_view(self.base),
            name: option_view(self.name),
            requirements: self.requirements,
            affixes: strings_view(self.affixes@),
            special_affixes: string_pairs_view(self.special_affixes@),
            corrupted: self.corrupted,
            socket_count: self.socket_count,
            quality: self.quality,
        }
    }
}

/// The item before any line is read: level -1, no strings, unknown rarity.
pub open spec fn initial_item() -> ItemView {
    ItemView {
        level: -1i64,
        class: None,
        rarity: Rarity::Unknown,
        base: None,
        name: None,
        requirements: Requirements { level: 0, str: 0, dex: 0, int: 0 },
        affixes: Seq::empty(),
        special_affixes: Seq::empty(),
        corrupted: false,
        socket_count: 0,
        quality: 0,
    }
}

// ---------------------------------------------------------------------
// Numbers
// ---------------------------------------------------------------------

pub open spec fn is_ascii_digit(c: char) -> bool {
    '0' <= c && c <= '9'
}

pub open spec fn digit_value(c: char) -> nat {
    (c as int - '0' as int) as nat
}

/// The number of ASCII digits that `s` starts with.
pub open spec fn leading_digits(s: Seq<char>) -> nat
    decreases s.len(),
{
    if s.len() > 0 && is_ascii_digit(s[0]) {
        1 + leading_digits(s.drop_first())
    } else {
        0
    }
}

/// The value of a sequence of decimal digits, most significant first.
pub open spec fn digits_value(s: Seq<char>) -> nat
    decreases s.len(),
{
    if s.len() == 0 {
        0
    } else {
        digits_value(s.drop_last()) * 10 + digit_value(s.last())
    }
}

/// The value of the digits that `s` starts with (0 when it starts with none).
pub open spec fn atoi_value(s: Seq<char>) -> nat {
    digits_value(s.take(leading_digits(s) as int))
}

proof fn lemma_leading_digits_bound(s: Seq<char>)
    ensures
        leading_digits(s) <= s.len(),
    decreases s.len(),
{
    if s.len() > 0 {
        lemma_leading_digits_bound(s.drop_first());
    }
}

proof fn lemma_leading_digits_at_least(s: Seq<char>, i: int)
    requires
        0 <= i <= s.len(),
        forall|j: int| 0 <= j < i ==> is_ascii_digit(#[trigger] s[j]),
    ensures
        i <= leading_digits(s),
    decreases i,
{
    if i > 0 {
        let t = s.drop_first();
        assert forall|j: int| 0 <= j < i - 1 implies is_ascii_digit(#[trigger] t[j]) by {
            assert(t[j] == s[j + 1]);
        }
        lemma_leading_digits_at_least(t, i - 1);
    }
}

proof fn lemma_leading_digits_exact(s: Seq<char>, i: int)
    requires
        0 <= i <= s.len(),
        forall|j: int| 0 <= j < i ==> is_ascii_digit(#[trigger] s[j]),
        i == s.len() || !is_ascii_digit(s[i]),
    ensures
        leading_digits(s) == i,
    decreases i,
{
    if i > 0 {
        let t = s.drop_first();
        assert forall|j: int| 0 <= j < i - 1 implies is_ascii_digit(#[trigger] t[j]) by {
            assert(t[j] == s[j + 1]);
        }
        if i < s.len() {
            assert(t[i - 1] == s[i]);
        }
        lemma_leading_digits_exact(t, i - 1);
    }
}

pub proof fn lemma_digits_value_monotone(s: Seq<char>, a: int, b: int)
    requires
        0 <= a <= b <= s.len(),
    ensures
        digits_value(s.take(a)) <= digits_value(s.take(b)),
    decreases b - a,
{
    if a < b {
        lemma_digits_value_monotone(s, a, b - 1);
        assert(s.take(b).drop_last() =~= s.take(b - 1));
    }
}

/// The value of the ASCII digits that `s` starts with (0 when it starts with
/// none), or `None` when that value does not fit in a `u32`.
fn atoi_checked(s: &Vec<char>) -> (r: Option<u32>)
    ensures
        match r {
            Some(v) => v == atoi_value(s@),
            None => atoi_value(s@) > u32::MAX,
        },
{
    let mut acc: u32 = 0;
    let mut i: usize = 0;
    while i < s.len() && '0' <= s[i] && s[i] <= '9'
        invariant
            i <= s@.len(),
            forall|j: int| 0 <= j < i ==> is_ascii_digit(#[trigger] s@[j]),
            acc == digits_value(s@.take(i as int)),
        decreases s@.len() - i,
    {
        proof {
            assert(is_ascii_digit(s@[i as int]));
            assert forall|j: int| 0 <= j < i + 1 implies is_ascii_digit(#[trigger] s@[j]) by {}
            lemma_leading_digits_at_least(s@, i + 1);
            lemma_leading_digits_bound(s@);
            lemma_digits_value_monotone(s@, i + 1, leading_digits(s@) as int);
            assert(s@.take(i + 1).drop_last() =~= s@.take(i as int));
        }
        let d = (s[i] as u32) - ('0' as u32);
        if acc > 429496729 || (acc == 429496729 && d > 5) {
            return None;
        }
        acc = acc * 10 + d;
        i += 1;
    }
    proof {
        lemma_leading_digits_exact(s@, i as int);
    }
    Some(acc)
}

/// The value of the decimal digits that `s` starts with, 0 when it starts
/// with none; what follows the digits is ignored.
pub fn permissive_atoi(s: &str) -> (r: i64)
    requires
        atoi_value(s@) <= u32::MAX,
    ensures
        r == atoi_value(s@),
{
    let v = chars_of(s);
    match atoi_checked(&v) {
        Some(n) => n as i64,
        None => {
            assert(false);
            0
        },
    }
}

// ---------------------------------------------------------------------
// Rarity
// ---------------------------------------------------------------------

/// The rarity that the text `s` names; `Unknown` for any other text.
pub open spec fn rarity_of(s: Seq<char>) -> Rarity {
    if s == "Rare"@ {
        Rarity::Rare
    } else if s == "Magic"@ {
        Rarity::Magic
    } else if s == "Normal"@ {
        Rarity::Normal
    } else if s == "Unique"@ {
        Rarity::Unique
    } else {
        Rarity::Unknown
    }
}

impl Rarity {
    fn from_chars(s: &Vec<char>) -> (r: Rarity)
        ensures
            r == rarity_of(s@),
    {
        if chars_eq_str(s, "Rare") {
            Rarity::Rare
        } else if chars_eq_str(s, "Magic") {
            Rarity::Magic
        } else if chars_eq_str(s, "Normal") {
            Rarity::Normal
        } else if chars_eq_str(s, "Unique") {
            Rarity::Unique
        } else {
            Rarity::Unknown
        }
    }

    /// The rarity named by `s`: `Rare`, `Magic`, `Normal` or `Unique`, and
    /// `Unknown` for anything else.
    pub fn from_str(s: &str) -> (r: Self)
        ensures
            r == rarity_of(s@),
    {
        let v = chars_of(s);
        Self::from_chars(&v)
    }
}


// ---------------------------------------------------------------------
// Lines
// ---------------------------------------------------------------------

/// The first position at or after `from` where `line` holds the separator
/// `": "`.
pub open spec fn find_sep(line: Seq<char>, from: int) -> Option<int>
    decreases line.len() - from,
{
    if from < 0 || from + 1 >= line.len() {
        None
    } else if line[from] == ':' && line[from + 1] == ' ' {
        Some(from)
    } else {
        find_sep(line, from + 1)
    }
}

/// The key and the value of a `Key: value` line: the text before the first
/// `": "`, and the text between it and the next `": "` (or the end).
pub open spec fn key_value(line: Seq<char>) -> Option<(Seq<char>, Seq<char>)> {
    match find_sep(line, 0) {
        Some(k) => {
            let end = match find_sep(line, k + 2) {
                Some(j) => j,
                None => line.len() as int,
            };
            Some((line.take(k), line.subrange(k + 2, end)))
        },
        None => None,
    }
}

/// `s` without one leading `'+'`.
pub open spec fn strip_plus(s: Seq<char>) -> Seq<char> {
    if s.len() > 0 && s[0] == '+' {
        s.drop_first()
    } else {
        s
    }
}

/// The number of times `c` occurs in `s`.
pub open spec fn count_char(s: Seq<char>, c: char) -> nat
    decreases s.len(),
{
    if s.len() == 0 {
        0
    } else {
        count_char(s.drop_last(), c) + if s.last() == c { 1nat } else { 0nat }
    }
}

/// Whether the affix line `line` ends, from position `p` on, with a note in
/// brackets: `" (note)"`, with a note that is not empty and holds no `')'`.
pub open spec fn note_starts_at(line: Seq<char>, p: int) -> bool {
    &&& 1 <= p
    &&& p + 4 <= line.len()
    &&& line[p] == ' '
    &&& line[p + 1] == '('
    &&& line[line.len() - 1] == ')'
    &&& forall|q: int| p + 2 <= q < line.len() - 1 ==> line[q] != ')'
}

/// The first position at or after `p` where a bracketed note starts.
pub open spec fn first_note_from(line: Seq<char>, p: int) -> Option<int>
    decreases line.len() - p,
{
    if p < 1 || p >= line.len() {
        None
    } else if note_starts_at(line, p) {
        Some(p)
    } else {
        first_note_from(line, p + 1)
    }
}

/// An affix line split into the affix and its bracketed note, if it has
/// one: `"text (note)"` gives `("text", Some("note"))`. Where several
/// splits are possible the affix is the shortest one.
pub open spec fn affix_parts(line: Seq<char>) -> (Seq<char>, Option<Seq<char>>) {
    match first_note_from(line, 1) {
        Some(p) => (line.take(p), Some(line.subrange(p + 2, line.len() - 1))),
        None => (line, None),
    }
}

/// The item after the field `key` is set to `value`.
pub open spec fn apply_field(item: ItemView, key: Seq<char>, value: Seq<char>) -> ItemView {
    if key == "Rarity"@ {
        ItemView { rarity: rarity_of(value), ..item }
    } else if key == "Sockets"@ {
        ItemView { socket_count: count_char(value, 'S') as i64, ..item }
    } else if key == "Item Class"@ {
        ItemView { class: Some(value), ..item }
    } else if key == "Item Level"@ {
        ItemView { level: atoi_value(value) as i64, ..item }
    } else if key == "Quality"@ {
        ItemView { quality: atoi_value(strip_plus(value)) as i64, ..item }
    } else if key == "Level"@ {
        ItemView { requirements: Requirements { level: atoi_value(value) as i64, ..item.requirements }, ..item }
    } else if key == "Str"@ {
        ItemView { requirements: Requirements { str: atoi_value(value) as i64, ..item.requirements }, ..item }
    } else if key == "Dex"@ {
        ItemView { requirements: Requirements { dex: atoi_value(value) as i64, ..item.requirements }, ..item }
    } else if key == "Int"@ {
        ItemView { requirements: Requirements { int: atoi_value(value) as i64, ..item.requirements }, ..item }
    } else {
        item
    }
}

/// The item after the affix line `line` is read: a line with a bracketed
/// note adds `(note, affix)` to the special affixes, any other line is added
/// whole to the affixes.
pub open spec fn add_affix(item: ItemView, line: Seq<char>) -> ItemView {
    match affix_parts(line) {
        (affix, Some(note)) => ItemView {
            special_affixes: item.special_affixes.push((note, affix)),
            ..item
        },
        (_, None) => ItemView { affixes: item.affixes.push(line), ..item },
    }
}

/// The item after one line is read.
pub open spec fn parse_line(item: ItemView, line: Seq<char>) -> ItemView {
    if line == "--------"@ {
        item
    } else {
        match key_value(line) {
            Some((key, value)) => apply_field(item, key, value),
            None => {
                if item.level == -1 && line.len() > 0 && !line.contains(':') {
                    if item.name is Some {
                        ItemView { base: Some(line), ..item }
                    } else {
                        ItemView { name: Some(line), ..item }
                    }
                } else if item.level > -1 && line.len() > 0 {
                    if line == "Corrupted"@ {
                        ItemView { corrupted: true, ..item }
                    } else {
                        add_affix(item, line)
                    }
                } else {
                    item
                }
            },
        }
    }
}

/// The number that the field `key` takes from `value`, if any, fits in the
/// `u32` that its digits are summed in.
pub open spec fn field_numbers_fit(key: Seq<char>, value: Seq<char>) -> bool {
    &&& (key == "Item Level"@ || key == "Level"@ || key == "Str"@ || key == "Dex"@
        || key == "Int"@) ==> atoi_value(value) <= u32::MAX
    &&& key == "Quality"@ ==> atoi_value(strip_plus(value)) <= u32::MAX
}

/// The numbers of a line fit in the `u32` that the digits are summed in.
pub open spec fn line_numbers_fit(line: Seq<char>) -> bool {
    match key_value(line) {
        Some((key, value)) => field_numbers_fit(key, value),
        None => true,
    }
}

/// The lines of `s`: the pieces between the `'\n'` characters (one empty
/// piece for an empty text).
pub open spec fn split_lines(s: Seq<char>) -> Seq<Seq<char>>
    decreases s.len(),
{
    if s.len() == 0 {
        seq![Seq::empty()]
    } else {
        let prev = split_lines(s.drop_last());
        if s.last() == '\n' {
            prev.push(Seq::empty())
        } else {
            prev.update(prev.len() - 1, prev.last().push(s.last()))
        }
    }
}

/// The item after the lines `lines` are read in order.
pub open spec fn parse_lines(item: ItemView, lines: Seq<Seq<char>>) -> ItemView
    decreases lines.len(),
{
    if lines.len() == 0 {
        item
    } else {
        parse_line(parse_lines(item, lines.drop_last()), lines.last())
    }
}

/// The item that the text `s` describes.
pub open spec fn parse_item(s: Seq<char>) -> ItemView {
    parse_lines(initial_item(), split_lines(s))
}

/// Every number that the text `s` gives fits in the `u32` that the digits
/// are summed in.
pub open spec fn text_numbers_fit(s: Seq<char>) -> bool {
    forall|i: int| 0 <= i < split_lines(s).len() ==> line_numbers_fit(#[trigger] split_lines(s)[i])
}


// ---------------------------------------------------------------------
// Reading lines
// ---------------------------------------------------------------------

/// The first position at or after `from` where `line` holds `": "`.
fn find_sep_in(line: &Vec<char>, from: usize) -> (r: Option<usize>)
    requires
        from <= line@.len(),
    ensures
        match r {
            Some(k) => find_sep(line@, from as int) == Some(k as int) && from <= k && k + 1
                < line@.len(),
            None => find_sep(line@, from as int) is None,
        },
{
    let mut i = from;
    while i < line.len() && i + 1 < line.len()
        invariant
            from <= i <= line@.len(),
            find_sep(line@, from as int) == find_sep(line@, i as int),
        decreases line@.len() - i,
    {
        if line[i] == ':' && line[i + 1] == ' ' {
            return Some(i);
        }
        i += 1;
    }
    None
}

/// The key and the value of a `Key: value` line.
fn split_key_value(line: &Vec<char>) -> (r: Option<(Vec<char>, Vec<char>)>)
    ensures
        match r {
            Some((k, v)) => key_value(line@) == Some((k@, v@)),
            None => key_value(line@) is None,
        },
{
    assert(line@.len() == line.len());
    match find_sep_in(line, 0) {
        Some(k) => {
            let end = match find_sep_in(line, k + 2) {
                Some(j) => j,
                None => line.len(),
            };
            let key = sub_chars(line, 0, k);
            let value = sub_chars(line, k + 2, end);
            assert(key@ =~= line@.take(k as int));
            Some((key, value))
        },
        None => None,
    }
}

fn strip_plus_chars(value: &Vec<char>) -> (r: Vec<char>)
    ensures
        r@ == strip_plus(value@),
{
    if value.len() > 0 && value[0] == '+' {
        let r = sub_chars(value, 1, value.len());
        assert(r@ =~= value@.drop_first());
        r
    } else {
        let r = sub_chars(value, 0, value.len());
        assert(r@ =~= value@);
        r
    }
}

fn count_char_in(v: &Vec<char>, c: char) -> (r: usize)
    ensures
        r == count_char(v@, c),
        r <= v@.len(),
{
    let mut n: usize = 0;
    let mut i: usize = 0;
    while i < v.len()
        invariant
            i <= v@.len(),
            n <= i,
            n == count_char(v@.take(i as int), c),
        decreases v@.len() - i,
    {
        assert(v@.take(i + 1).drop_last() =~= v@.take(i as int));
        if v[i] == c {
            n += 1;
        }
        i += 1;
    }
    assert(v@.take(i as int) =~= v@);
    n
}

proof fn lemma_counted_keys_not_quality()
    ensures
        "Item Level"@ != "Quality"@,
        "Level"@ != "Quality"@,
        "Str"@ != "Quality"@,
        "Dex"@ != "Quality"@,
        "Int"@ != "Quality"@,
{
    reveal_strlit("Item Level");
    reveal_strlit("Level");
    reveal_strlit("Str");
    reveal_strlit("Dex");
    reveal_strlit("Int");
    reveal_strlit("Quality");
    assert("Item Level"@.len() == 10);
    assert("Level"@.len() == 5);
    assert("Str"@.len() == 3);
    assert("Dex"@.len() == 3);
    assert("Int"@.len() == 3);
    assert("Quality"@.len() == 7);
}

/// Whether the numbers that `line` gives fit in a `u32`.
fn line_fits(line: &Vec<char>) -> (r: bool)
    ensures
        r == line_numbers_fit(line@),
{
    match split_key_value(line) {
        Some((key, value)) => {
            assert(line_numbers_fit(line@) == field_numbers_fit(key@, value@));
            proof {
                lemma_counted_keys_not_quality();
            }
            let counted = chars_eq_str(&key, "Item Level") || chars_eq_str(&key, "Level")
                || chars_eq_str(&key, "Str") || chars_eq_str(&key, "Dex") || chars_eq_str(
                &key,
                "Int",
            );
            if counted {
                atoi_checked(&value).is_some()
            } else if chars_eq_str(&key, "Quality") {
                let stripped = strip_plus_chars(&value);
                atoi_checked(&stripped).is_some()
            } else {
                true
            }
        },
        None => true,
    }
}

/// `atoi_value(s)` as an `i64`, for a value known to fit.
fn atoi_fitting(s: &Vec<char>) -> (r: i64)
    requires
        atoi_value(s@) <= u32::MAX,
    ensures
        r == atoi_value(s@),
{
    match atoi_checked(s) {
        Some(n) => n as i64,
        None => {
            assert(false);
            0
        },
    }
}

/// Whether `r` holds the groups of [`affix_parts`] of `line`: the affix,
/// and the note when there is one.
pub open spec fn captured_as_affix_parts(
    line: Seq<char>,
    r: Option<(Option<String>, Option<String>)>,
) -> bool {
    match r {
        Some((Some(a), note)) => a@ == affix_parts(line).0 && option_view(note) == affix_parts(
            line,
        ).1,
        _ => false,
    }
}

/// `regex::Regex::captures` with the pattern
/// `^(?<affix>.+?)( \((?<special>[^\)]+)\))?$`, giving the groups `affix`
/// and `special`. The claim: on a non-empty line without `'\n'` the pattern
/// always matches; `affix` is the shortest non-empty prefix after which the
/// rest of the line is either empty or `" (note)"` with a non-empty note
/// free of `')'`, and `special` is that note.
#[verifier::external_body]
fn capture_affix(line: &str) -> (r: Option<(Option<String>, Option<String>)>)
    requires
        line@.len() > 0,
        !line@.contains('\n'),
    ensures
        captured_as_affix_parts(line@, r),
{
    let re = Regex::new(r"^(?<affix>.+?)( \((?<special>[^\)]+)\))?$").unwrap();
    re.captures(line).map(
        |c| (c.name("affix").map(|m| m.as_str().to_owned()), c.name("special").map(|m| m.as_str().to_owned())),
    )
}

impl Default for Item {
    fn default() -> (r: Self)
        ensures
            r@ == initial_item(),
    {
        let r = Item {
            level: -1,
            class: None,
            name: None,
            base: None,
            rarity: Rarity::Unknown,
            requirements: Default::default(),
            affixes: Vec::new(),
            special_affixes: Vec::new(),
            corrupted: false,
            socket_count: 0,
            quality: 0,
        };
        assert(r@.affixes =~= Seq::<Seq<char>>::empty());
        assert(r@.special_affixes =~= Seq::<(Seq<char>, Seq<char>)>::empty());
        r
    }
}

impl Item {
    /// An item with nothing read yet: level -1, unknown rarity, no strings,
    /// no affixes, not corrupted, no sockets, quality 0.
    pub fn new() -> (r: Self)
        ensures
            r@ == initial_item(),
    {
        Default::default()
    }

    /// The item level (-1 until it is read).
    pub fn level(&self) -> (r: i64)
        ensures
            r == self@.level,
    {
        self.level
    }

    /// The item class, if read.
    pub fn class(&self) -> (r: &Option<String>)
        ensures
            option_view(*r) == self@.class,
    {
        &self.class
    }

    /// The rarity.
    pub fn rarity(&self) -> (r: Rarity)
        ensures
            r == self@.rarity,
    {
        self.rarity
    }

    /// The base type, if read.
    pub fn base(&self) -> (r: &Option<String>)
        ensures
            option_view(*r) == self@.base,
    {
        &self.base
    }

    /// The name, if read.
    pub fn name(&self) -> (r: &Option<String>)
        ensures
            option_view(*r) == self@.name,
    {
        &self.name
    }

    /// The attribute requirements.
    pub fn requirements(&self) -> (r: Requirements)
        ensures
            r == self@.requirements,
    {
        self.requirements
    }

    /// The affixes without a note, in the order read.
    pub fn affixes(&self) -> (r: &Vec<String>)
        ensures
            strings_view(r@) == self@.affixes,
    {
        &self.affixes
    }

    /// The affixes with a note, as `(note, affix)`, in the order read.
    pub fn special_affixes(&self) -> (r: &Vec<(String, String)>)
        ensures
            string_pairs_view(r@) == self@.special_affixes,
    {
        &self.special_affixes
    }

    /// Whether the item is corrupted.
    pub fn corrupted(&self) -> (r: bool)
        ensures
            r == self@.corrupted,
    {
        self.corrupted
    }

    /// The number of sockets.
    pub fn socket_count(&self) -> (r: i64)
        ensures
            r == self@.socket_count,
    {
        self.socket_count
    }

    /// The quality of the item, in percent.
    pub fn quality(&self) -> (r: i64)
        ensures
            r == self@.quality,
    {
        self.quality
    }

    fn set_field(&mut self, key: &Vec<char>, value: &Vec<char>)
        requires
            field_numbers_fit(key@, value@),
        ensures
            final(self)@ == apply_field(old(self)@, key@, value@),
    {
        if chars_eq_str(key, "Rarity") {
            self.rarity = Rarity::from_chars(value);
        } else if chars_eq_str(key, "Sockets") {
            self.socket_count = count_char_in(value, 'S') as i64;
        } else if chars_eq_str(key, "Item Class") {
            self.class = Some(string_from_chars(value));
        } else if chars_eq_str(key, "Item Level") {
            self.level = atoi_fitting(value);
        } else if chars_eq_str(key, "Quality") {
            let stripped = strip_plus_chars(value);
            self.quality = atoi_fitting(&stripped);
        } else if chars_eq_str(key, "Level") {
            self.requirements.level = atoi_fitting(value);
        } else if chars_eq_str(key, "Str") {
            self.requirements.str = atoi_fitting(value);
        } else if chars_eq_str(key, "Dex") {
            self.requirements.dex = atoi_fitting(value);
        } else if chars_eq_str(key, "Int") {
            self.requirements.int = atoi_fitting(value);
        }
    }

    fn add_affix_line(&mut self, line: &Vec<char>)
        requires
            line@.len() > 0,
            !line@.contains('\n'),
        ensures
            final(self)@ == add_affix(old(self)@, line@),
    {
        let text = string_from_chars(line);
        let captured = capture_affix(text.as_str());
        match captured {
            Some((affix, special)) => match (affix, special) {
                (Some(affix), Some(special)) => {
                    let ghost before = self.special_affixes@;
                    let ghost pair = (special@, affix@);
                    self.special_affixes.push((special, affix));
                    assert(string_pairs_view(self.special_affixes@) =~= string_pairs_view(
                        before,
                    ).push(pair));
                },
                _ => {
                    let ghost before = self.affixes@;
                    self.affixes.push(string_from_chars(line));
                    assert(strings_view(self.affixes@) =~= strings_view(before).push(line@));
                },
            },
            None => {},
        }
    }

    fn read_line(&mut self, line: &Vec<char>)
        requires
            line_numbers_fit(line@),
            !line@.contains('\n'),
        ensures
            final(self)@ == parse_line(old(self)@, line@),
    {
        if chars_eq_str(line, "--------") {
            return ;
        }
        match split_key_value(line) {
            Some((key, value)) => {
                self.set_field(&key, &value);
            },
            None => {
                if self.level == -1 && line.len() > 0 && !chars_contain(line, ':') {
                    if self.name.is_some() {
                        self.base = Some(string_from_chars(line));
                    } else {
                        self.name = Some(string_from_chars(line));
                    }
                } else if self.level > -1 && line.len() > 0 {
                    if chars_eq_str(line, "Corrupted") {
                        self.corrupted = true;
                    } else {
                        self.add_affix_line(line);
                    }
                }
            },
        }
    }
}


// ---------------------------------------------------------------------
// Whole texts
// ---------------------------------------------------------------------

proof fn lemma_split_lines_nonempty(s: Seq<char>)
    ensures
        split_lines(s).len() >= 1,
    decreases s.len(),
{
    if s.len() > 0 {
        lemma_split_lines_nonempty(s.drop_last());
    }
}

/// Reading more of a text keeps every line of the part read so far but the
/// last one, which may still grow.
proof fn lemma_split_lines_prefix(s: Seq<char>, a: int, b: int)
    requires
        0 <= a <= b <= s.len(),
    ensures
        split_lines(s.take(a)).len() <= split_lines(s.take(b)).len(),
        forall|k: int|
            0 <= k < split_lines(s.take(a)).len() - 1 ==> #[trigger] split_lines(s.take(b))[k]
                == split_lines(s.take(a))[k],
    decreases b - a,
{
    if a < b {
        lemma_split_lines_prefix(s, a, b - 1);
        lemma_split_lines_nonempty(s.take(b - 1));
        assert(s.take(b).drop_last() =~= s.take(b - 1));
    }
}

/// Reading lines in two parts reads the second part from the item that the
/// first part gives.
pub proof fn lemma_parse_lines_append(item: ItemView, a: Seq<Seq<char>>, b: Seq<Seq<char>>)
    ensures
        parse_lines(item, a + b) == parse_lines(parse_lines(item, a), b),
    decreases b.len(),
{
    if b.len() == 0 {
        assert(a + b =~= a);
    } else {
        lemma_parse_lines_append(item, a, b.drop_last());
        assert((a + b).drop_last() =~= a + b.drop_last());
        assert((a + b).last() == b.last());
    }
}

/// The lines of two texts joined by a line break are the lines of the one
/// followed by the lines of the other.
pub proof fn lemma_split_lines_concat(x: Seq<char>, y: Seq<char>)
    ensures
        split_lines(x + seq!['\n'] + y) == split_lines(x) + split_lines(y),
    decreases y.len(),
{
    if y.len() == 0 {
        assert(x + seq!['\n'] + y =~= x.push('\n'));
        assert(x.push('\n').drop_last() =~= x);
        assert(split_lines(y) =~= seq![Seq::<char>::empty()]);
        assert(split_lines(x).push(Seq::empty()) =~= split_lines(x) + split_lines(y));
    } else {
        let z = x + seq!['\n'] + y;
        lemma_split_lines_concat(x, y.drop_last());
        lemma_split_lines_nonempty(y.drop_last());
        assert(z.drop_last() =~= x + seq!['\n'] + y.drop_last());
        assert(z.last() == y.last());
        let a = split_lines(x);
        let b = split_lines(y.drop_last());
        if y.last() == '\n' {
            assert((a + b).push(Seq::empty()) =~= a + b.push(Seq::empty()));
        } else {
            assert((a + b).update((a + b).len() - 1, (a + b).last().push(y.last())) =~= a
                + b.update(b.len() - 1, b.last().push(y.last())));
        }
    }
}

/// A text made of two texts joined by a line break is read as the first
/// text, then the lines of the second.
pub proof fn lemma_parse_item_concat(x: Seq<char>, y: Seq<char>)
    ensures
        parse_item(x + seq!['\n'] + y) == parse_lines(parse_item(x), split_lines(y)),
{
    lemma_split_lines_concat(x, y);
    lemma_parse_lines_append(initial_item(), split_lines(x), split_lines(y));
}

/// Separator lines `--------` change nothing: inserting one anywhere in
/// the lines gives the same item.
pub proof fn lemma_separator_ignored(item: ItemView, a: Seq<Seq<char>>, b: Seq<Seq<char>>)
    ensures
        parse_lines(item, a + seq!["--------"@] + b) == parse_lines(item, a + b),
{
    lemma_parse_lines_append(item, a + seq!["--------"@], b);
    lemma_parse_lines_append(item, a, seq!["--------"@]);
    lemma_parse_lines_append(item, a, b);
    let s: Seq<Seq<char>> = seq!["--------"@];
    assert(s.drop_last() =~= Seq::<Seq<char>>::empty());
    assert(parse_lines(parse_lines(item, a), s) == parse_line(parse_lines(parse_lines(item, a), Seq::empty()), s.last()));
}

/// Once the item level is read, no line changes the name or the base of
/// the item, and the level stays read.
pub proof fn lemma_name_fixed_after_level(item: ItemView, line: Seq<char>)
    requires
        item.level >= 0,
        line_numbers_fit(line),
    ensures
        parse_line(item, line).name == item.name,
        parse_line(item, line).base == item.base,
        parse_line(item, line).level >= 0,
{
}

/// An affix line with a note is the affix, `" ("`, the note and `")"`.
pub proof fn lemma_note_reassembles(line: Seq<char>)
    ensures
        affix_parts(line).1 matches Some(note) ==> affix_parts(line).0 + " ("@ + note + ")"@
            == line,
{
    lemma_first_note_from(line, 1);
    if let Some(note) = affix_parts(line).1 {
        let p = first_note_from(line, 1).unwrap();
        reveal_strlit(" (");
        reveal_strlit(")");
        assert(line.take(p) + " ("@ + note + ")"@ =~= line);
    }
}

proof fn lemma_first_note_from(line: Seq<char>, p: int)
    ensures
        first_note_from(line, p) matches Some(q) ==> note_starts_at(line, q),
    decreases line.len() - p,
{
    if p >= 1 && p < line.len() && !note_starts_at(line, p) {
        lemma_first_note_from(line, p + 1);
    }
}

/// Reading lines only adds affixes: the affixes and special affixes read
/// so far stay, in order, at the front.
pub proof fn lemma_affixes_grow(item: ItemView, lines: Seq<Seq<char>>)
    ensures
        item.affixes.len() <= parse_lines(item, lines).affixes.len(),
        parse_lines(item, lines).affixes.take(item.affixes.len() as int) == item.affixes,
        item.special_affixes.len() <= parse_lines(item, lines).special_affixes.len(),
        parse_lines(item, lines).special_affixes.take(item.special_affixes.len() as int)
            == item.special_affixes,
    decreases lines.len(),
{
    if lines.len() == 0 {
        assert(item.affixes.take(item.affixes.len() as int) =~= item.affixes);
        assert(item.special_affixes.take(item.special_affixes.len() as int)
            =~= item.special_affixes);
    } else {
        lemma_affixes_grow(item, lines.drop_last());
        let before = parse_lines(item, lines.drop_last());
        let after = parse_line(before, lines.last());
        assert(after.affixes.take(item.affixes.len() as int) =~= item.affixes) by {
            if after.affixes != before.affixes {
                assert(after.affixes == before.affixes.push(lines.last()));
            }
        }
        assert(after.special_affixes.take(item.special_affixes.len() as int)
            =~= item.special_affixes) by {
            if after.special_affixes != before.special_affixes {
                assert(after.special_affixes.len() == before.special_affixes.len() + 1);
                assert(after.special_affixes.drop_last() == before.special_affixes);
            }
        }
    }
}


/// The lines of a sequence of lines that are not separators `--------`.
pub open spec fn without_separators(lines: Seq<Seq<char>>) -> Seq<Seq<char>>
    decreases lines.len(),
{
    if lines.len() == 0 {
        Seq::empty()
    } else {
        let before = without_separators(lines.drop_last());
        if lines.last() == "--------"@ {
            before
        } else {
            before.push(lines.last())
        }
    }
}

/// Lines joined into one text, with a `'\n'` between two lines.
pub open spec fn join_lines(lines: Seq<Seq<char>>) -> Seq<char>
    decreases lines.len(),
{
    if lines.len() == 0 {
        Seq::empty()
    } else if lines.len() == 1 {
        lines[0]
    } else {
        join_lines(lines.drop_last()) + seq!['\n'] + lines.last()
    }
}

/// Leaving the separator lines out of a sequence of lines reads the same
/// item.
pub proof fn lemma_parse_lines_without_separators(item: ItemView, lines: Seq<Seq<char>>)
    ensures
        parse_lines(item, lines) == parse_lines(item, without_separators(lines)),
    decreases lines.len(),
{
    if lines.len() > 0 {
        lemma_parse_lines_without_separators(item, lines.drop_last());
        let before = without_separators(lines.drop_last());
        if lines.last() != "--------"@ {
            assert(before.push(lines.last()).drop_last() =~= before);
        }
    }
}

/// A text without a line break is one line.
pub proof fn lemma_split_single_line(line: Seq<char>)
    requires
        !line.contains('\n'),
    ensures
        split_lines(line) == seq![line],
    decreases line.len(),
{
    if line.len() > 0 {
        let t = line.drop_last();
        assert(!t.contains('\n')) by {
            if t.contains('\n') {
                let i = choose|i: int| 0 <= i < t.len() && t[i] == '\n';
                assert(line[i] == '\n');
            }
        }
        lemma_split_single_line(t);
        assert(line.last() != '\n') by {
            assert(line[line.len() - 1] == line.last());
        }
        assert(t.push(line.last()) =~= line);
    } else {
        assert(line =~= Seq::<char>::empty());
    }
}

/// Joining lines that hold no line break and splitting the text again gives
/// the lines back.
pub proof fn lemma_split_join_lines(lines: Seq<Seq<char>>)
    requires
        lines.len() >= 1,
        forall|i: int| 0 <= i < lines.len() ==> !(#[trigger] lines[i]).contains('\n'),
    ensures
        split_lines(join_lines(lines)) == lines,
    decreases lines.len(),
{
    if lines.len() == 1 {
        lemma_split_single_line(lines[0]);
        assert(seq![lines[0]] =~= lines);
    } else {
        let init = lines.drop_last();
        assert forall|i: int| 0 <= i < init.len() implies !(#[trigger] init[i]).contains('\n') by {
            assert(init[i] == lines[i]);
        }
        lemma_split_join_lines(init);
        assert(!lines.last().contains('\n')) by {
            assert(lines[lines.len() - 1] == lines.last());
        }
        lemma_split_single_line(lines.last());
        lemma_split_lines_concat(join_lines(init), lines.last());
        assert(init + seq![lines.last()] =~= lines);
    }
}

/// Separator lines have no effect on a text: two texts whose lines are the
/// same once the separator lines `--------` are left out describe the same
/// item.
pub proof fn lemma_separator_lines_ignored(a: Seq<char>, b: Seq<char>)
    requires
        without_separators(split_lines(a)) == without_separators(split_lines(b)),
    ensures
        parse_item(a) == parse_item(b),
{
    lemma_parse_lines_without_separators(initial_item(), split_lines(a));
    lemma_parse_lines_without_separators(initial_item(), split_lines(b));
}

/// Separator lines have no effect on a text made of lines: inserting or
/// removing whole `--------` lines anywhere gives the same item.
pub proof fn lemma_separator_lines_ignored_in_joined_text(a: Seq<Seq<char>>, b: Seq<Seq<char>>)
    requires
        a.len() >= 1,
        b.len() >= 1,
        forall|i: int| 0 <= i < a.len() ==> !(#[trigger] a[i]).contains('\n'),
        forall|i: int| 0 <= i < b.len() ==> !(#[trigger] b[i]).contains('\n'),
        without_separators(a) == without_separators(b),
    ensures
        parse_item(join_lines(a)) == parse_item(join_lines(b)),
{
    lemma_split_join_lines(a);
    lemma_split_join_lines(b);
    lemma_separator_lines_ignored(join_lines(a), join_lines(b));
}

/// The decimal writing of `n`: its digits, most significant first, without
/// leading zeros (`"0"` for zero).
pub open spec fn decimal_text(n: nat) -> Seq<char>
    decreases n,
{
    if n < 10 {
        seq![(n + '0' as nat) as char]
    } else {
        decimal_text(n / 10).push(((n % 10) + '0' as nat) as char)
    }
}

pub proof fn lemma_decimal_text_digits(n: nat)
    ensures
        forall|i: int| 0 <= i < decimal_text(n).len() ==> is_ascii_digit(#[trigger] decimal_text(n)[i]),
        digits_value(decimal_text(n)) == n,
    decreases n,
{
    if n >= 10 {
        lemma_decimal_text_digits(n / 10);
        let t = decimal_text(n / 10);
        let c = ((n % 10) + '0' as nat) as char;
        assert(t.push(c).drop_last() =~= t);
        assert(forall|i: int| 0 <= i < t.len() ==> t.push(c)[i] == t[i]);
        assert(c as int == (n % 10) + '0' as int);
        assert(digit_value(c) == n % 10);
        assert((n / 10) * 10 + n % 10 == n);
        assert(t.push(c).last() == c);
    } else {
        let c = (n + '0' as nat) as char;
        assert(c as int == n + '0' as int);
        assert(seq![c].drop_last() =~= Seq::<char>::empty());
        assert(digits_value(Seq::<char>::empty()) == 0);
    }
}

/// Reading the leading digits undoes decimal writing: the digits of any
/// number read back as that number.
pub proof fn lemma_atoi_of_decimal_text(n: nat)
    ensures
        atoi_value(decimal_text(n)) == n,
{
    lemma_decimal_text_digits(n);
    let t = decimal_text(n);
    lemma_leading_digits_exact(t, t.len() as int);
    assert(t.take(t.len() as int) =~= t);
}

impl Item {
    /// Reads the lines of `chars`; `None` when one of them gives a number
    /// that does not fit.
    fn parse_chars(chars: &Vec<char>) -> (r: Option<Item>)
        ensures
            r is Some <==> text_numbers_fit(chars@),
            r matches Some(item) ==> item@ == parse_item(chars@),
    {
        let mut item = Item::new();
        let mut line: Vec<char> = Vec::new();
        let ghost mut done: Seq<Seq<char>> = Seq::empty();
        let mut i: usize = 0;
        assert(chars@.take(0) =~= Seq::<char>::empty());
        assert(split_lines(chars@.take(0)) =~= done.push(line@));
        while i < chars.len()
            invariant
                i <= chars@.len(),
                split_lines(chars@.take(i as int)) == done.push(line@),
                item@ == parse_lines(initial_item(), done),
                !line@.contains('\n'),
                forall|k: int| 0 <= k < done.len() ==> line_numbers_fit(#[trigger] done[k]),
            decreases chars@.len() - i,
        {
            let c = chars[i];
            assert(chars@.take(i + 1).drop_last() =~= chars@.take(i as int));
            if c == '\n' {
                proof {
                    lemma_split_lines_prefix(chars@, i + 1, chars@.len() as int);
                    assert(chars@.take(chars@.len() as int) =~= chars@);
                    assert(split_lines(chars@.take(i + 1)) == done.push(line@).push(Seq::empty()));
                    assert(split_lines(chars@.take(i + 1))[done.len() as int] == line@);
                }
                if !line_fits(&line) {
                    proof {
                        let k = done.len() as int;
                        assert(split_lines(chars@)[k] == line@);
                        assert(!line_numbers_fit(split_lines(chars@)[k]));
                    }
                    return None;
                }
                item.read_line(&line);
                proof {
                    assert(done.push(line@).drop_last() =~= done);
                    done = done.push(line@);
                }
                line = Vec::new();
                assert(split_lines(chars@.take(i + 1)) =~= done.push(line@));
            } else {
                let ghost old_line = line@;
                line.push(c);
                proof {
                    assert(split_lines(chars@.take(i + 1)) =~= done.push(line@));
                    assert forall|j: int| 0 <= j < line@.len() implies line@[j] != '\n' by {
                        if j < old_line.len() {
                            assert(line@[j] == old_line[j]);
                        }
                    }
                }
            }
            i += 1;
        }
        assert(chars@.take(i as int) =~= chars@);
        if !line_fits(&line) {
            proof {
                let k = done.len() as int;
                assert(split_lines(chars@)[k] == line@);
            }
            return None;
        }
        item.read_line(&line);
        proof {
            assert(done.push(line@).drop_last() =~= done);
            assert forall|k: int| 0 <= k < split_lines(chars@).len() implies line_numbers_fit(
                #[trigger] split_lines(chars@)[k],
            ) by {
                if k < done.len() {
                    assert(split_lines(chars@)[k] == done[k]);
                }
            }
        }
        Some(item)
    }

    /// The lines of the text `s` that are read, in order: every line but the
    /// separators `--------`.
    pub fn read_lines(s: &String) -> (r: Vec<String>)
        ensures
            strings_view(r@) == without_separators(split_lines(s@)),
    {
        let chars = chars_of(s.as_str());
        let mut out: Vec<String> = Vec::new();
        let mut line: Vec<char> = Vec::new();
        let ghost mut done: Seq<Seq<char>> = Seq::empty();
        let mut i: usize = 0;
        assert(chars@.take(0) =~= Seq::<char>::empty());
        assert(split_lines(chars@.take(0)) =~= done.push(line@));
        assert(strings_view(out@) =~= without_separators(done));
        while i < chars.len()
            invariant
                i <= chars@.len(),
                split_lines(chars@.take(i as int)) == done.push(line@),
                strings_view(out@) == without_separators(done),
            decreases chars@.len() - i,
        {
            let c = chars[i];
            assert(chars@.take(i + 1).drop_last() =~= chars@.take(i as int));
            if c == '\n' {
                let ghost before = out@;
                if !chars_eq_str(&line, "--------") {
                    out.push(string_from_chars(&line));
                    assert(strings_view(out@) =~= strings_view(before).push(line@));
                }
                proof {
                    assert(done.push(line@).drop_last() =~= done);
                    done = done.push(line@);
                }
                line = Vec::new();
                assert(split_lines(chars@.take(i + 1)) =~= done.push(line@));
            } else {
                line.push(c);
                assert(split_lines(chars@.take(i + 1)) =~= done.push(line@));
            }
            i += 1;
        }
        assert(chars@.take(i as int) =~= chars@);
        let ghost before = out@;
        if !chars_eq_str(&line, "--------") {
            out.push(string_from_chars(&line));
            assert(strings_view(out@) =~= strings_view(before).push(line@));
        }
        assert(done.push(line@).drop_last() =~= done);
        out
    }

    /// Reads an item from its text.
    ///
    /// The text is read line by line (lines end at `'\n'`); lines that are
    /// exactly `--------` are skipped. A line `Key: value` sets the field
    /// that `Key` names (`Rarity`, `Sockets`, `Item Class`, `Item Level`,
    /// `Quality`, `Level`, `Str`, `Dex`, `Int`; others are ignored). Before
    /// the item level is known, a line without `':'` is the name, and any
    /// further such line the base. After it, `Corrupted` marks the item and
    /// every other non-empty line is an affix.
    pub fn new_from_string(s: &String) -> (r: Result<Self, String>)
        requires
            text_numbers_fit(s@),
        ensures
            r matches Ok(item) && item@ == parse_item(s@),
    {
        let chars = chars_of(s.as_str());
        match Self::parse_chars(&chars) {
            Some(item) => Ok(item),
            None => {
                assert(false);
                Ok(Item::new())
            },
        }
    }
}


/// Verus asks for this impl beside a `TryFrom` written by hand. The
/// conversion's result is stated by the `ensures` of `try_from` itself, over
/// the item's view: an `Item` holds `String`s and `Vec`s, which a spec
/// function cannot build from the text, so the spec-level result is left
/// open and `obeys_try_from_spec` is false.
impl vstd::std_specs::convert::TryFromSpecImpl<String> for Item {
    open spec fn obeys_try_from_spec() -> bool {
        false
    }

    open spec fn try_from_spec(v: String) -> Result<Self, String> {
        arbitrary()
    }
}

impl TryFrom<String> for Item {
    type Error = String;

    /// Reads an item from its text, as [`Item::new_from_string`] does; the
    /// text is refused when one of its numbers does not fit in a `u32`.
    fn try_from(value: String) -> (r: Result<Self, Self::Error>)
        ensures
            text_numbers_fit(value@) ==> (r matches Ok(item) && item@ == parse_item(value@)),
            !text_numbers_fit(value@) ==> r is Err,
    {
        let chars = chars_of(value.as_str());
        match Self::parse_chars(&chars) {
            Some(item) => Ok(item),
            None => Err(string_from_chars(&chars_of("a number in the item text is too large"))),
        }
    }
}


// ---------------------------------------------------------------------
// What a `Key: value` line sets
// ---------------------------------------------------------------------

/// Whether `s` holds the separator `": "` at position `i`.
pub open spec fn separator_at(s: Seq<char>, i: int) -> bool {
    0 <= i && i + 1 < s.len() && s[i] == ':' && s[i + 1] == ' '
}

/// Whether `s` holds the separator `": "`.
pub open spec fn has_separator(s: Seq<char>) -> bool {
    exists|i: int| #[trigger] separator_at(s, i)
}

proof fn lemma_find_sep_at(line: Seq<char>, from: int, p: int)
    requires
        0 <= from <= p,
        p + 1 < line.len(),
        line[p] == ':' && line[p + 1] == ' ',
        forall|i: int| from <= i < p ==> !#[trigger] separator_at(line, i),
    ensures
        find_sep(line, from) == Some(p),
    decreases p - from,
{
    if from < p {
        assert(!separator_at(line, from));
        lemma_find_sep_at(line, from + 1, p);
    }
}

proof fn lemma_find_sep_none(line: Seq<char>, from: int)
    requires
        0 <= from,
        forall|i: int| from <= i ==> !#[trigger] separator_at(line, i),
    ensures
        find_sep(line, from) is None,
    decreases line.len() - from,
{
    if from + 1 < line.len() {
        assert(!separator_at(line, from));
        lemma_find_sep_none(line, from + 1);
    }
}

/// A line `key: value`, where neither part holds `": "` and the key does
/// not start with `'-'`, sets the field `key` to `value`.
proof fn lemma_field_line(item: ItemView, key: Seq<char>, value: Seq<char>)
    requires
        key.len() > 0,
        key[0] != '-',
        !has_separator(key),
        !has_separator(value),
    ensures
        parse_line(item, key + ": "@ + value) == apply_field(item, key, value),
{
    reveal_strlit(": ");
    reveal_strlit("--------");
    let line = key + ": "@ + value;
    let k = key.len() as int;
    assert(line[0] == key[0]);
    assert(line != "--------"@) by {
        assert("--------"@[0] == '-');
    }
    assert(line[k] == ':' && line[k + 1] == ' ');
    assert forall|i: int| 0 <= i < k implies !#[trigger] separator_at(line, i) by {
        if i + 1 < k {
            assert(line[i] == key[i] && line[i + 1] == key[i + 1]);
            assert(!separator_at(key, i));
        } else {
            assert(line[i + 1] == ':');
        }
    }
    lemma_find_sep_at(line, 0, k);
    assert forall|i: int| k + 2 <= i implies !#[trigger] separator_at(line, i) by {
        if i + 1 < line.len() {
            assert(line[i] == value[i - k - 2] && line[i + 1] == value[i + 1 - k - 2]);
        }
        assert(!separator_at(value, i - k - 2));
    }
    lemma_find_sep_none(line, k + 2);
    assert(line.take(k) =~= key);
    assert(line.subrange(k + 2, line.len() as int) =~= value);
}

proof fn lemma_no_separator_in_digits(n: nat)
    ensures
        !has_separator(decimal_text(n)),
        !has_separator(seq!['+'] + decimal_text(n)),
{
    lemma_decimal_text_digits(n);
    let t = decimal_text(n);
    if has_separator(t) {
        let i = choose|i: int| separator_at(t, i);
        assert(is_ascii_digit(t[i]));
    }
    let u = seq!['+'] + t;
    if has_separator(u) {
        let i = choose|i: int| separator_at(u, i);
        assert(u[i + 1] == t[i]);
        assert(is_ascii_digit(t[i]));
    }
}

/// The rarity line `Rarity: v`, for a value `v` without `": "`, sets the
/// rarity to the one `v` names (`Rare`, `Magic`, `Normal`, `Unique`), and to
/// `Unknown` for any other `v`; nothing else changes.
pub proof fn lemma_rarity_line(item: ItemView, v: Seq<char>)
    requires
        !has_separator(v),
    ensures
        parse_line(item, "Rarity: "@ + v) == (ItemView {
            rarity: if v == "Rare"@ {
                Rarity::Rare
            } else if v == "Magic"@ {
                Rarity::Magic
            } else if v == "Normal"@ {
                Rarity::Normal
            } else if v == "Unique"@ {
                Rarity::Unique
            } else {
                Rarity::Unknown
            },
            ..item
        }),
{
    reveal_strlit("Rarity");
    reveal_strlit("Rarity: ");
    reveal_strlit(": ");
    let key = "Rarity"@;
    assert(!has_separator(key)) by {
        if has_separator(key) {
            let i = choose|i: int| separator_at(key, i);
        }
    }
    lemma_field_line(item, key, v);
    assert("Rarity: "@ + v =~= key + ": "@ + v);
}

/// The number lines set their field to the number written after the key:
/// `Item Level: n` the item level, `Quality: +n` (or `Quality: n`) the
/// quality, and `Level: n`, `Str: n`, `Dex: n`, `Int: n` the requirement of
/// that name; nothing else changes.
pub proof fn lemma_number_lines(item: ItemView, n: nat)
    requires
        n <= u32::MAX,
    ensures
        parse_line(item, "Item Level: "@ + decimal_text(n)) == (ItemView { level: n as i64, ..item }),
        parse_line(item, "Quality: +"@ + decimal_text(n)) == (ItemView { quality: n as i64, ..item }),
        parse_line(item, "Quality: "@ + decimal_text(n)) == (ItemView { quality: n as i64, ..item }),
        parse_line(item, "Level: "@ + decimal_text(n)) == (ItemView {
            requirements: Requirements { level: n as i64, ..item.requirements },
            ..item
        }),
        parse_line(item, "Str: "@ + decimal_text(n)) == (ItemView {
            requirements: Requirements { str: n as i64, ..item.requirements },
            ..item
        }),
        parse_line(item, "Dex: "@ + decimal_text(n)) == (ItemView {
            requirements: Requirements { dex: n as i64, ..item.requirements },
            ..item
        }),
        parse_line(item, "Int: "@ + decimal_text(n)) == (ItemView {
            requirements: Requirements { int: n as i64, ..item.requirements },
            ..item
        }),
{
    reveal_strlit(": ");
    reveal_strlit("Item Level");
    reveal_strlit("Item Level: ");
    reveal_strlit("Quality");
    reveal_strlit("Quality: ");
    reveal_strlit("Quality: +");
    reveal_strlit("Level");
    reveal_strlit("Level: ");
    reveal_strlit("Str");
    reveal_strlit("Str: ");
    reveal_strlit("Dex");
    reveal_strlit("Dex: ");
    reveal_strlit("Int");
    reveal_strlit("Int: ");
    reveal_strlit("Rarity");
    reveal_strlit("Sockets");
    reveal_strlit("Item Class");
    let t = decimal_text(n);
    let pt = seq!['+'] + t;
    lemma_no_separator_in_digits(n);
    lemma_atoi_of_decimal_text(n);
    assert(strip_plus(pt) =~= t);
    assert(strip_plus(t) == t) by {
        lemma_decimal_text_digits(n);
        assert(is_ascii_digit(t[0]));
    }
    let keys = seq!["Item Level"@, "Quality"@, "Level"@, "Str"@, "Dex"@, "Int"@];
    assert forall|j: int| 0 <= j < keys.len() implies !has_separator(#[trigger] keys[j]) by {
        let key = keys[j];
        if has_separator(key) {
            let i = choose|i: int| separator_at(key, i);
        }
    }
    assert(!has_separator(keys[0]));
    assert(!has_separator(keys[1]));
    assert(!has_separator(keys[2]));
    assert(!has_separator(keys[3]));
    assert(!has_separator(keys[4]));
    assert(!has_separator(keys[5]));
    assert("Item Level"@ != "Item Class"@) by {
        assert("Item Level"@[5] != "Item Class"@[5]);
    }
    lemma_field_line(item, "Item Level"@, t);
    assert("Item Level: "@ + t =~= "Item Level"@ + ": "@ + t);
    lemma_field_line(item, "Quality"@, pt);
    assert("Quality: +"@ + t =~= "Quality"@ + ": "@ + pt);
    lemma_field_line(item, "Quality"@, t);
    assert("Quality: "@ + t =~= "Quality"@ + ": "@ + t);
    lemma_field_line(item, "Level"@, t);
    assert("Level: "@ + t =~= "Level"@ + ": "@ + t);
    lemma_field_line(item, "Str"@, t);
    assert("Str: "@ + t =~= "Str"@ + ": "@ + t);
    lemma_field_line(item, "Dex"@, t);
    assert("Dex: "@ + t =~= "Dex"@ + ": "@ + t);
    lemma_field_line(item, "Int"@, t);
    assert("Int: "@ + t =~= "Int"@ + ": "@ + t);
}

/// The line `Item Class: v`, for a value `v` without `": "`, sets the class
/// to `v`; nothing else changes.
pub proof fn lemma_class_line(item: ItemView, v: Seq<char>)
    requires
        !has_separator(v),
    ensures
        parse_line(item, "Item Class: "@ + v) == (ItemView { class: Some(v), ..item }),
{
    reveal_strlit("Item Class");
    reveal_strlit("Item Class: ");
    reveal_strlit(": ");
    reveal_strlit("Rarity");
    reveal_strlit("Sockets");
    let key = "Item Class"@;
    assert(!has_separator(key)) by {
        if has_separator(key) {
            let i = choose|i: int| separator_at(key, i);
        }
    }
    lemma_field_line(item, key, v);
    assert("Item Class: "@ + v =~= key + ": "@ + v);
}

proof fn lemma_count_char_filter(v: Seq<char>, c: char)
    ensures
        count_char(v, c) == v.filter(|x: char| x == c).len(),
    decreases v.len(),
{
    reveal(Seq::filter);
    if v.len() > 0 {
        lemma_count_char_filter(v.drop_last(), c);
    }
}

/// The line `Sockets: v`, for a value `v` without `": "`, sets the socket
/// count to the number of `'S'` in `v`; nothing else changes.
pub proof fn lemma_sockets_line(item: ItemView, v: Seq<char>)
    requires
        !has_separator(v),
    ensures
        parse_line(item, "Sockets: "@ + v) == (ItemView {
            socket_count: v.filter(|x: char| x == 'S').len() as i64,
            ..item
        }),
{
    reveal_strlit("Sockets");
    reveal_strlit("Sockets: ");
    reveal_strlit(": ");
    reveal_strlit("Rarity");
    let key = "Sockets"@;
    assert(!has_separator(key)) by {
        if has_separator(key) {
            let i = choose|i: int| separator_at(key, i);
        }
    }
    lemma_field_line(item, key, v);
    lemma_count_char_filter(v, 'S');
    assert("Sockets: "@ + v =~= key + ": "@ + v);
}

proof fn lemma_no_note(line: Seq<char>, p: int)
    requires
        !line.contains('('),
    ensures
        first_note_from(line, p) is None,
    decreases line.len() - p,
{
    if 1 <= p < line.len() {
        if note_starts_at(line, p) {
            assert(line[p + 1] == '(');
        }
        lemma_no_note(line, p + 1);
    }
}

/// A line without `':'` (and not a separator line) is the name while the
/// item has none and no item level yet, then the base; after the item level
/// it is `Corrupted`, which marks the item, or an affix, which is added
/// whole when it holds no `'('`.
pub proof fn lemma_plain_line(item: ItemView, line: Seq<char>)
    requires
        line.len() > 0,
        !line.contains(':'),
        line != "--------"@,
    ensures
        item.level == -1 && item.name is None ==> parse_line(item, line) == (ItemView {
            name: Some(line),
            ..item
        }),
        item.level == -1 && item.name is Some ==> parse_line(item, line) == (ItemView {
            base: Some(line),
            ..item
        }),
        item.level >= 0 && line == "Corrupted"@ ==> parse_line(item, line) == (ItemView {
            corrupted: true,
            ..item
        }),
        item.level >= 0 && line != "Corrupted"@ && !line.contains('(') ==> parse_line(item, line)
            == (ItemView { affixes: item.affixes.push(line), ..item }),
        item.level < -1 ==> parse_line(item, line) == item,
{
    assert forall|i: int| 0 <= i implies !#[trigger] separator_at(line, i) by {
        if separator_at(line, i) {
            assert(line.contains(':')) by {
                assert(line[i] == ':');
            }
        }
    }
    lemma_find_sep_none(line, 0);
    if !line.contains('(') {
        lemma_no_note(line, 1);
    }
}

} // verus!
