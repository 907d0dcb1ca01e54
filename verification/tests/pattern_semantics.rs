//! Holds the number patterns of modifier texts and affix lines, on ASCII
//! text, to the scans that the library states for them.

use poe_items::decimal::Decimal;
use poe_items::lua_struct::{LuaKey, LuaStruct, LuaValue};
use poe_items::mod_lookup::ModStore;

fn digit_run(t: &[char], i: usize) -> usize {
    let mut n = 0;
    while i + n < t.len() && t[i + n].is_ascii_digit() {
        n += 1;
    }
    n
}

fn number_len_at(t: &[char], i: usize) -> usize {
    let sign = if i < t.len() && t[i] == '-' { 1 } else { 0 };
    let d = digit_run(t, i + sign);
    if d == 0 {
        return 0;
    }
    let e = i + sign + d;
    let f = if e < t.len() && t[e] == '.' { digit_run(t, e + 1) } else { 0 };
    sign + d + if f > 0 { 1 + f } else { 0 }
}

fn line_scan(t: &[char]) -> (String, Vec<String>) {
    let mut out = String::new();
    let mut nums = Vec::new();
    let mut i = 0;
    while i < t.len() {
        let l = number_len_at(t, i);
        if l > 0 {
            out.push('#');
            nums.push(t[i..i + l].iter().collect());
            i += l;
        } else {
            out.push(t[i]);
            i += 1;
        }
    }
    (out, nums)
}

fn range_at(a: &[char], i: usize) -> Option<(usize, String, String)> {
    let p = if i < a.len() && a[i] == '-' { i + 1 } else { i };
    if !(p < a.len() && a[p] == '(') {
        return None;
    }
    let m1 = number_len_at(a, p + 1);
    let q = p + 2 + m1;
    if m1 == 0 || q - 1 >= a.len() || a[q - 1] != '-' {
        return None;
    }
    let m2 = number_len_at(a, q);
    if m2 == 0 || q + m2 >= a.len() || a[q + m2] != ')' {
        return None;
    }
    Some((q + m2 + 1 - i, a[p + 1..p + 1 + m1].iter().collect(), a[q..q + m2].iter().collect()))
}

/// Template and, for each match, `(min, max)` or the plain number twice.
fn affix_scan(a: &[char]) -> (String, Vec<(String, String)>) {
    let mut out = String::new();
    let mut groups = Vec::new();
    let mut i = 0;
    while i < a.len() {
        if let Some((r, min, max)) = range_at(a, i) {
            out.push('#');
            groups.push((min, max));
            i += r;
        } else {
            let d = digit_run(a, i);
            if d > 0 {
                out.push('#');
                let n: String = a[i..i + d].iter().collect();
                groups.push((n.clone(), n));
                i += d;
            } else {
                out.push(a[i]);
                i += 1;
            }
        }
    }
    (out, groups)
}

fn pob_name_scan(s: &[char]) -> (String, i64) {
    let n = s.len();
    let mut p = n;
    while p > 0 && s[p - 1].is_ascii_digit() {
        p -= 1;
    }
    let start = s[..p].iter().rposition(|c| *c == '\n').map(|q| q + 1).unwrap_or(0);
    let tier_of = |t: &[char]| t.iter().collect::<String>().parse::<i64>().unwrap_or(0);
    if p == n {
        (String::new(), 0)
    } else if start < p {
        (s[start..p].iter().collect(), tier_of(&s[p..]))
    } else if p + 2 <= n {
        (s[p..p + 1].iter().collect(), tier_of(&s[p + 1..]))
    } else {
        (String::new(), 0)
    }
}

fn same(a: &Decimal, b: &str) -> bool {
    let b = Decimal::parse(b);
    a.f64_key() == b.f64_key()
}

fn all_texts(alphabet: &[char], max_len: usize) -> Vec<String> {
    let mut out = vec![String::new()];
    let mut layer = vec![String::new()];
    for _ in 0..max_len {
        let mut next = Vec::new();
        for t in &layer {
            for c in alphabet {
                let mut u = t.clone();
                u.push(*c);
                next.push(u);
            }
        }
        out.extend(next.iter().cloned());
        layer = next;
    }
    out
}

fn store_with(pob_name: &str, affix: &str) -> ModStore {
    let mut data = LuaStruct::new();
    data.insert_entry(LuaKey::Integer(1), LuaValue::String(affix.to_string()));
    let mut store = ModStore::new();
    store.insert(&pob_name.to_string(), &data);
    store
}

#[test]
fn modifier_number_pattern_on_ascii() {
    let alphabet = ['1', '2', '-', '.', '(', ')', 'x'];
    let mut texts = all_texts(&alphabet, 3);
    for t in ["x(1-2)x", "-(1.1-2)", "(-1--2)", "(1.-2)", "(12-2.1)2", "((1-2))", "1.2(1-1)", "(1-2x)", "-(1-2)-12"] {
        texts.push(t.to_string());
    }
    for affix in texts {
        let chars: Vec<char> = affix.chars().collect();
        let (template, groups) = affix_scan(&chars);
        let store = store_with("Name1", &affix);
        assert_eq!(store.templates(), vec![template.clone()], "{:?}", affix);
        let (_, mods) = store.find(&template).expect("filed template");
        let m = &mods[0];
        assert_eq!(m.values.len(), groups.len(), "{:?}", affix);
        for (range, (min, max)) in m.values.iter().zip(groups.iter()) {
            assert!(same(&range.min, min) && same(&range.max, max), "{:?}", affix);
        }
    }
}

#[test]
fn modifier_name_pattern_on_ascii() {
    let alphabet = ['a', '1', '2', '\n', ' '];
    let mut texts = all_texts(&alphabet, 3);
    for t in ["Life12", "a\n1", "a\n\n1", "a1\n2", "ab\nc3", "\n12", "1234", "x99999999999999999999", "a\n007"] {
        texts.push(t.to_string());
    }
    for name in texts {
        let chars: Vec<char> = name.chars().collect();
        let (expected_name, expected_tier) = pob_name_scan(&chars);
        let store = store_with(&name, "Text");
        let (_, mods) = store.find("Text").unwrap();
        assert_eq!(mods[0].pob_name, expected_name, "{:?}", name);
        assert_eq!(mods[0].tier, expected_tier, "{:?}", name);
    }
}

#[test]
fn affix_line_pattern_on_ascii() {
    let alphabet = ['1', '2', '-', '.', 'x', ' '];
    let mut texts = all_texts(&alphabet, 3);
    for t in ["x-1.5 2", "--12", "1.2.3", "1..2", "-.5", "12-3", "a 1.0 b -2 c"] {
        texts.push(t.to_string());
    }
    for line in texts {
        let chars: Vec<char> = line.chars().collect();
        let (template, numbers) = line_scan(&chars);
        let mut pieces = template.split('#');
        let mut affix = pieces.next().unwrap().to_string();
        for (n, piece) in numbers.iter().zip(pieces) {
            affix.push_str(&format!("({}-{})", n, n));
            affix.push_str(piece);
        }
        let affix_chars: Vec<char> = affix.chars().collect();
        if affix_scan(&affix_chars).0 != template {
            continue;
        }
        let store = store_with("Name7", &affix);
        let (tier, mods) = store.find(&line).expect("template of the line is filed");
        assert_eq!(tier, 7, "{:?} {:?}", line, affix);
        assert_eq!(mods.len(), 1);
        let other = format!("{}z", line);
        assert!(store.find(&other).is_none(), "{:?}", other);
    }
}

#[test]
fn non_ascii_digits_read_as_zero() {
    let store = store_with("Name1", "+(\u{0661}-\u{0662}) to Life");
    let (_, mods) = store.find("+0 to Life").unwrap();
    assert!(same(&mods[0].values[0].min, "0") && same(&mods[0].values[0].max, "0"));
}

#[test]
fn unicode_names_and_digits() {
    let tier_and_name = |pob_name: &str| {
        let store = store_with(pob_name, "Text");
        let (_, mods) = store.find("Text").unwrap();
        (mods[0].tier, mods[0].pob_name.clone())
    };
    assert_eq!(tier_and_name("Flät"), (0, String::new()));
    assert_eq!(tier_and_name("Lifé12"), (12, "Lifé".to_string()));
    assert_eq!(tier_and_name("Life\u{0661}\u{0662}"), (0, "Life".to_string()));
    assert_eq!(tier_and_name("Life4\u{0662}"), (0, "Life".to_string()));

    let store = store_with("Int9", "+25 to Intelligénce");
    let (tier, mods) = store.find("+25 to Intelligénce").unwrap();
    assert_eq!(tier, 9);
    assert_eq!(mods[0].pob_name, "Int");

    let store = store_with("A3", "+(1-2) x\u{0663}");
    assert_eq!(store.templates(), vec!["+# x#".to_string()]);
    let (tier, _) = store.find("+1 x0").unwrap();
    assert_eq!(tier, 3);
    let (tier, _) = store.find("+1 x\u{0663}").unwrap();
    assert_eq!(tier, 3);
    let (tier, _) = store.find("+1 x5").unwrap();
    assert_eq!(tier, 0);
}
