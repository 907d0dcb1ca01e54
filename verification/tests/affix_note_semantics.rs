//! Holds the split of affix lines into affix and note, on every short line
//! over a small alphabet, to the split that the library states.

use poe_items::item_parser::Item;

fn note_starts_at(line: &[char], p: usize) -> bool {
    let n = line.len();
    p >= 1
        && p + 4 <= n
        && line[p] == ' '
        && line[p + 1] == '('
        && line[n - 1] == ')'
        && line[p + 2..n - 1].iter().all(|c| *c != ')')
}

fn affix_parts(line: &[char]) -> (String, Option<String>) {
    for p in 1..line.len() {
        if note_starts_at(line, p) {
            return (line[..p].iter().collect(), Some(line[p + 2..line.len() - 1].iter().collect()));
        }
    }
    (line.iter().collect(), None)
}

#[test]
fn affix_notes_on_short_lines() {
    let alphabet = [' ', '(', ')', 'a'];
    let mut layer = vec![String::new()];
    let mut lines = Vec::new();
    for _ in 0..6 {
        let mut next = Vec::new();
        for t in &layer {
            for c in alphabet {
                let mut u = t.clone();
                u.push(c);
                next.push(u);
            }
        }
        lines.extend(next.iter().cloned());
        layer = next;
    }
    for line in lines {
        if line == "Corrupted" {
            continue;
        }
        let text = format!("Item Level: 1\n{}", line);
        let item = Item::new_from_string(&text).unwrap();
        let chars: Vec<char> = line.chars().collect();
        match affix_parts(&chars) {
            (affix, Some(note)) => {
                assert_eq!(item.special_affixes, vec![(note, affix)], "{:?}", line);
                assert!(item.affixes.is_empty(), "{:?}", line);
            }
            (_, None) => {
                assert_eq!(item.affixes, vec![line.clone()], "{:?}", line);
                assert!(item.special_affixes.is_empty(), "{:?}", line);
            }
        }
    }
}
