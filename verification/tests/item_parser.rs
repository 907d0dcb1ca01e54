use poe_items::item_parser::{permissive_atoi, Item, Rarity, Requirements};

fn sample_text() -> String {
    [
        "Item Class: Body Armours",
        "Rarity: Rare",
        "Doom Shell",
        "Astral Plate",
        "--------",
        "Quality: +20% (augmented)",
        "Armour: 711 (augmented)",
        "--------",
        "Requirements:",
        "Level: 62",
        "Str: 180",
        "Dex: 7",
        "Int: 0",
        "--------",
        "Sockets: S-S S",
        "--------",
        "Item Level: 84",
        "--------",
        "+12% to all Elemental Resistances (implicit)",
        "--------",
        "+90 to maximum Life",
        "+40% to Fire Resistance",
        "Corrupted",
    ]
    .join("\n")
}

#[test]
fn rarity_names() {
    assert_eq!(Rarity::from_str("Rare"), Rarity::Rare);
    assert_eq!(Rarity::from_str("Magic"), Rarity::Magic);
    assert_eq!(Rarity::from_str("Normal"), Rarity::Normal);
    assert_eq!(Rarity::from_str("Unique"), Rarity::Unique);
    assert_eq!(Rarity::from_str("rare"), Rarity::Unknown);
    assert_eq!(Rarity::from_str("Rare "), Rarity::Unknown);
    assert_eq!(Rarity::from_str(""), Rarity::Unknown);
}

#[test]
fn atoi_reads_leading_digits() {
    assert_eq!(permissive_atoi("123abc"), 123);
    assert_eq!(permissive_atoi("42"), 42);
    assert_eq!(permissive_atoi("abc"), 0);
    assert_eq!(permissive_atoi(""), 0);
    assert_eq!(permissive_atoi("007"), 7);
    assert_eq!(permissive_atoi("-5"), 0);
    assert_eq!(permissive_atoi("4294967295"), 4294967295);
    assert_eq!(permissive_atoi("12 34"), 12);
}

#[test]
fn new_item_is_empty() {
    let item = Item::new();
    assert_eq!(item.level, -1);
    assert_eq!(item.class, None);
    assert_eq!(item.name, None);
    assert_eq!(item.base, None);
    assert_eq!(item.rarity, Rarity::Unknown);
    assert_eq!(item.requirements, Requirements { level: 0, str: 0, dex: 0, int: 0 });
    assert!(item.affixes.is_empty());
    assert!(item.special_affixes.is_empty());
    assert!(!item.corrupted);
    assert_eq!(item.socket_count, 0);
    assert_eq!(item.quality(), 0);
}

#[test]
fn parses_a_full_item() {
    let item = Item::new_from_string(&sample_text()).unwrap();
    assert_eq!(item.class, Some("Body Armours".to_string()));
    assert_eq!(item.rarity, Rarity::Rare);
    assert_eq!(item.name, Some("Doom Shell".to_string()));
    assert_eq!(item.base, Some("Astral Plate".to_string()));
    assert_eq!(item.quality(), 20);
    assert_eq!(item.requirements, Requirements { level: 62, str: 180, dex: 7, int: 0 });
    assert_eq!(item.socket_count, 3);
    assert_eq!(item.level, 84);
    assert_eq!(
        item.special_affixes,
        vec![("implicit".to_string(), "+12% to all Elemental Resistances".to_string())]
    );
    assert_eq!(
        item.affixes,
        vec!["+90 to maximum Life".to_string(), "+40% to Fire Resistance".to_string()]
    );
    assert!(item.corrupted);
}

#[test]
fn value_is_text_up_to_the_next_separator() {
    let item = Item::new_from_string(&"Item Class: A: B".to_string()).unwrap();
    assert_eq!(item.class, Some("A".to_string()));
    let item = Item::new_from_string(&"Item Class: ".to_string()).unwrap();
    assert_eq!(item.class, Some("".to_string()));
}

#[test]
fn third_name_line_replaces_the_base() {
    let item = Item::new_from_string(&"One\nTwo\nThree".to_string()).unwrap();
    assert_eq!(item.name, Some("One".to_string()));
    assert_eq!(item.base, Some("Three".to_string()));
}

#[test]
fn lines_before_item_level_are_not_affixes() {
    let item = Item::new_from_string(&"Name\nBase\nsome text (x)\nCorrupted".to_string()).unwrap();
    assert!(item.affixes.is_empty());
    assert!(item.special_affixes.is_empty());
    assert!(!item.corrupted);
    assert_eq!(item.base, Some("Corrupted".to_string()));
}

#[test]
fn line_with_colon_is_not_a_name() {
    let item = Item::new_from_string(&"Requirements:\nName".to_string()).unwrap();
    assert_eq!(item.name, Some("Name".to_string()));
}

#[test]
fn affix_notes() {
    let text = "Item Level: 1\nA (b) (c)\nX ()\n(only)\nY (z)\n (w)\nplain";
    let item = Item::new_from_string(&text.to_string()).unwrap();
    assert_eq!(
        item.special_affixes,
        vec![
            ("c".to_string(), "A (b)".to_string()),
            ("z".to_string(), "Y".to_string()),
        ]
    );
    assert_eq!(
        item.affixes,
        vec!["X ()".to_string(), "(only)".to_string(), " (w)".to_string(), "plain".to_string()]
    );
}

#[test]
fn empty_and_separator_lines_are_skipped() {
    let item = Item::new_from_string(&"Item Level: 3\n\n--------\n\nfoo".to_string()).unwrap();
    assert_eq!(item.level, 3);
    assert_eq!(item.affixes, vec!["foo".to_string()]);
}

#[test]
fn carriage_returns_stay_in_values() {
    let item = Item::new_from_string(&"Rarity: Rare\r\nItem Level: 7\r".to_string()).unwrap();
    assert_eq!(item.rarity, Rarity::Unknown);
    assert_eq!(item.level, 7);
}

#[test]
fn empty_text_gives_a_new_item() {
    let item = Item::new_from_string(&String::new()).unwrap();
    assert_eq!(item.level, -1);
    assert_eq!(item.name, None);
}

#[test]
fn try_from_reads_the_item() {
    let item: Item = sample_text().try_into().unwrap();
    assert_eq!(item.level, 84);
    assert_eq!(item.name, Some("Doom Shell".to_string()));
}

#[test]
fn try_from_refuses_numbers_that_do_not_fit() {
    let r: Result<Item, String> = "Item Level: 4294967296".to_string().try_into();
    assert!(r.is_err());
    let r: Result<Item, String> = "Quality: +99999999999%".to_string().try_into();
    assert!(r.is_err());
    let r: Result<Item, String> = "Foo: 99999999999".to_string().try_into();
    assert!(r.is_ok());
}

#[test]
fn requirement_defaults() {
    let r = Requirements::default();
    assert_eq!(r, Requirements { level: 0, str: 0, dex: 0, int: 0 });
}

#[test]
fn separators_change_nothing() {
    let with = Item::new_from_string(&sample_text()).unwrap();
    let without_text: String = sample_text()
        .split('\n')
        .filter(|l| *l != "--------")
        .collect::<Vec<_>>()
        .join("\n");
    let without = Item::new_from_string(&without_text).unwrap();
    assert_eq!(format!("{:?}", with), format!("{:?}", without));
    let more = sample_text().replace("\n", "\n--------\n");
    let more = Item::new_from_string(&more).unwrap();
    assert_eq!(format!("{:?}", with), format!("{:?}", more));
}

#[test]
fn text_in_two_parts_reads_in_turn() {
    let first = "Item Class: Rings\nRarity: Magic\nName";
    let second = "Item Level: 12\n+5 to Strength";
    let whole = Item::new_from_string(&format!("{}\n{}", first, second)).unwrap();
    assert_eq!(whole.class, Some("Rings".to_string()));
    assert_eq!(whole.rarity, Rarity::Magic);
    assert_eq!(whole.name, Some("Name".to_string()));
    assert_eq!(whole.level, 12);
    assert_eq!(whole.affixes, vec!["+5 to Strength".to_string()]);
}

#[test]
fn name_and_base_are_fixed_after_item_level() {
    let item = Item::new_from_string(&"Name\nItem Level: 5\nOther\nMore".to_string()).unwrap();
    assert_eq!(item.name, Some("Name".to_string()));
    assert_eq!(item.base, None);
    assert_eq!(item.affixes, vec!["Other".to_string(), "More".to_string()]);
}

#[test]
fn special_affixes_reassemble_their_lines() {
    let lines = ["+1 to Level (crafted)", "A (b) (c)", "x (y z)"];
    let text = format!("Item Level: 1\n{}", lines.join("\n"));
    let item = Item::new_from_string(&text).unwrap();
    assert_eq!(item.special_affixes.len(), 3);
    for ((note, affix), line) in item.special_affixes.iter().zip(lines.iter()) {
        assert_eq!(format!("{} ({})", affix, note), *line);
    }
}
