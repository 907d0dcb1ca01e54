use poe_items::item_parser::{permissive_atoi, Item, Rarity};
use poe_items::lua_struct::{LuaKey, LuaStruct, LuaValue};
use poe_items::mod_lookup::ModStore;

fn mod_total(store: &ModStore) -> usize {
    let mut n = 0;
    for t in store.templates() {
        let (_, mods) = store.find_with(&t, &vec![]).unwrap();
        n += mods.len();
    }
    n
}

#[test]
fn digit_reader_undoes_decimal_formatting() {
    for n in [0u32, 1, 7, 9, 10, 99, 100, 1234, 65535, 1_000_000, 4_294_967_294, u32::MAX] {
        assert_eq!(permissive_atoi(&n.to_string()), n as i64);
    }
}

#[test]
fn separator_lines_anywhere_are_ignored() {
    let plain = "Item Class: Rings\nRarity: Magic\nVivid Ring\nItem Level: 30\n+5 to Strength";
    let with = "--------\nItem Class: Rings\n--------\n--------\nRarity: Magic\nVivid Ring\n--------\nItem Level: 30\n+5 to Strength\n--------";
    let a = Item::new_from_string(&plain.to_string()).unwrap();
    let b = Item::new_from_string(&with.to_string()).unwrap();
    assert_eq!(format!("{:?}", a), format!("{:?}", b));
    assert_eq!(b.affixes, vec!["+5 to Strength".to_string()]);
}

#[test]
fn lines_read_skip_separators_only() {
    let text = "A\n--------\n\nB: c\n--------".to_string();
    assert_eq!(
        Item::read_lines(&text),
        vec!["A".to_string(), "".to_string(), "B: c".to_string()]
    );
    assert_eq!(Item::read_lines(&"".to_string()), vec!["".to_string()]);
    assert_eq!(Item::read_lines(&"--------".to_string()), Vec::<String>::new());
}

#[test]
fn getters_give_the_fields() {
    let text = "Item Class: Rings\nRarity: Rare\nStorm Loop\nRuby Ring\nSockets: S-S\nRequirements:\nLevel: 20\nItem Level: 40\n+10 to Strength\n+1 to Level (crafted)\nCorrupted";
    let item = Item::new_from_string(&text.to_string()).unwrap();
    assert_eq!(item.level(), 40);
    assert_eq!(*item.class(), Some("Rings".to_string()));
    assert_eq!(item.rarity(), Rarity::Rare);
    assert_eq!(*item.name(), Some("Storm Loop".to_string()));
    assert_eq!(*item.base(), Some("Ruby Ring".to_string()));
    assert_eq!(item.requirements().level, 20);
    assert_eq!(*item.affixes(), vec!["+10 to Strength".to_string()]);
    assert_eq!(
        *item.special_affixes(),
        vec![("crafted".to_string(), "+1 to Level".to_string())]
    );
    assert!(item.corrupted());
    assert_eq!(item.socket_count(), 2);
    assert_eq!(item.quality(), 0);
}

#[test]
fn filing_adds_one_mod_per_text() {
    let mut store = ModStore::new();
    assert_eq!(mod_total(&store), 0);
    let mut data = LuaStruct::new();
    data.insert_entry(LuaKey::Integer(1), LuaValue::String("+(5-9) to Strength".to_string()));
    data.insert_entry(LuaKey::Integer(2), LuaValue::Integer(3));
    data.insert_entry(LuaKey::Integer(3), LuaValue::String("+(10-14) to Dexterity".to_string()));
    data.insert_entry(LuaKey::String("level".to_string()), LuaValue::Integer(3));
    store.insert(&"Attr1".to_string(), &data);
    assert_eq!(mod_total(&store), 2);
    store.insert(&"Attr2".to_string(), &data);
    assert_eq!(mod_total(&store), 4);
    assert_eq!(
        store.templates(),
        vec!["+# to Strength".to_string(), "+# to Dexterity".to_string()]
    );
    let mut none = LuaStruct::new();
    none.insert_entry(LuaKey::Integer(1), LuaValue::Integer(3));
    store.insert(&"Attr3".to_string(), &none);
    assert_eq!(mod_total(&store), 4);
}

#[test]
fn find_after_filing_a_plain_text() {
    let mut store = ModStore::new();
    let mut low = LuaStruct::new();
    low.insert_entry(LuaKey::Integer(1), LuaValue::String("+(20-29) to Intelligence".to_string()));
    store.insert(&"Int4".to_string(), &low);
    let mut plain = LuaStruct::new();
    plain.insert_entry(LuaKey::Integer(1), LuaValue::String("+25 to Intelligence".to_string()));
    store.insert(&"Int9".to_string(), &plain);
    let (tier, mods) = store.find("+25 to Intelligence").unwrap();
    assert_eq!(tier, 4);
    assert_eq!(mods.len(), 2);
    assert_eq!(mods[1].tier, 9);
    let (tier, _) = store.find("+31 to Intelligence").unwrap();
    assert_eq!(tier, 0);

    let mut alone = ModStore::new();
    alone.insert(&"Int9".to_string(), &plain);
    let (tier, mods) = alone.find("+25 to Intelligence").unwrap();
    assert_eq!(tier, 9);
    assert_eq!(mods[0].pob_name, "Int");
}

#[test]
fn names_ending_in_a_letter_have_no_tier() {
    let mut data = LuaStruct::new();
    data.insert_entry(LuaKey::Integer(1), LuaValue::String("Cannot be Stunned".to_string()));
    let mut store = ModStore::new();
    store.insert(&"StunImmunityA".to_string(), &data);
    store.insert(&"9".to_string(), &data);
    let (_, mods) = store.find("Cannot be Stunned").unwrap();
    assert_eq!(mods[0].tier, 0);
    assert_eq!(mods[0].pob_name, "");
    assert_eq!(mods[1].tier, 0);
    assert_eq!(mods[1].pob_name, "");
}
