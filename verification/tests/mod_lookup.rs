use poe_items::decimal::Decimal;
use poe_items::lua_struct::{LuaKey, LuaStruct, LuaValue};
use poe_items::mod_lookup::{build_mod, parse_i64, value_range, AffixType, ModStore, NumberCapture};

fn chars(s: &str) -> Vec<char> {
    s.chars().collect()
}

fn same(a: &Decimal, b: &str) -> bool {
    let b = Decimal::parse(b);
    a.f64_key() == b.f64_key()
}

fn life_data() -> LuaStruct {
    let mut data = LuaStruct::new();
    data.insert_entry(LuaKey::String("level".to_string()), LuaValue::Integer(44));
    data.insert_entry(LuaKey::String("type".to_string()), LuaValue::String("Prefix".to_string()));
    data.insert_entry(LuaKey::String("tradeHash".to_string()), LuaValue::Integer(3299347043));
    data.insert_entry(LuaKey::Integer(1), LuaValue::String("+(80-89) to maximum Life".to_string()));
    data
}

#[test]
fn whole_numbers() {
    assert_eq!(parse_i64(&chars("3")), Some(3));
    assert_eq!(parse_i64(&chars("+3")), Some(3));
    assert_eq!(parse_i64(&chars("-12")), Some(-12));
    assert_eq!(parse_i64(&chars("9223372036854775807")), Some(i64::MAX));
    assert_eq!(parse_i64(&chars("-9223372036854775808")), Some(i64::MIN));
    assert_eq!(parse_i64(&chars("9223372036854775808")), None);
    assert_eq!(parse_i64(&chars("")), None);
    assert_eq!(parse_i64(&chars("-")), None);
    assert_eq!(parse_i64(&chars("1a")), None);
    assert_eq!(parse_i64(&chars(" 1")), None);
    for s in ["0", "42", "-7", "+0", "123456789012", "x", "--1", "+-1"] {
        assert_eq!(parse_i64(&chars(s)), s.parse::<i64>().ok(), "{}", s);
    }
}

#[test]
fn ranges_from_captures() {
    let r = value_range(&NumberCapture { min: Some("10".to_string()), max: Some("20".to_string()), plain: None });
    assert!(same(&r.min, "10") && same(&r.max, "20"));
    let r = value_range(&NumberCapture { min: None, max: None, plain: Some("7".to_string()) });
    assert!(same(&r.min, "7") && same(&r.max, "7"));
    let r = value_range(&NumberCapture { min: None, max: None, plain: None });
    assert!(same(&r.min, "0") && same(&r.max, "0"));
    let r = value_range(&NumberCapture { min: Some("1.5".to_string()), max: None, plain: Some("3".to_string()) });
    assert!(same(&r.min, "3") && same(&r.max, "3"));
}

#[test]
fn mods_from_parts() {
    let data = life_data();
    let parts = Some((Some("IncreasedLife".to_string()), Some("7".to_string())));
    let numbers = vec![NumberCapture { min: Some("80".to_string()), max: Some("89".to_string()), plain: None }];
    let m = build_mod(&parts, &data, &numbers);
    assert_eq!(m.ilvl, 44);
    assert_eq!(m.tier, 7);
    assert_eq!(m.mod_hash, 3299347043);
    assert_eq!(m.affix_type, AffixType::Prefix);
    assert_eq!(m.pob_name, "IncreasedLife");
    assert_eq!(m.values.len(), 1);
    assert!(same(&m.values[0].min, "80") && same(&m.values[0].max, "89"));

    let m = build_mod(&None, &LuaStruct::new(), &vec![]);
    assert_eq!(m.ilvl, 0);
    assert_eq!(m.tier, 0);
    assert_eq!(m.mod_hash, 0);
    assert_eq!(m.affix_type, AffixType::Unknown);
    assert_eq!(m.pob_name, "");
    assert!(m.values.is_empty());
}

#[test]
fn insert_then_find() {
    let mut store = ModStore::new();
    store.insert(&"IncreasedLife7".to_string(), &life_data());
    let mut data6 = life_data();
    data6.list.clear();
    data6.insert_entry(LuaKey::Integer(1), LuaValue::String("+(70-79) to maximum Life".to_string()));
    store.insert(&"IncreasedLife6".to_string(), &data6);

    let (tier, mods) = store.find("+85 to maximum Life").unwrap();
    assert_eq!(tier, 7);
    assert_eq!(mods.len(), 2);
    assert_eq!(mods[0].pob_name, "IncreasedLife");
    assert_eq!(mods[1].tier, 6);

    let (tier, _) = store.find("+79 to maximum Life").unwrap();
    assert_eq!(tier, 6);
    let (tier, _) = store.find("+80 to maximum Life").unwrap();
    assert_eq!(tier, 7);
    let (tier, mods) = store.find("+95 to maximum Life").unwrap();
    assert_eq!(tier, 0);
    assert_eq!(mods.len(), 2);
    assert!(store.find("+85 to maximum Mana").is_none());
}

#[test]
fn plain_numbers_and_decimals() {
    let mut data = LuaStruct::new();
    data.insert_entry(LuaKey::String("type".to_string()), LuaValue::String("Suffix".to_string()));
    data.insert_entry(LuaKey::Integer(1), LuaValue::String("(0.2-0.4)% of Damage Leeched, 5 times".to_string()));
    data.insert_entry(LuaKey::Integer(2), LuaValue::Boolean(true));
    let mut store = ModStore::new();
    store.insert(&"Leech2".to_string(), &data);
    let (tier, mods) = store.find("0.3% of Damage Leeched, 5 times").unwrap();
    assert_eq!(tier, 2);
    assert_eq!(mods[0].affix_type, AffixType::Suffix);
    assert_eq!(mods[0].values.len(), 2);
    let (tier, _) = store.find("0.45% of Damage Leeched, 5 times").unwrap();
    assert_eq!(tier, 0);
    let (tier, _) = store.find("0.3% of Damage Leeched, 6 times").unwrap();
    assert_eq!(tier, 0);
}

#[test]
fn name_without_tier() {
    let mut data = LuaStruct::new();
    data.insert_entry(LuaKey::Integer(1), LuaValue::String("Cannot be Frozen".to_string()));
    let mut store = ModStore::new();
    store.insert(&"X".to_string(), &data);
    let (tier, mods) = store.find("Cannot be Frozen").unwrap();
    assert_eq!(tier, 0);
    assert_eq!(mods[0].tier, 0);
    assert_eq!(mods[0].pob_name, "");
}

#[test]
fn name_ending_in_two_digits_has_a_two_digit_tier() {
    let mut data = LuaStruct::new();
    data.insert_entry(LuaKey::Integer(1), LuaValue::String("Hits can't be Evaded".to_string()));
    let mut store = ModStore::new();
    store.insert(&"Accuracy12".to_string(), &data);
    let (_, mods) = store.find("Hits can't be Evaded").unwrap();
    assert_eq!(mods[0].tier, 12);
    assert_eq!(mods[0].pob_name, "Accuracy");
}

#[test]
fn filing_keeps_what_was_filed() {
    let mut store = ModStore::new();
    store.insert(&"IncreasedLife7".to_string(), &life_data());
    let mut other = LuaStruct::new();
    other.insert_entry(LuaKey::Integer(1), LuaValue::String("+(5-9) to Strength".to_string()));
    other.insert_entry(LuaKey::Integer(2), LuaValue::String("+(50-59) to maximum Life".to_string()));
    store.insert(&"Mixed3".to_string(), &other);
    assert_eq!(
        store.templates(),
        vec!["+# to maximum Life".to_string(), "+# to Strength".to_string()]
    );
    let (tier, mods) = store.find("+82 to maximum Life").unwrap();
    assert_eq!(tier, 7);
    assert_eq!(mods[0].pob_name, "IncreasedLife");
    assert_eq!(mods[1].pob_name, "Mixed");
    let (tier, _) = store.find("+55 to maximum Life").unwrap();
    assert_eq!(tier, 3);
}

#[test]
fn tier_is_the_whole_trailing_number() {
    let mut data = LuaStruct::new();
    data.insert_entry(LuaKey::Integer(1), LuaValue::String("+(80-89) to maximum Life".to_string()));
    let mut store = ModStore::new();
    for name in ["IncreasedLife10", "Life2x007", "42", "A\n15", "\n7"] {
        store.insert(&name.to_string(), &data);
    }
    let (_, mods) = store.find("+85 to maximum Life").unwrap();
    let got: Vec<(i64, &str)> = mods.iter().map(|m| (m.tier, m.pob_name.as_str())).collect();
    assert_eq!(got, vec![(10, "IncreasedLife"), (7, "Life2x"), (2, "4"), (5, "1"), (0, "")]);
}
