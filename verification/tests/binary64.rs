use poe_items::binary64::binary64_bits_of;
use poe_items::decimal::Decimal;
use poe_items::lua_struct::{LuaKey, LuaStruct, LuaValue};
use poe_items::mod_lookup::ModStore;

fn expected_key(s: &str) -> i64 {
    let v: f64 = s.parse().unwrap();
    let b = v.abs().to_bits() as i64;
    if v.is_sign_negative() {
        -b
    } else {
        b
    }
}

fn check(s: &str) {
    assert_eq!(Decimal::parse(s).f64_key(), expected_key(s), "{}", s);
}

#[test]
fn keys_are_the_bits_of_the_parsed_double() {
    for s in [
        "0", "-0", "0.0", "1", "-1", "2", "0.1", "0.2", "0.3", "1.5", "-12.5", "85", "2.00000000000000001",
        "1.99999999999999999", "9007199254740992", "9007199254740993", "9007199254740995",
        "9007199254740994", "4503599627370496.5", "4503599627370497.5", "123456789012345678901234567890",
        "0.000001", "3.14159265358979323846264338327950288", "1000000", "99.99", "0.05",
    ] {
        check(s);
    }
}

#[test]
fn keys_at_the_ends_of_the_range() {
    let max = format!("{:.0}", f64::MAX);
    check(&max);
    let mut over = String::from("1");
    over.push_str(&"0".repeat(309));
    check(&over);
    assert_eq!(Decimal::parse(&over).f64_key(), 0x7FF0_0000_0000_0000);
    let mut tiny = String::from("0.");
    tiny.push_str(&"0".repeat(323));
    tiny.push_str("5");
    check(&tiny);
    let mut tinier = String::from("0.");
    tinier.push_str(&"0".repeat(324));
    tinier.push_str("1");
    check(&tinier);
    assert_eq!(Decimal::parse(&tinier).f64_key(), 0);
    let min_normal = format!("{:.330}", f64::MIN_POSITIVE);
    check(&min_normal);
    let below_half = format!("{:.340}", 2.4703282292062327e-324_f64);
    check(&below_half);
}

#[test]
fn keys_of_many_numbers() {
    let mut seed: u64 = 0x2545F4914F6CDD1D;
    for _ in 0..300 {
        seed ^= seed << 13;
        seed ^= seed >> 7;
        seed ^= seed << 17;
        let int_len = (seed % 25) as usize;
        let frac_len = ((seed >> 8) % 25) as usize;
        let mut s = String::new();
        if (seed >> 16) % 3 == 0 {
            s.push('-');
        }
        let mut x = seed;
        for i in 0..int_len.max(1) {
            x = x.wrapping_mul(6364136223846793005).wrapping_add(1442695040888963407);
            s.push(char::from(b'0' + ((x >> 33) % 10) as u8));
            if i == 0 && (seed >> 20) % 4 == 0 {
                s.push_str("0000000000000000000000");
            }
        }
        if frac_len > 0 {
            s.push('.');
            for _ in 0..frac_len {
                x = x.wrapping_mul(6364136223846793005).wrapping_add(1442695040888963407);
                s.push(char::from(b'0' + ((x >> 33) % 10) as u8));
            }
        }
        check(&s);
    }
}

#[test]
fn bits_of_digits_and_scale() {
    assert_eq!(binary64_bits_of(&vec![1], 0), 1.0f64.to_bits());
    assert_eq!(binary64_bits_of(&vec![2, 5], 1), 2.5f64.to_bits());
    assert_eq!(binary64_bits_of(&vec![], 3), 0);
    assert_eq!(binary64_bits_of(&vec![1], 1), 0.1f64.to_bits());
}

#[test]
fn lookup_compares_as_doubles() {
    let mut data = LuaStruct::new();
    data.insert_entry(LuaKey::Integer(1), LuaValue::String("+(1-2) to X".to_string()));
    let mut store = ModStore::new();
    store.insert(&"X5".to_string(), &data);
    let (tier, _) = store.find("+2.00000000000000001 to X").unwrap();
    assert_eq!(tier, 5);
    let (tier, _) = store.find("+2.0000000000000005 to X").unwrap();
    assert_eq!(tier, 0);
    let (tier, _) = store.find("+0.99999999999999999 to X").unwrap();
    assert_eq!(tier, 5);
}
