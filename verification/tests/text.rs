use crdt_sync::str_map::StrMap;
use crdt_sync::text::{parse_u16, split_at_commas, starts_with, strip_prefix, text_eq, text_less, trim};

#[test]
fn text_is_ordered_as_in_a_dictionary() {
    for (a, b) in [("", "a"), ("a", "b"), ("ab", "b"), ("a", "aa"), ("Z", "a"), ("z", "\u{e4}")] {
        assert!(text_less(a, b));
        assert!(!text_less(b, a));
        assert!(!text_less(a, a));
        assert!(!text_eq(a, b));
        assert!(text_eq(b, b));
        assert_eq!(a < b, text_less(a, b));
    }
}

#[test]
fn trim_takes_white_space_off_both_ends() {
    for s in [
        "", " ", "a", " a b ", "\t\n\u{b}\u{c}\r x\u{85}\u{a0}", "\u{1680}x\u{2000}\u{200a}",
        "\u{2028}\u{2029}\u{202f}y\u{205f}\u{3000}", "\u{200b}z\u{feff}", "\u{1}q\u{1c}",
    ] {
        assert_eq!(trim(s), s.trim());
    }
}

#[test]
fn every_white_space_character_is_trimmed() {
    for code in 0..0x3100u32 {
        if let Some(c) = char::from_u32(code) {
            let s = format!("{}x{}", c, c);
            assert_eq!(trim(&s), s.trim());
        }
    }
}

#[test]
fn prefixes() {
    assert!(starts_with("sensors.temp", "sensors."));
    assert!(starts_with("abc", "abc"));
    assert!(starts_with("abc", ""));
    assert!(!starts_with("ab", "abc"));
    assert!(!starts_with("xbc", "a"));
    assert_eq!(strip_prefix("CRDT_KEY_a\u{e4}", "CRDT_KEY_"), Some("a\u{e4}"));
    assert_eq!(strip_prefix("CRDT_KEY", "CRDT_KEY_"), None);
}

#[test]
fn pieces_between_commas() {
    for s in ["", ",", "a", "a,b", ",a,,b,", "\u{e4},\u{f6}"] {
        assert_eq!(split_at_commas(s), s.split(',').collect::<Vec<&str>>());
    }
}

#[test]
fn numbers_of_sixteen_bits() {
    for s in ["0", "00", "7", "+7", "65535", "065535", "65536", "70000", "", "+", "++1", "-0", "1a"] {
        assert_eq!(parse_u16(s), s.parse::<u16>().ok());
    }
}

#[test]
fn map_keeps_one_value_for_each_key() {
    let mut map: StrMap<i32> = StrMap::new();
    assert!(map.is_empty());
    map.insert("a", 1);
    map.insert("b", 2);
    map.insert("a", 3);
    assert_eq!(map.len(), 2);
    assert_eq!(map.get("a"), Some(&3));
    *map.entry("b", 9) += 1;
    *map.entry("c", 9) += 1;
    assert_eq!((map.get("b"), map.get("c")), (Some(&3), Some(&10)));
    *map.get_mut("c").unwrap() = 4;
    assert!(map.get_mut("d").is_none());
    assert_eq!(map.remove("a"), Some(3));
    assert_eq!(map.remove("a"), None);
    let copy = map.clone();
    let keys: Vec<&str> = (0..copy.len()).map(|i| copy.key_at(i)).collect();
    let values: Vec<i32> = (0..copy.len()).map(|i| *copy.value_at(i)).collect();
    assert_eq!((keys, values), (vec!["b", "c"], vec![3, 4]));
}
