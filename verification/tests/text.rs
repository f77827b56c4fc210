use input_relay::string_map::StringMap;
use input_relay::text::{decimal, has_char, has_prefix, is_white_space, join, split_and_trim, trim};

#[test]
fn white_space_is_that_of_unicode() {
    for code in 0..=0x10ffffu32 {
        if let Some(c) = char::from_u32(code) {
            assert_eq!(is_white_space(c), c.is_whitespace(), "{:x}", code);
        }
    }
}

#[test]
fn trimming() {
    for s in ["", " ", " a", "a ", " a b ", "\u{2003}x\u{85}", "\u{200b}x", "\r\n\t"] {
        assert_eq!(trim(s), s.trim());
        assert_eq!(trim(&trim(s)), trim(s));
    }
}

#[test]
fn splitting_and_joining() {
    for s in ["", ",", "a", "a,b", ",a,,b,", "\u{e9},\u{4e2d}"] {
        let expected: Vec<String> = s.split(',').map(|p| p.trim().to_string()).collect();
        assert_eq!(split_and_trim(s, ','), expected);
        assert_eq!(join(&split_and_trim(s, ','), ","), s);
    }
    assert_eq!(join(&vec![], "+"), "");
}

#[test]
fn searching() {
    assert!(has_char("a+b", '+'));
    assert!(!has_char("", '+'));
    assert!(has_prefix("abc", ""));
    assert!(has_prefix("abc", "abc"));
    assert!(!has_prefix("ab", "abc"));
    assert!(!has_prefix("abd", "abc"));
}

#[test]
fn numerals() {
    for n in [0usize, 1, 9, 10, 11, 31, 99, 100, 1005, usize::MAX] {
        assert_eq!(decimal(n), format!("{}", n));
    }
}

#[test]
fn map_of_texts() {
    let mut map: StringMap<u64> = StringMap::new();
    assert!(map.keys().is_empty());
    assert_eq!(map.insert("a".to_string(), 1), None);
    assert_eq!(map.insert("b".to_string(), 2), None);
    assert_eq!(map.insert("a".to_string(), 3), Some(1));
    assert_eq!(map.get("a"), Some(&3));
    assert_eq!(map.get("c"), None);
    assert!(map.contains_key("b"));
    let copy = map.clone();
    assert_eq!(map.remove("b"), Some(2));
    assert_eq!(map.remove("b"), None);
    assert!(!map.contains_key("b"));
    assert_eq!(map.keys(), vec!["a".to_string()]);
    assert_eq!(copy.get("b"), Some(&2));
    let mut keys = copy.keys();
    keys.sort();
    assert_eq!(keys, vec!["a".to_string(), "b".to_string()]);
}
