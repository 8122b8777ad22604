use blockflow::css::{Unit, Value};
use blockflow::dom::AttributeMap;
use blockflow::strmap::StringMap;
use blockflow::style::PropertyMap;
use blockflow::text::{chars_of, is_whitespace, str_eq, string_of};

#[test]
fn a_new_map_is_empty() {
    let map: StringMap<String> = StringMap::new();
    assert!(map.is_empty());
    assert_eq!(map.get("a"), None);
    assert_eq!(map.get(""), None);
}

#[test]
fn a_map_gives_back_what_was_put_in() {
    let mut map = AttributeMap::new();
    map.insert("id".to_string(), "x".to_string());
    map.insert("class".to_string(), "a b".to_string());
    map.insert("".to_string(), "empty".to_string());
    assert!(!map.is_empty());
    assert_eq!(map.get("id"), Some(&"x".to_string()));
    assert_eq!(map.get("class"), Some(&"a b".to_string()));
    assert_eq!(map.get(""), Some(&"empty".to_string()));
    assert_eq!(map.get("ID"), None);
    assert_eq!(map.get("i"), None);
    assert_eq!(map.get("idx"), None);
}

#[test]
fn a_second_value_under_a_key_replaces_the_first() {
    let mut map = PropertyMap::new();
    map.insert("width".to_string(), Value::Length(1, Unit::Px));
    map.insert("height".to_string(), Value::Length(2, Unit::Px));
    map.insert("width".to_string(), Value::Keyword("auto".to_string()));
    assert_eq!(map.get("width"), Some(&Value::Keyword("auto".to_string())));
    assert_eq!(map.get("height"), Some(&Value::Length(2, Unit::Px)));
    map.insert("height".to_string(), Value::Length(3, Unit::Px));
    map.insert("width".to_string(), Value::Length(4, Unit::Px));
    assert_eq!(map.get("width"), Some(&Value::Length(4, Unit::Px)));
    assert_eq!(map.get("height"), Some(&Value::Length(3, Unit::Px)));
}

#[test]
fn strings_are_equal_when_their_characters_are() {
    assert!(str_eq("", ""));
    assert!(str_eq("auto", "auto"));
    assert!(str_eq("héllo", "héllo"));
    assert!(!str_eq("auto", "Auto"));
    assert!(!str_eq("auto", "aut"));
    assert!(!str_eq("aut", "auto"));
    assert!(!str_eq("", "a"));
    assert!(!str_eq("é", "e"));
}

#[test]
fn the_characters_of_a_string_and_back() {
    assert_eq!(chars_of(""), Vec::<char>::new());
    assert_eq!(chars_of("aé€😀z"), vec!['a', 'é', '€', '😀', 'z']);
    let chars = chars_of("hello, wörld");
    assert_eq!(string_of(&chars, 0, chars.len()), "hello, wörld");
    assert_eq!(string_of(&chars, 7, 12), "wörld");
    assert_eq!(string_of(&chars, 3, 3), "");
    assert_eq!(string_of(&chars, 11, 12), "d");
}

#[test]
fn white_space_is_space_tab_and_the_line_ends() {
    for c in [' ', '\t', '\n', '\r', '\x0C'] {
        assert!(is_whitespace(c));
    }
    for c in ['a', '0', '\u{b}', '\u{a0}', '\u{2003}', '\0', '_'] {
        assert!(!is_whitespace(c));
    }
}
