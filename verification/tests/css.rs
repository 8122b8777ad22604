use blockflow::css::{
    hex_digit_value, parse, sort_selectors, valid_identifier_char, Color, Declaration, Selector,
    SimpleSelector, Stylesheet, Unit, Value,
};
use blockflow::parser::{ParseError, Parser};

fn sheet(source: &str) -> Result<Stylesheet, ParseError> {
    parse(source.to_string())
}

fn simple(tag: Option<&str>, id: Option<&str>, classes: &[&str]) -> Selector {
    Selector::Simple(SimpleSelector {
        tag_name: tag.map(|t| t.to_string()),
        id: id.map(|i| i.to_string()),
        class: classes.iter().map(|c| c.to_string()).collect(),
    })
}

fn declaration(name: &str, value: Value) -> Declaration {
    Declaration { name: name.to_string(), value }
}

fn keyword(word: &str) -> Value {
    Value::Keyword(word.to_string())
}

fn px(n: i64) -> Value {
    Value::Length(n, Unit::Px)
}

#[test]
fn an_empty_stylesheet_has_no_rules() {
    assert_eq!(sheet("").unwrap().rules.len(), 0);
    assert_eq!(sheet("  \n\t ").unwrap().rules.len(), 0);
}

#[test]
fn a_rule_has_selectors_and_declarations() {
    let parsed = sheet("div { width: 100px; margin: auto; }").unwrap();
    assert_eq!(parsed.rules.len(), 1);
    assert_eq!(parsed.rules[0].selectors, vec![simple(Some("div"), None, &[])]);
    assert_eq!(
        parsed.rules[0].declarations,
        vec![declaration("width", px(100)), declaration("margin", keyword("auto"))]
    );
}

#[test]
fn rules_follow_each_other() {
    let parsed = sheet("#a{color:#ff0000;} .b{color:#00ff00;}\n\n* { }").unwrap();
    assert_eq!(parsed.rules.len(), 3);
    assert_eq!(parsed.rules[0].selectors, vec![simple(None, Some("a"), &[])]);
    assert_eq!(
        parsed.rules[0].declarations,
        vec![declaration("color", Value::ColorValue(Color { r: 255, g: 0, b: 0, a: 255 }))]
    );
    assert_eq!(parsed.rules[1].selectors, vec![simple(None, None, &["b"])]);
    assert_eq!(
        parsed.rules[1].declarations,
        vec![declaration("color", Value::ColorValue(Color { r: 0, g: 255, b: 0, a: 255 }))]
    );
    assert_eq!(parsed.rules[2].selectors, vec![simple(None, None, &[])]);
    assert!(parsed.rules[2].declarations.is_empty());
}

#[test]
fn a_simple_selector_names_tag_id_and_classes() {
    let parsed = sheet("div#main.note.big, *.x, #a#b, a.b#c p-1_x{}").unwrap_err();
    // A blank between two selectors is no separator.
    assert_eq!(parsed, ParseError::MalformedInput);
    let parsed = sheet("div#main.note.big{} *.x{} #a#b{} h1h2{} .{} #{}").unwrap();
    let selectors: Vec<&Selector> = parsed.rules.iter().map(|r| &r.selectors[0]).collect();
    assert_eq!(*selectors[0], simple(Some("div"), Some("main"), &["note", "big"]));
    assert_eq!(*selectors[1], simple(None, None, &["x"]));
    assert_eq!(*selectors[2], simple(None, Some("b"), &[]));
    assert_eq!(*selectors[3], simple(Some("h1h2"), None, &[]));
    assert_eq!(*selectors[4], simple(None, None, &[""]));
    assert_eq!(*selectors[5], simple(None, Some(""), &[]));
}

#[test]
fn the_selectors_of_a_rule_are_sorted_by_rising_weight() {
    let parsed = sheet("#a, p.x , .c,div,*, .d.e ,h1 { }").unwrap();
    assert_eq!(
        parsed.rules[0].selectors,
        vec![
            simple(None, None, &[]),
            simple(Some("div"), None, &[]),
            simple(Some("h1"), None, &[]),
            simple(None, None, &["c"]),
            simple(Some("p"), None, &["x"]),
            simple(None, None, &["d", "e"]),
            simple(None, Some("a"), &[]),
        ]
    );
    let weights: Vec<(usize, usize, usize)> =
        parsed.rules[0].selectors.iter().map(|s| s.specificity()).collect();
    let mut sorted = weights.clone();
    sorted.sort();
    assert_eq!(weights, sorted);
}

#[test]
fn sorting_selectors_keeps_equal_weights_in_order() {
    let sorted = sort_selectors(vec![
        simple(None, None, &["b"]),
        simple(Some("z"), None, &[]),
        simple(None, None, &["a"]),
        simple(None, Some("i"), &[]),
        simple(Some("y"), None, &[]),
        simple(None, None, &["c"]),
    ]);
    assert_eq!(
        sorted,
        vec![
            simple(Some("z"), None, &[]),
            simple(Some("y"), None, &[]),
            simple(None, None, &["b"]),
            simple(None, None, &["a"]),
            simple(None, None, &["c"]),
            simple(None, Some("i"), &[]),
        ]
    );
    assert!(sort_selectors(vec![]).is_empty());
    assert_eq!(sort_selectors(vec![simple(None, None, &[])]), vec![simple(None, None, &[])]);
}

#[test]
fn values_are_lengths_colours_or_keywords() {
    let parsed = sheet(
        "p { a: 0px; b: 12PX; c: 7Px; d: #0a1B2c; e: block; f: -x_1; g: ; h: 1.9px; i: 3.px; }",
    )
    .unwrap();
    assert_eq!(
        parsed.rules[0].declarations,
        vec![
            declaration("a", px(0)),
            declaration("b", px(12)),
            declaration("c", px(7)),
            declaration("d", Value::ColorValue(Color { r: 10, g: 27, b: 44, a: 255 })),
            declaration("e", keyword("block")),
            declaration("f", keyword("-x_1")),
            declaration("g", keyword("")),
            declaration("h", px(1)),
            declaration("i", px(3)),
        ]
    );
}

#[test]
fn white_space_may_stand_between_the_parts_of_a_declaration() {
    let parsed = sheet("p{width\n:\t5px\r;height:6px;}").unwrap();
    assert_eq!(
        parsed.rules[0].declarations,
        vec![declaration("width", px(5)), declaration("height", px(6))]
    );
}

#[test]
fn a_length_beyond_the_range_is_the_longest_length() {
    let parsed = sheet("p { a: 9223372036854775807px; b: 9223372036854775808px; \
         c: 99999999999999999999999999999999999999999999999999px; d: 000000000000000000000012px; }")
    .unwrap();
    assert_eq!(
        parsed.rules[0].declarations,
        vec![
            declaration("a", px(i64::MAX)),
            declaration("b", px(i64::MAX)),
            declaration("c", px(i64::MAX)),
            declaration("d", px(12)),
        ]
    );
    let near = sheet("p { a: 9223372036854775806px; b: 1234567890px; }").unwrap();
    assert_eq!(
        near.rules[0].declarations,
        vec![declaration("a", px(i64::MAX - 1)), declaration("b", px(1234567890))]
    );
}

#[test]
fn only_pixels_are_a_unit() {
    for source in ["p { width: 5em; }", "p { width: 5; }", "p { width: 5 px; }", "p{a:1pxx;}",
        "p{a:1%;}", "p{a:1.5pt;}"]
    {
        assert_eq!(sheet(source).err(), Some(ParseError::UnsupportedConstruct), "{}", source);
    }
}

#[test]
fn malformed_stylesheets_are_refused() {
    for source in [
        "p",
        "p {",
        "p { width }",
        "p { width: }",
        "p { width: 5px }",
        "p { width: 5px",
        "p { width 5px; }",
        "p { width: 1.2.3px; }",
        "p { width: 1..px; }",
        "p { color: #12345; }",
        "p { color: #12345g; }",
        "p { color: #; }",
        "p { color: #ff00; }",
        "p q { }",
        "p, { } }",
        "p ! { }",
        "{ } }",
        "p { } x",
        "p { width: 5px; } q",
        "p { a: b c; }",
        "p,",
        "p { a: 1px; ; }",
    ] {
        assert_eq!(sheet(source).err(), Some(ParseError::MalformedInput), "{}", source);
    }
}

#[test]
fn the_first_fault_decides_the_error() {
    assert_eq!(sheet("p { a: 1.2.3em; }").err(), Some(ParseError::MalformedInput));
    assert_eq!(sheet("p { a: 1em; b }").err(), Some(ParseError::UnsupportedConstruct));
    assert_eq!(sheet("p { b } q { a: 1em; }").err(), Some(ParseError::MalformedInput));
}

#[test]
fn a_rule_may_have_no_selector_text() {
    let parsed = sheet("{ a: b; }").unwrap();
    assert_eq!(parsed.rules[0].selectors, vec![simple(None, None, &[])]);
    let parsed = sheet(",p{}").unwrap();
    assert_eq!(
        parsed.rules[0].selectors,
        vec![simple(None, None, &[]), simple(Some("p"), None, &[])]
    );
}

#[test]
fn identifier_characters() {
    for c in ['a', 'z', 'A', 'Z', '0', '9', '-', '_', 'm', 'Q', '5'] {
        assert!(valid_identifier_char(c), "{}", c);
    }
    for c in [' ', '.', '#', '*', '{', ':', ';', ',', 'é', '\u{a0}', '/', '@', '[', '`', '~'] {
        assert!(!valid_identifier_char(c), "{}", c);
    }
}

#[test]
fn hexadecimal_digits() {
    assert_eq!(hex_digit_value('0'), Some(0));
    assert_eq!(hex_digit_value('9'), Some(9));
    assert_eq!(hex_digit_value('a'), Some(10));
    assert_eq!(hex_digit_value('f'), Some(15));
    assert_eq!(hex_digit_value('A'), Some(10));
    assert_eq!(hex_digit_value('F'), Some(15));
    assert_eq!(hex_digit_value('g'), None);
    assert_eq!(hex_digit_value('G'), None);
    assert_eq!(hex_digit_value(' '), None);
    assert_eq!(hex_digit_value('/'), None);
    assert_eq!(hex_digit_value(':'), None);
}

#[test]
fn the_parts_of_a_stylesheet_one_by_one() {
    let mut parser = Parser::new("a-b_c9.rest");
    assert_eq!(parser.parse_identifier(), "a-b_c9");
    let mut parser = Parser::new("fF0");
    assert_eq!(parser.parse_hex_pair(), Ok(255));
    assert_eq!(parser.parse_hex_pair(), Err(ParseError::MalformedInput));
    let mut parser = Parser::new("10");
    assert_eq!(parser.parse_hex_pair(), Ok(16));
    let mut parser = Parser::new("#010203;");
    assert_eq!(parser.parse_color(), Ok(Value::ColorValue(Color { r: 1, g: 2, b: 3, a: 255 })));
    assert_eq!(parser.next_char(), ';');
    let mut parser = Parser::new("pX;");
    assert_eq!(parser.parse_unit(), Ok(Unit::Px));
    let mut parser = Parser::new("p;");
    assert_eq!(parser.parse_unit(), Err(ParseError::UnsupportedConstruct));
    let mut parser = Parser::new("12.75px");
    assert_eq!(parser.parse_number(), Ok(12));
    assert_eq!(parser.next_char(), 'p');
    let mut parser = Parser::new(".5px");
    assert_eq!(parser.parse_number(), Err(ParseError::MalformedInput));
    let mut parser = Parser::new("px");
    assert_eq!(parser.parse_number(), Err(ParseError::MalformedInput));
    let mut parser = Parser::new("42px ");
    assert_eq!(parser.parse_length(), Ok(px(42)));
    let mut parser = Parser::new("");
    assert_eq!(parser.parse_value(), Err(ParseError::MalformedInput));
    let mut parser = Parser::new("x : 1px ;y");
    assert_eq!(parser.parse_declaration(), Ok(declaration("x", px(1))));
    assert_eq!(parser.next_char(), 'y');
    let mut parser = Parser::new("{x:y;}z");
    assert_eq!(parser.parse_declarations(), Ok(vec![declaration("x", keyword("y"))]));
    assert_eq!(parser.next_char(), 'z');
    let mut parser = Parser::new("x:y;}");
    assert_eq!(parser.parse_declarations(), Err(ParseError::MalformedInput));
    let mut parser = Parser::new("p.a#b*.c d");
    assert_eq!(
        Selector::Simple(parser.parse_simple_selector()),
        simple(Some("p"), Some("b"), &["a", "c"])
    );
    assert_eq!(parser.next_char(), ' ');
    let mut parser = Parser::new(".a , p {");
    assert_eq!(
        parser.parse_selectors(),
        Ok(vec![simple(Some("p"), None, &[]), simple(None, None, &["a"])])
    );
    assert_eq!(parser.next_char(), '{');
    let mut parser = Parser::new("p{a:b;}q{}");
    let rule = parser.parse_rule().unwrap();
    assert_eq!(rule.selectors, vec![simple(Some("p"), None, &[])]);
    assert_eq!(rule.declarations, vec![declaration("a", keyword("b"))]);
    assert_eq!(parser.parse_rules().unwrap().len(), 1);
    assert!(parser.eof());
}
