use blockflow::dom::{Node, NodeType};
use blockflow::parser::{CharClass, ParseError, Parser};

fn parse(source: &str) -> Result<Node, ParseError> {
    blockflow::html::parse(source.to_string())
}

/// A node in brackets: `tag{name=value,...}[children]` or `"text"`, with the
/// attributes that are asked for.
fn show(node: &Node, attributes: &[&str]) -> String {
    match &node.node_type {
        NodeType::Text(data) => format!("\"{}\"", data),
        NodeType::Element(element) => {
            let mut out = element.tag_name.clone();
            for name in attributes {
                if let Some(value) = element.attributes.get(name) {
                    out.push_str(&format!("{{{}={}}}", name, value));
                }
            }
            out.push('[');
            for child in &node.children {
                out.push_str(&show(child, attributes));
            }
            out.push(']');
            out
        }
    }
}

#[test]
fn a_single_element_is_the_root() {
    let root = parse("<div></div>").unwrap();
    assert_eq!(show(&root, &[]), "div[]");
    match &root.node_type {
        NodeType::Element(element) => assert!(element.attributes.is_empty()),
        NodeType::Text(_) => panic!("not an element"),
    }
}

#[test]
fn elements_nest_and_hold_text() {
    let root = parse("<html><body><h1>Title</h1><p>Hello <em>world</em>!</p></body></html>")
        .unwrap();
    assert_eq!(
        show(&root, &[]),
        "html[body[h1[\"Title\"]p[\"Hello \"em[\"world\"]\"!\"]]]"
    );
}

#[test]
fn white_space_between_nodes_is_skipped() {
    let root = parse("  <div>\n  <p> a b </p>\n\t<p></p>  </div>  ").unwrap();
    assert_eq!(show(&root, &[]), "div[p[\"a b \"]p[]]");
}

#[test]
fn attributes_are_quoted_with_either_quote() {
    let root = parse("<div id=\"main\" class='a b'  title=\"it's\" lang='say \"hi\"'></div>")
        .unwrap();
    assert_eq!(
        show(&root, &["id", "class", "title", "lang", "other"]),
        "div{id=main}{class=a b}{title=it's}{lang=say \"hi\"}[]"
    );
}

#[test]
fn the_later_of_two_attributes_with_one_name_stays() {
    let root = parse("<p id='a' id='b'></p>").unwrap();
    assert_eq!(show(&root, &["id"]), "p{id=b}[]");
}

#[test]
fn several_top_level_nodes_get_a_root() {
    let root = parse("<p></p><div></div>").unwrap();
    assert_eq!(show(&root, &[]), "html[p[]div[]]");
    let with_text = parse("hello<p></p>").unwrap();
    assert_eq!(show(&with_text, &[]), "html[\"hello\"p[]]");
}

#[test]
fn no_node_at_all_gets_an_empty_root() {
    assert_eq!(show(&parse("").unwrap(), &[]), "html[]");
    assert_eq!(show(&parse("  \n ").unwrap(), &[]), "html[]");
}

#[test]
fn text_alone_is_the_root() {
    let root = parse("hello world").unwrap();
    assert_eq!(show(&root, &[]), "\"hello world\"");
    assert!(root.children.is_empty());
}

#[test]
fn what_follows_a_stray_closing_tag_is_not_read() {
    let root = parse("<p></p></div><p></p>").unwrap();
    assert_eq!(show(&root, &[]), "p[]");
}

#[test]
fn malformed_documents_are_refused() {
    for source in [
        "<",
        "<div>",
        "<div></p>",
        "<div></div",
        "<div><p></div></p>",
        "<div id></div>",
        "<div id=main></div>",
        "<div id=\"main></div>",
        "<div id=\"main'></div>",
        "<div id=\"a\"",
        "<div",
        "<div =\"a\"></div>x<",
        "<a><b></b>",
        "<div></divx>",
        "<br/>",
        "<p>text<",
    ] {
        assert_eq!(parse(source).err(), Some(ParseError::MalformedInput), "{}", source);
    }
}

#[test]
fn an_attribute_may_have_no_name() {
    let root = parse("<div =\"a\"></div>").unwrap();
    assert_eq!(show(&root, &[""]), "div{=a}[]");
}

#[test]
fn names_are_runs_of_letters_and_digits() {
    let root = parse("<h1 data1='x'></h1>").unwrap();
    assert_eq!(show(&root, &["data1"]), "h1{data1=x}[]");
    let nameless = parse("<></>").unwrap();
    assert_eq!(show(&nameless, &[]), "[]");
}

#[test]
fn reading_step_by_step() {
    let mut parser = Parser::new("ab  <c>");
    assert!(!parser.eof());
    assert_eq!(parser.next_char(), 'a');
    assert!(parser.starts_with("ab"));
    assert!(parser.starts_with(""));
    assert!(!parser.starts_with("b"));
    assert!(!parser.starts_with("ab  <c>x"));
    assert_eq!(parser.consume_char(), 'a');
    assert_eq!(parser.expect("a"), Err(ParseError::MalformedInput));
    assert_eq!(parser.expect("b "), Ok(()));
    parser.consume_whitespace();
    assert_eq!(parser.next_char(), '<');
    assert_eq!(parser.expect_char('>'), Err(ParseError::MalformedInput));
    assert_eq!(parser.expect_char('<'), Ok(()));
    assert_eq!(parser.consume_while(CharClass::Except('>')), "c");
    assert_eq!(parser.consume_while(CharClass::Alphanumeric), "");
    assert_eq!(parser.consume_char(), '>');
    assert!(parser.eof());
    assert_eq!(parser.expect_char('>'), Err(ParseError::MalformedInput));
    assert_eq!(parser.consume_while(CharClass::Except('>')), "");
    assert!(parser.starts_with(""));
    assert!(!parser.starts_with(">"));
}

#[test]
fn runs_hold_the_characters_that_were_read() {
    let mut parser = Parser::new("héllo wörld-1_2.5;");
    assert_eq!(parser.consume_while(CharClass::Except(' ')), "héllo");
    assert_eq!(parser.consume_while(CharClass::Whitespace), " ");
    assert_eq!(parser.consume_while(CharClass::Alphanumeric), "w");
    assert_eq!(parser.consume_char(), 'ö');
    assert_eq!(parser.consume_while(CharClass::Identifier), "rld-1_2");
    assert_eq!(parser.consume_while(CharClass::Numeric), ".5");
    assert_eq!(parser.consume_while(CharClass::Digit), "");
    assert!(CharClass::Whitespace.test('\t'));
    assert!(!CharClass::Whitespace.test('\u{a0}'));
    assert!(CharClass::Digit.test('7'));
    assert!(!CharClass::Digit.test('a'));
    assert!(CharClass::Identifier.test('_'));
    assert!(!CharClass::Identifier.test('.'));
}

#[test]
fn the_parts_of_a_document_one_by_one() {
    let mut parser = Parser::new("name rest");
    assert_eq!(parser.parse_name(), "name");
    let mut parser = Parser::new("some text<p>");
    assert!(matches!(parser.parse_text().node_type, NodeType::Text(s) if s == "some text"));
    assert_eq!(parser.next_char(), '<');
    let mut parser = Parser::new("'it' x");
    assert_eq!(parser.parse_attribute_value(), Ok("it".to_string()));
    let mut parser = Parser::new("\"unclosed");
    assert_eq!(parser.parse_attribute_value(), Err(ParseError::MalformedInput));
    let mut parser = Parser::new("id='x'>");
    assert_eq!(parser.parse_attribute(), Ok(("id".to_string(), "x".to_string())));
    let mut parser = Parser::new(" a='1'  b=\"2\" >");
    let attributes = parser.parse_attributes().unwrap();
    assert_eq!(attributes.get("a"), Some(&"1".to_string()));
    assert_eq!(attributes.get("b"), Some(&"2".to_string()));
    assert_eq!(parser.next_char(), '>');
    let mut parser = Parser::new("<a></a><b></b></c>");
    assert_eq!(parser.parse_nodes().unwrap().len(), 2);
    assert!(parser.starts_with("</c>"));
    let mut parser = Parser::new("<a>x</a>tail");
    assert_eq!(show(&parser.parse_element().unwrap(), &[]), "a[\"x\"]");
    assert_eq!(show(&parser.parse_node().unwrap(), &[]), "\"tail\"");
}
