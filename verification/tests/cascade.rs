use blockflow::css::{
    Color, Declaration, Rule, Selector, SimpleSelector, Stylesheet, Unit, Value,
};
use blockflow::dom::{element, text, AttributeMap, Element, Node, NodeType};
use blockflow::style::{
    matching_rules, sort_by_weight, specified_values, style_tree, Display, PropertyMap,
    StyledNode,
};

fn simple(tag: Option<&str>, id: Option<&str>, classes: &[&str]) -> Selector {
    Selector::Simple(SimpleSelector {
        tag_name: tag.map(|t| t.to_string()),
        id: id.map(|i| i.to_string()),
        class: classes.iter().map(|c| c.to_string()).collect(),
    })
}

fn elem(tag: &str, attributes: &[(&str, &str)]) -> Element {
    let mut map = AttributeMap::new();
    for (name, value) in attributes {
        map.insert(name.to_string(), value.to_string());
    }
    Element { tag_name: tag.to_string(), attributes: map }
}

fn keyword(word: &str) -> Value {
    Value::Keyword(word.to_string())
}

fn px(n: i64) -> Value {
    Value::Length(n, Unit::Px)
}

fn rule(selectors: Vec<Selector>, declarations: &[(&str, Value)]) -> Rule {
    Rule {
        selectors,
        declarations: declarations
            .iter()
            .map(|(name, value)| Declaration { name: name.to_string(), value: value.clone() })
            .collect(),
    }
}

#[test]
fn the_later_of_two_rules_of_equal_weight_wins() {
    let sheet = Stylesheet {
        rules: vec![
            rule(vec![simple(Some("p"), None, &[])], &[("width", px(1))]),
            rule(vec![simple(Some("p"), None, &[])], &[("width", px(2))]),
        ],
    };
    let values = specified_values(&elem("p", &[]), &sheet);
    assert_eq!(values.get("width"), Some(&px(2)));
}

#[test]
fn the_weightier_rule_wins_wherever_it_stands() {
    let class_first = Stylesheet {
        rules: vec![
            rule(vec![simple(None, None, &["b"])], &[("width", px(1))]),
            rule(vec![simple(Some("p"), None, &[])], &[("width", px(2))]),
        ],
    };
    let class_last = Stylesheet {
        rules: vec![
            rule(vec![simple(Some("p"), None, &[])], &[("width", px(2))]),
            rule(vec![simple(None, None, &["b"])], &[("width", px(1))]),
        ],
    };
    let element = elem("p", &[("class", "b")]);
    assert_eq!(specified_values(&element, &class_first).get("width"), Some(&px(1)));
    assert_eq!(specified_values(&element, &class_last).get("width"), Some(&px(1)));
}

#[test]
fn the_later_of_two_declarations_in_one_rule_wins() {
    let sheet = Stylesheet {
        rules: vec![rule(
            vec![simple(None, None, &[])],
            &[("width", px(1)), ("height", px(5)), ("width", px(3))],
        )],
    };
    let values = specified_values(&elem("p", &[]), &sheet);
    assert_eq!(values.get("width"), Some(&px(3)));
    assert_eq!(values.get("height"), Some(&px(5)));
}

#[test]
fn rules_that_match_are_merged_and_others_left_out() {
    let sheet = Stylesheet {
        rules: vec![
            rule(vec![simple(Some("p"), None, &[])], &[("width", px(1)), ("color", keyword("red"))]),
            rule(vec![simple(Some("div"), None, &[])], &[("height", px(9)), ("width", px(9))]),
            rule(vec![simple(None, Some("x"), &[])], &[("margin", keyword("auto"))]),
            rule(vec![simple(None, None, &[])], &[("display", keyword("block"))]),
        ],
    };
    let values = specified_values(&elem("p", &[("id", "x")]), &sheet);
    assert_eq!(values.get("width"), Some(&px(1)));
    assert_eq!(values.get("color"), Some(&keyword("red")));
    assert_eq!(values.get("margin"), Some(&keyword("auto")));
    assert_eq!(values.get("display"), Some(&keyword("block")));
    assert_eq!(values.get("height"), None);
}

#[test]
fn no_rule_no_values() {
    let empty = Stylesheet { rules: vec![] };
    assert!(specified_values(&elem("p", &[]), &empty).is_empty());
    let other = Stylesheet {
        rules: vec![rule(vec![simple(Some("div"), None, &[])], &[("width", px(1))])],
    };
    assert!(specified_values(&elem("p", &[]), &other).is_empty());
    let bare = Stylesheet { rules: vec![rule(vec![simple(Some("p"), None, &[])], &[])] };
    assert!(specified_values(&elem("p", &[]), &bare).is_empty());
}

#[test]
fn a_single_declaration_gives_one_value() {
    let sheet = Stylesheet {
        rules: vec![rule(vec![simple(Some("p"), None, &[])], &[("width", px(7))])],
    };
    let values = specified_values(&elem("p", &[]), &sheet);
    assert_eq!(values.get("width"), Some(&px(7)));
    assert_eq!(values.get("height"), None);
    assert!(!values.is_empty());
}

#[test]
fn resolving_twice_gives_the_same_values() {
    let sheet = Stylesheet {
        rules: vec![
            rule(vec![simple(Some("p"), None, &[])], &[("width", px(7))]),
            rule(vec![simple(None, None, &["b"])], &[("color", keyword("red"))]),
        ],
    };
    let document = element(
        "p".to_string(),
        AttributeMap::new(),
        vec![element("p".to_string(), AttributeMap::new(), vec![])],
    );
    let first = style_tree(&document, &sheet);
    let second = style_tree(&document, &sheet);
    for name in ["width", "color", "height", "display"] {
        assert_eq!(first.value(name), second.value(name));
        assert_eq!(first.children[0].value(name), second.children[0].value(name));
    }
    assert_eq!(first.value("width"), Some(px(7)));
    assert_eq!(first.children.len(), second.children.len());
}

#[test]
fn a_rule_with_several_selectors_counts_with_its_weightiest_match() {
    // The first rule matches by tag and by id: it applies with the weight of
    // the id, and so beats the class rule.
    let red = Value::ColorValue(Color { r: 255, g: 0, b: 0, a: 255 });
    let green = Value::ColorValue(Color { r: 0, g: 255, b: 0, a: 255 });
    let sheet = Stylesheet {
        rules: vec![
            rule(
                vec![simple(Some("p"), None, &[]), simple(None, Some("a"), &[])],
                &[("color", red.clone())],
            ),
            rule(vec![simple(None, None, &["b"])], &[("color", green.clone())]),
        ],
    };
    let both = elem("p", &[("id", "a"), ("class", "b")]);
    assert_eq!(specified_values(&both, &sheet).get("color"), Some(&red));
    // Without the id the first rule applies by its tag alone, and loses.
    let no_id = elem("p", &[("class", "b")]);
    assert_eq!(specified_values(&no_id, &sheet).get("color"), Some(&green));
}

#[test]
fn matching_rules_come_in_the_order_of_the_stylesheet() {
    let sheet = Stylesheet {
        rules: vec![
            rule(vec![simple(None, Some("a"), &[])], &[]),
            rule(vec![simple(Some("div"), None, &[])], &[]),
            rule(vec![simple(None, None, &["b"])], &[]),
            rule(vec![simple(Some("p"), None, &[])], &[]),
        ],
    };
    let element = elem("p", &[("id", "a"), ("class", "b")]);
    let found = matching_rules(&element, &sheet);
    assert_eq!(found.len(), 3);
    assert_eq!(found[0].0, (1, 0, 0));
    assert!(std::ptr::eq(found[0].1, &sheet.rules[0]));
    assert_eq!(found[1].0, (0, 1, 0));
    assert!(std::ptr::eq(found[1].1, &sheet.rules[2]));
    assert_eq!(found[2].0, (0, 0, 1));
    assert!(std::ptr::eq(found[2].1, &sheet.rules[3]));
}

#[test]
fn sorting_by_weight_keeps_equal_weights_in_order() {
    let rules: Vec<Rule> = (0..6).map(|_| rule(vec![], &[])).collect();
    let mut found = vec![
        ((0, 1, 0), &rules[0]),
        ((1, 0, 0), &rules[1]),
        ((0, 1, 0), &rules[2]),
        ((0, 0, 1), &rules[3]),
        ((0, 1, 0), &rules[4]),
        ((0, 0, 1), &rules[5]),
    ];
    sort_by_weight(&mut found);
    let places: Vec<usize> = found
        .iter()
        .map(|(_, r)| rules.iter().position(|x| std::ptr::eq(x, *r)).unwrap())
        .collect();
    assert_eq!(places, vec![3, 5, 0, 2, 4, 1]);
    let weights: Vec<(usize, usize, usize)> = found.iter().map(|(w, _)| *w).collect();
    assert_eq!(
        weights,
        vec![(0, 0, 1), (0, 0, 1), (0, 1, 0), (0, 1, 0), (0, 1, 0), (1, 0, 0)]
    );
}

#[test]
fn sorting_nothing_or_one_rule_changes_nothing() {
    let only = rule(vec![], &[]);
    let mut none: Vec<((usize, usize, usize), &Rule)> = vec![];
    sort_by_weight(&mut none);
    assert!(none.is_empty());
    let mut one = vec![((0, 2, 0), &only)];
    sort_by_weight(&mut one);
    assert_eq!(one.len(), 1);
    assert_eq!(one[0].0, (0, 2, 0));
}

#[test]
fn the_style_tree_follows_the_document_node_for_node() {
    let sheet = Stylesheet {
        rules: vec![
            rule(vec![simple(Some("div"), None, &[])], &[("display", keyword("block"))]),
            rule(vec![simple(Some("em"), None, &[])], &[("display", keyword("none"))]),
        ],
    };
    let document = element(
        "div".to_string(),
        AttributeMap::new(),
        vec![
            text("hello".to_string()),
            element("em".to_string(), AttributeMap::new(), vec![text("x".to_string())]),
            element("span".to_string(), AttributeMap::new(), vec![]),
        ],
    );
    let styled = style_tree(&document, &sheet);
    assert!(std::ptr::eq(styled.node, &document));
    assert_eq!(styled.children.len(), 3);
    for (i, child) in styled.children.iter().enumerate() {
        assert!(std::ptr::eq(child.node, &document.children[i]));
    }
    assert_eq!(styled.display(), Display::Block);
    // Text has no values of its own.
    assert!(styled.children[0].specified_values.is_empty());
    assert_eq!(styled.children[0].display(), Display::Inline);
    assert_eq!(styled.children[1].display(), Display::Hidden);
    assert_eq!(styled.children[1].children.len(), 1);
    assert!(styled.children[1].children[0].specified_values.is_empty());
    assert_eq!(styled.children[2].display(), Display::Inline);
    assert!(styled.children[2].specified_values.is_empty());
}

fn styled_with<'a>(node: &'a Node, values: &[(&str, Value)]) -> StyledNode<'a> {
    let mut map = PropertyMap::new();
    for (name, value) in values {
        map.insert(name.to_string(), value.clone());
    }
    StyledNode { node, specified_values: map, children: vec![] }
}

#[test]
fn value_gives_what_is_specified() {
    let node = text("".to_string());
    let styled = styled_with(&node, &[("width", px(3)), ("color", keyword("red"))]);
    assert_eq!(styled.value("width"), Some(px(3)));
    assert_eq!(styled.value("color"), Some(keyword("red")));
    assert_eq!(styled.value("height"), None);
    assert_eq!(styled.value(""), None);
}

#[test]
fn lookup_falls_back_to_the_second_name_and_then_to_the_default() {
    let node = text("".to_string());
    let zero = px(0);
    let both = styled_with(&node, &[("margin-left", px(3)), ("margin", px(8))]);
    assert_eq!(both.lookup("margin-left", "margin", &zero), px(3));
    assert_eq!(both.lookup("margin-right", "margin", &zero), px(8));
    assert_eq!(both.lookup("padding-left", "padding", &zero), px(0));
    let none = styled_with(&node, &[]);
    assert_eq!(none.lookup("margin-left", "margin", &keyword("auto")), keyword("auto"));
}

#[test]
fn display_is_block_none_or_else_inline() {
    let node = text("".to_string());
    assert_eq!(styled_with(&node, &[("display", keyword("block"))]).display(), Display::Block);
    assert_eq!(styled_with(&node, &[("display", keyword("none"))]).display(), Display::Hidden);
    assert_eq!(styled_with(&node, &[("display", keyword("inline"))]).display(), Display::Inline);
    assert_eq!(styled_with(&node, &[("display", keyword("flex"))]).display(), Display::Inline);
    assert_eq!(styled_with(&node, &[("display", keyword("Block"))]).display(), Display::Inline);
    assert_eq!(styled_with(&node, &[("display", px(1))]).display(), Display::Inline);
    assert_eq!(styled_with(&node, &[]).display(), Display::Inline);
}

#[test]
fn text_and_element_make_the_nodes_they_are_given() {
    let t = text("hi".to_string());
    assert!(matches!(&t.node_type, NodeType::Text(s) if s == "hi"));
    assert!(t.children.is_empty());
    let mut attributes = AttributeMap::new();
    attributes.insert("id".to_string(), "x".to_string());
    let e = element("p".to_string(), attributes, vec![t]);
    match &e.node_type {
        NodeType::Element(inner) => {
            assert_eq!(inner.tag_name, "p");
            assert_eq!(inner.attributes.get("id"), Some(&"x".to_string()));
        }
        NodeType::Text(_) => panic!("not an element"),
    }
    assert_eq!(e.children.len(), 1);
}
