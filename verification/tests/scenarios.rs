use blockflow::css::{Color, Value};
use blockflow::layout::{build_layout_tree, Dimensions};
use blockflow::style::style_tree;

fn viewport(width: i64) -> Dimensions {
    let mut d = Dimensions::default();
    d.content.width = width;
    d
}

#[test]
fn centred_div_in_a_viewport() {
    let sheet = blockflow::css::parse("div { width: 100px; margin: auto; }".to_string()).unwrap();
    let document = blockflow::html::parse("<div></div>".to_string()).unwrap();
    let styled = style_tree(&document, &sheet);
    let mut root = build_layout_tree(&styled).unwrap();
    root.calculate_block_width(viewport(200));
    assert_eq!(root.dimensions.content.width, 100);
    assert_eq!(root.dimensions.margin.left, 50);
    assert_eq!(root.dimensions.margin.right, 50);
}

#[test]
fn centred_block_div_laid_out() {
    let sheet = blockflow::css::parse(
        "div { display: block; width: 100px; margin: auto; }".to_string(),
    )
    .unwrap();
    let document = blockflow::html::parse("<div></div>".to_string()).unwrap();
    let styled = style_tree(&document, &sheet);
    let mut root = build_layout_tree(&styled).unwrap();
    root.layout(viewport(200));
    assert_eq!(root.dimensions.content.width, 100);
    assert_eq!(root.dimensions.margin.left, 50);
    assert_eq!(root.dimensions.margin.right, 50);
    assert_eq!(root.dimensions.content.x, 50);
    assert_eq!(root.dimensions.content.y, 0);
    assert_eq!(root.dimensions.content.height, 0);
    // An `auto` margin above or below is zero.
    assert_eq!(root.dimensions.margin.top, 0);
    assert_eq!(root.dimensions.margin.bottom, 0);
}

#[test]
fn id_rule_beats_class_rule() {
    let sheet =
        blockflow::css::parse("#a{color:#ff0000;} .b{color:#00ff00;}".to_string()).unwrap();
    let document = blockflow::html::parse("<p id=\"a\" class=\"b\"></p>".to_string()).unwrap();
    let styled = style_tree(&document, &sheet);
    assert_eq!(
        styled.value("color"),
        Some(Value::ColorValue(Color { r: 255, g: 0, b: 0, a: 255 }))
    );
}

#[test]
fn id_rule_beats_class_rule_in_either_order() {
    let sheet =
        blockflow::css::parse(".b{color:#00ff00;} #a{color:#ff0000;}".to_string()).unwrap();
    let document = blockflow::html::parse("<p class='b' id='a'></p>".to_string()).unwrap();
    let styled = style_tree(&document, &sheet);
    assert_eq!(
        styled.value("color"),
        Some(Value::ColorValue(Color { r: 255, g: 0, b: 0, a: 255 }))
    );
}

#[test]
fn second_div_stands_below_the_first() {
    let sheet = blockflow::css::parse(
        "body { display: block; } div { display: block; height: 50px; }".to_string(),
    )
    .unwrap();
    let document =
        blockflow::html::parse("<body><div></div><div></div></body>".to_string()).unwrap();
    let styled = style_tree(&document, &sheet);
    let mut root = build_layout_tree(&styled).unwrap();
    root.layout(viewport(200));
    assert_eq!(root.children.len(), 2);
    let first = &root.children[0];
    let second = &root.children[1];
    assert_eq!(first.dimensions.content.height, 50);
    assert_eq!(first.dimensions.margin_box().height, 50);
    assert_eq!(first.dimensions.content.y, 0);
    assert_eq!(second.dimensions.content.y, first.dimensions.margin_box().height);
    assert_eq!(second.dimensions.content.y, 50);
    assert_eq!(second.dimensions.content.height, 50);
    assert_eq!(root.dimensions.content.height, 100);
    assert_eq!(first.dimensions.content.width, 200);
}

#[test]
fn second_div_stands_below_the_margin_box_of_the_first() {
    let sheet = blockflow::css::parse(
        "body { display: block; } div { display: block; } \
         #one { padding: 10px; border-width: 5px; margin: 10px; } \
         #two { height: 7px; }"
            .to_string(),
    )
    .unwrap();
    let document = blockflow::html::parse(
        "<body><div id=\"one\"></div><div id=\"two\"></div></body>".to_string(),
    )
    .unwrap();
    let styled = style_tree(&document, &sheet);
    let mut root = build_layout_tree(&styled).unwrap();
    root.layout(viewport(200));
    let first = &root.children[0];
    let second = &root.children[1];
    // No content: the height of the first box is all padding, border and
    // margin.
    assert_eq!(first.dimensions.content.height, 0);
    assert_eq!(first.dimensions.margin_box().height, 50);
    assert_eq!(first.dimensions.content.y, 25);
    assert_eq!(first.dimensions.content.x, 25);
    assert_eq!(first.dimensions.content.width, 150);
    assert_eq!(second.dimensions.content.y, 50);
    assert_eq!(root.dimensions.content.height, 57);
}
