use blockflow::css::{Color, Unit, Value};
use blockflow::dom::{text, Node};
use blockflow::layout::{build_layout_tree, BoxType, Dimensions, LayoutBox, Rect};
use blockflow::painting::{
    build_display_list, get_color, render_background, render_borders, render_layout_box, Canvas,
    DisplayCommand,
};
use blockflow::style::{PropertyMap, StyledNode};

const RED: Color = Color { r: 255, g: 0, b: 0, a: 255 };
const BLUE: Color = Color { r: 0, g: 0, b: 255, a: 255 };
const GREY: Color = Color { r: 9, g: 9, b: 9, a: 255 };

fn px(n: i64) -> Value {
    Value::Length(n, Unit::Px)
}

fn block<'a>(
    node: &'a Node,
    values: &[(&str, Value)],
    children: Vec<StyledNode<'a>>,
) -> StyledNode<'a> {
    let mut map = PropertyMap::new();
    map.insert("display".to_string(), Value::Keyword("block".to_string()));
    for (name, value) in values {
        map.insert(name.to_string(), value.clone());
    }
    StyledNode { node, specified_values: map, children }
}

fn viewport(width: i64) -> Dimensions {
    let mut d = Dimensions::default();
    d.content.width = width;
    d
}

#[test]
fn a_box_without_colours_paints_nothing() {
    let node = text("".to_string());
    let style = block(&node, &[("height", px(10))], vec![]);
    let mut root = build_layout_tree(&style).unwrap();
    root.layout(viewport(100));
    assert!(build_display_list(&root).is_empty());
    assert_eq!(get_color(&root, "background"), None);
    let anonymous = LayoutBox::new(BoxType::AnonymousBlock);
    assert!(build_display_list(&anonymous).is_empty());
    assert_eq!(get_color(&anonymous, "background"), None);
}

#[test]
fn a_colour_is_a_colour_value_under_that_name() {
    let node = text("".to_string());
    let style = block(
        &node,
        &[
            ("background", Value::ColorValue(RED)),
            ("border-color", Value::Keyword("red".to_string())),
        ],
        vec![],
    );
    let root = build_layout_tree(&style).unwrap();
    assert_eq!(get_color(&root, "background"), Some(RED));
    assert_eq!(get_color(&root, "border-color"), None);
    assert_eq!(get_color(&root, "color"), None);
}

#[test]
fn the_background_covers_the_border_box() {
    let node = text("".to_string());
    let style = block(
        &node,
        &[
            ("background", Value::ColorValue(RED)),
            ("width", px(50)),
            ("height", px(20)),
            ("padding", px(2)),
            ("border-width", px(3)),
            ("margin", px(10)),
        ],
        vec![],
    );
    let mut root = build_layout_tree(&style).unwrap();
    root.layout(viewport(100));
    let mut list = vec![];
    render_background(&mut list, &root);
    assert_eq!(
        list,
        vec![DisplayCommand::SolidColor(RED, Rect { x: 10, y: 10, width: 60, height: 30 })]
    );
    assert_eq!(build_display_list(&root), list);
}

#[test]
fn the_borders_are_four_strips_top_right_bottom_left() {
    let node = text("".to_string());
    let style = block(
        &node,
        &[
            ("border-color", Value::ColorValue(BLUE)),
            ("width", px(50)),
            ("height", px(20)),
            ("border-left-width", px(1)),
            ("border-right-width", px(2)),
            ("border-top-width", px(3)),
            ("border-bottom-width", px(4)),
        ],
        vec![],
    );
    let mut root = build_layout_tree(&style).unwrap();
    root.layout(viewport(100));
    let mut list = vec![DisplayCommand::SolidColor(GREY, Rect { x: 0, y: 0, width: 0, height: 0 })];
    render_borders(&mut list, &root);
    // The border box is 53 wide and 27 high, with its corner at the origin.
    assert_eq!(
        list,
        vec![
            DisplayCommand::SolidColor(GREY, Rect { x: 0, y: 0, width: 0, height: 0 }),
            DisplayCommand::SolidColor(BLUE, Rect { x: 0, y: 0, width: 53, height: 3 }),
            DisplayCommand::SolidColor(BLUE, Rect { x: 51, y: 0, width: 2, height: 27 }),
            DisplayCommand::SolidColor(BLUE, Rect { x: 0, y: 23, width: 53, height: 4 }),
            DisplayCommand::SolidColor(BLUE, Rect { x: 0, y: 0, width: 1, height: 27 }),
        ]
    );
}

#[test]
fn boxes_are_painted_in_document_order_background_first() {
    let node = text("".to_string());
    let style = block(
        &node,
        &[("background", Value::ColorValue(GREY)), ("border-color", Value::ColorValue(BLUE))],
        vec![
            block(&node, &[("background", Value::ColorValue(RED)), ("height", px(10))], vec![]),
            block(
                &node,
                &[("height", px(5))],
                vec![block(
                    &node,
                    &[("background", Value::ColorValue(BLUE)), ("height", px(5))],
                    vec![],
                )],
            ),
        ],
    );
    let mut root = build_layout_tree(&style).unwrap();
    root.layout(viewport(100));
    let whole = Rect { x: 0, y: 0, width: 100, height: 15 };
    let list = build_display_list(&root);
    assert_eq!(
        list,
        vec![
            DisplayCommand::SolidColor(GREY, whole),
            DisplayCommand::SolidColor(BLUE, Rect { x: 0, y: 0, width: 100, height: 0 }),
            DisplayCommand::SolidColor(BLUE, Rect { x: 100, y: 0, width: 0, height: 15 }),
            DisplayCommand::SolidColor(BLUE, Rect { x: 0, y: 15, width: 100, height: 0 }),
            DisplayCommand::SolidColor(BLUE, Rect { x: 0, y: 0, width: 0, height: 15 }),
            DisplayCommand::SolidColor(RED, Rect { x: 0, y: 0, width: 100, height: 10 }),
            DisplayCommand::SolidColor(BLUE, Rect { x: 0, y: 10, width: 100, height: 5 }),
        ]
    );
    let mut appended = vec![DisplayCommand::SolidColor(RED, whole)];
    render_layout_box(&mut appended, &root);
    assert_eq!(appended.len(), 8);
    assert_eq!(&appended[1..], &list[..]);
}

#[test]
fn a_new_canvas_is_white() {
    let canvas = Canvas::new(3, 2);
    assert_eq!(canvas.width, 3);
    assert_eq!(canvas.height, 2);
    assert_eq!(canvas.pixels.len(), 6);
    let white = Color { r: 255, g: 255, b: 255, a: 255 };
    assert!(canvas.pixels.iter().all(|pixel| *pixel == white));
    let empty = Canvas::new(0, 10);
    assert!(empty.pixels.is_empty());
    assert_eq!(empty.height, 10);
}
