use blockflow::css::{Unit, Value};
use blockflow::dom::{text, Node};
use blockflow::layout::{build_layout_tree, BoxType, Dimensions, LayoutBox, LayoutError};
use blockflow::style::{PropertyMap, StyledNode};

fn styled<'a>(node: &'a Node, display: &str, children: Vec<StyledNode<'a>>) -> StyledNode<'a> {
    let mut map = PropertyMap::new();
    if !display.is_empty() {
        map.insert("display".to_string(), Value::Keyword(display.to_string()));
    }
    StyledNode { node, specified_values: map, children }
}

/// The shape of a tree of boxes: `B`, `I` or `A` for each box, with its
/// children in brackets.
fn shape(b: &LayoutBox) -> String {
    let mut out = String::new();
    out.push(match b.box_type {
        BoxType::BlockNode(_) => 'B',
        BoxType::InlineNode(_) => 'I',
        BoxType::AnonymousBlock => 'A',
    });
    if !b.children.is_empty() {
        out.push('[');
        for child in &b.children {
            out.push_str(&shape(child));
        }
        out.push(']');
    }
    out
}

#[test]
fn a_hidden_root_has_no_boxes() {
    let node = text("".to_string());
    let root = styled(&node, "none", vec![styled(&node, "block", vec![])]);
    match build_layout_tree(&root) {
        Err(error) => {
            assert_eq!(error, LayoutError::RootHidden);
            assert_eq!(error.message(), "root has display:none");
        }
        Ok(_) => panic!("a tree was built"),
    }
}

#[test]
fn a_lone_root_makes_one_box() {
    let node = text("".to_string());
    let block = styled(&node, "block", vec![]);
    assert_eq!(shape(&build_layout_tree(&block).unwrap()), "B");
    let inline = styled(&node, "inline", vec![]);
    assert_eq!(shape(&build_layout_tree(&inline).unwrap()), "I");
    let unset = styled(&node, "", vec![]);
    assert_eq!(shape(&build_layout_tree(&unset).unwrap()), "I");
}

#[test]
fn new_boxes_are_not_laid_out() {
    let node = text("".to_string());
    let block = styled(&node, "block", vec![styled(&node, "", vec![])]);
    let root = build_layout_tree(&block).unwrap();
    assert_eq!(root.dimensions, Dimensions::default());
    assert_eq!(root.children[0].dimensions, Dimensions::default());
    assert_eq!(root.children[0].children[0].dimensions, Dimensions::default());
    let fresh = LayoutBox::new(BoxType::AnonymousBlock);
    assert_eq!(fresh.dimensions, Dimensions::default());
    assert!(fresh.children.is_empty());
    assert_eq!(Dimensions::default().content.x, 0);
    assert_eq!(Dimensions::default().margin.bottom, 0);
}

#[test]
fn hidden_children_and_all_inside_them_are_left_out() {
    let node = text("".to_string());
    let root = styled(
        &node,
        "block",
        vec![
            styled(&node, "block", vec![]),
            styled(
                &node,
                "none",
                vec![styled(&node, "block", vec![styled(&node, "inline", vec![])])],
            ),
            styled(&node, "block", vec![styled(&node, "none", vec![])]),
        ],
    );
    let tree = build_layout_tree(&root).unwrap();
    assert_eq!(shape(&tree), "B[BB]");
    // The boxes are those of the first and of the third child.
    match tree.children[0].box_type {
        BoxType::BlockNode(made_for) => assert!(std::ptr::eq(made_for, &root.children[0])),
        _ => panic!("not a block"),
    }
    match tree.children[1].box_type {
        BoxType::BlockNode(made_for) => assert!(std::ptr::eq(made_for, &root.children[2])),
        _ => panic!("not a block"),
    }
}

#[test]
fn two_inline_children_of_a_block_share_one_anonymous_block() {
    let node = text("".to_string());
    let root = styled(
        &node,
        "block",
        vec![styled(&node, "inline", vec![]), styled(&node, "inline", vec![])],
    );
    let tree = build_layout_tree(&root).unwrap();
    assert_eq!(shape(&tree), "B[A[II]]");
    let anonymous = &tree.children[0];
    for (i, child) in anonymous.children.iter().enumerate() {
        match child.box_type {
            BoxType::InlineNode(made_for) => assert!(std::ptr::eq(made_for, &root.children[i])),
            _ => panic!("not inline"),
        }
    }
}

#[test]
fn each_run_of_inline_children_has_its_own_anonymous_block() {
    let node = text("".to_string());
    let root = styled(
        &node,
        "block",
        vec![
            styled(&node, "inline", vec![]),
            styled(&node, "", vec![]),
            styled(&node, "block", vec![]),
            styled(&node, "inline", vec![]),
            styled(&node, "block", vec![]),
            styled(&node, "block", vec![]),
            styled(&node, "inline", vec![]),
            styled(&node, "inline", vec![]),
            styled(&node, "inline", vec![]),
        ],
    );
    assert_eq!(shape(&build_layout_tree(&root).unwrap()), "B[A[II]BA[I]BBA[III]]");
}

#[test]
fn a_hidden_child_does_not_split_a_run() {
    let node = text("".to_string());
    let root = styled(
        &node,
        "block",
        vec![
            styled(&node, "inline", vec![]),
            styled(&node, "none", vec![]),
            styled(&node, "inline", vec![]),
        ],
    );
    assert_eq!(shape(&build_layout_tree(&root).unwrap()), "B[A[II]]");
}

#[test]
fn an_inline_box_holds_its_children_itself() {
    let node = text("".to_string());
    let root = styled(
        &node,
        "inline",
        vec![
            styled(&node, "inline", vec![]),
            styled(&node, "block", vec![styled(&node, "inline", vec![])]),
            styled(&node, "inline", vec![styled(&node, "inline", vec![])]),
        ],
    );
    assert_eq!(shape(&build_layout_tree(&root).unwrap()), "I[IB[A[I]]I[I]]");
}

#[test]
fn the_inline_container_of_a_block_is_its_last_anonymous_block() {
    let node = text("".to_string());
    let style = styled(&node, "block", vec![]);
    let mut block = LayoutBox::new(BoxType::BlockNode(&style));
    {
        let container = block.get_inline_container();
        assert!(matches!(container.box_type, BoxType::AnonymousBlock));
        container.children.push(LayoutBox::new(BoxType::InlineNode(&style)));
    }
    assert_eq!(shape(&block), "B[A[I]]");
    // A second call finds the same anonymous block.
    block.get_inline_container().children.push(LayoutBox::new(BoxType::InlineNode(&style)));
    assert_eq!(shape(&block), "B[A[II]]");
    // Behind a block child a new one is made.
    block.children.push(LayoutBox::new(BoxType::BlockNode(&style)));
    block.get_inline_container();
    assert_eq!(shape(&block), "B[A[II]BA]");
}

#[test]
fn the_inline_container_of_other_boxes_is_the_box_itself() {
    let node = text("".to_string());
    let style = styled(&node, "inline", vec![]);
    let mut inline = LayoutBox::new(BoxType::InlineNode(&style));
    inline.get_inline_container().children.push(LayoutBox::new(BoxType::InlineNode(&style)));
    assert_eq!(shape(&inline), "I[I]");
    let mut anonymous = LayoutBox::new(BoxType::AnonymousBlock);
    anonymous.get_inline_container().dimensions.content.width = 5;
    assert_eq!(anonymous.dimensions.content.width, 5);
    assert_eq!(shape(&anonymous), "A");
}

#[test]
fn the_style_node_of_a_box_is_the_one_it_was_made_for() {
    let node = text("".to_string());
    let mut map = PropertyMap::new();
    map.insert("width".to_string(), Value::Length(3, Unit::Px));
    let style = StyledNode { node: &node, specified_values: map, children: vec![] };
    let block = LayoutBox::new(BoxType::BlockNode(&style));
    assert!(std::ptr::eq(block.get_style_node(), &style));
    let inline = LayoutBox::new(BoxType::InlineNode(&style));
    assert!(std::ptr::eq(inline.get_style_node(), &style));
}
