//! Block layout: the tree of boxes and the solver that sizes and places them.
//!
//! All lengths are whole pixels. A length is computed exactly and brought
//! into the range of `i64` when it is stored.

use crate::css::{saturate, saturated, Unit, Value, ValueView};
use crate::style::{Display, StyledNode, StyledNodeView};
use vstd::prelude::*;

verus! {

/// A rectangle: the place of its top left corner, and its size.
#[derive(Clone, Copy, Debug, PartialEq, Eq, Structural)]
pub struct Rect {
    pub x: i64,
    pub y: i64,
    pub width: i64,
    pub height: i64,
}

/// The thickness of the four edges around a rectangle.
#[derive(Clone, Copy, Debug, PartialEq, Eq, Structural)]
pub struct EdgeSizes {
    pub left: i64,
    pub right: i64,
    pub top: i64,
    pub bottom: i64,
}

/// The content area of a box and the padding, border and margin around it.
#[derive(Clone, Copy, Debug, PartialEq, Eq, Structural)]
pub struct Dimensions {
    pub content: Rect,
    pub padding: EdgeSizes,
    pub border: EdgeSizes,
    pub margin: EdgeSizes,
}

impl Rect {
    /// The rectangle grown by `edge` on each of its four sides.
    pub open spec fn spec_expanded_by(self, edge: EdgeSizes) -> Rect {
        Rect {
            x: saturated(self.x - edge.left),
            y: saturated(self.y - edge.top),
            width: saturated(self.width + edge.left + edge.right),
            height: saturated(self.height + edge.top + edge.bottom),
        }
    }

    /// The rectangle grown by `edge` on each of its four sides.
    #[verifier::when_used_as_spec(spec_expanded_by)]
    pub fn expanded_by(self, edge: EdgeSizes) -> (rect: Rect)
        ensures
            rect == self.spec_expanded_by(edge),
    {
        Rect {
            x: saturate(self.x as i128 - edge.left as i128),
            y: saturate(self.y as i128 - edge.top as i128),
            width: saturate(self.width as i128 + edge.left as i128 + edge.right as i128),
            height: saturate(self.height as i128 + edge.top as i128 + edge.bottom as i128),
        }
    }
}

impl Dimensions {
    /// The dimensions of a box that has not been laid out: all zero.
    pub open spec fn zero() -> Dimensions {
        Dimensions {
            content: Rect { x: 0, y: 0, width: 0, height: 0 },
            padding: EdgeSizes { left: 0, right: 0, top: 0, bottom: 0 },
            border: EdgeSizes { left: 0, right: 0, top: 0, bottom: 0 },
            margin: EdgeSizes { left: 0, right: 0, top: 0, bottom: 0 },
        }
    }

    /// The area covered by the content and its padding.
    pub open spec fn spec_padding_box(self) -> Rect {
        self.content.expanded_by(self.padding)
    }

    /// The area covered by the content, its padding and its border.
    pub open spec fn spec_border_box(self) -> Rect {
        self.spec_padding_box().expanded_by(self.border)
    }

    /// The area covered by the content, its padding, its border and its
    /// margin.
    pub open spec fn spec_margin_box(self) -> Rect {
        self.spec_border_box().expanded_by(self.margin)
    }

    /// The area covered by the content and its padding.
    #[verifier::when_used_as_spec(spec_padding_box)]
    pub fn padding_box(self) -> (rect: Rect)
        ensures
            rect == self.spec_padding_box(),
    {
        self.content.expanded_by(self.padding)
    }

    /// The area covered by the content, its padding and its border.
    #[verifier::when_used_as_spec(spec_border_box)]
    pub fn border_box(self) -> (rect: Rect)
        ensures
            rect == self.spec_border_box(),
    {
        self.padding_box().expanded_by(self.border)
    }

    /// The area covered by the content, its padding, its border and its
    /// margin.
    #[verifier::when_used_as_spec(spec_margin_box)]
    pub fn margin_box(self) -> (rect: Rect)
        ensures
            rect == self.spec_margin_box(),
    {
        self.border_box().expanded_by(self.margin)
    }
}

impl Default for Dimensions {
    fn default() -> (d: Dimensions)
        ensures
            d == Dimensions::zero(),
    {
        Dimensions {
            content: Rect { x: 0, y: 0, width: 0, height: 0 },
            padding: EdgeSizes { left: 0, right: 0, top: 0, bottom: 0 },
            border: EdgeSizes { left: 0, right: 0, top: 0, bottom: 0 },
            margin: EdgeSizes { left: 0, right: 0, top: 0, bottom: 0 },
        }
    }
}

/// What a box is made for: a block-level node, an inline-level node, or
/// nothing but to hold a run of inline boxes inside a block.
#[derive(Debug)]
pub enum BoxType<'a> {
    BlockNode(&'a StyledNode<'a>),
    InlineNode(&'a StyledNode<'a>),
    AnonymousBlock,
}

/// A box of the layout tree with its children, in document order.
#[derive(Debug)]
pub struct LayoutBox<'a> {
    pub dimensions: Dimensions,
    pub box_type: BoxType<'a>,
    pub children: Vec<LayoutBox<'a>>,
}

/// What a [`BoxType`] holds.
pub enum BoxTypeView {
    BlockNode(StyledNodeView),
    InlineNode(StyledNodeView),
    AnonymousBlock,
}

/// What a [`LayoutBox`] holds.
pub struct LayoutBoxView {
    pub dimensions: Dimensions,
    pub box_type: BoxTypeView,
    pub children: Seq<LayoutBoxView>,
}

impl<'a> View for BoxType<'a> {
    type V = BoxTypeView;

    open spec fn view(&self) -> BoxTypeView {
        match *self {
            BoxType::BlockNode(node) => BoxTypeView::BlockNode(node@),
            BoxType::InlineNode(node) => BoxTypeView::InlineNode(node@),
            BoxType::AnonymousBlock => BoxTypeView::AnonymousBlock,
        }
    }
}

impl<'a> View for LayoutBox<'a> {
    type V = LayoutBoxView;

    open spec fn view(&self) -> LayoutBoxView
        decreases self,
    {
        LayoutBoxView {
            dimensions: self.dimensions,
            box_type: self.box_type@,
            children: Seq::new(
                self.children.len() as nat,
                |i: int|
                    if 0 <= i < self.children.len() {
                        self.children[i]@
                    } else {
                        arbitrary()
                    },
            ),
        }
    }
}

/// Whether a value is the keyword `auto`.
pub open spec fn is_auto(value: ValueView) -> bool {
    value == ValueView::Keyword("auto"@)
}

/// The horizontal sizes that the width equation leaves open.
pub struct UsedWidths {
    pub width: int,
    pub margin_left: int,
    pub margin_right: int,
}

/// Solves the width equation of a block box: the content width, the two
/// margins and `edges` (borders and padding together) must add up to
/// `available`, the content width of the containing block.
///
/// `auto` counts as zero in the sum. An `auto` width takes what is left, or
/// zero if nothing is. Otherwise an `auto` margin takes what is left, two of
/// them half of it each; but on a box that is too wide they count as zero.
/// Where nothing is `auto`, or the box is too wide, the right margin makes up
/// the difference, and may become negative.
pub open spec fn used_widths(
    width: ValueView,
    margin_left: ValueView,
    margin_right: ValueView,
    edges: int,
    available: int,
) -> UsedWidths {
    let total = margin_left.to_px() + margin_right.to_px() + edges + width.to_px();
    let underflow = available - total;
    if is_auto(width) {
        if underflow >= 0 {
            UsedWidths {
                width: underflow,
                margin_left: margin_left.to_px(),
                margin_right: margin_right.to_px(),
            }
        } else {
            UsedWidths {
                width: 0,
                margin_left: margin_left.to_px(),
                margin_right: margin_right.to_px() + underflow,
            }
        }
    } else {
        let left_auto = is_auto(margin_left) && total <= available;
        let right_auto = is_auto(margin_right) && total <= available;
        if left_auto && right_auto {
            UsedWidths {
                width: width.to_px(),
                margin_left: underflow / 2,
                margin_right: underflow / 2,
            }
        } else if left_auto {
            UsedWidths {
                width: width.to_px(),
                margin_left: underflow,
                margin_right: margin_right.to_px(),
            }
        } else if right_auto {
            UsedWidths {
                width: width.to_px(),
                margin_left: margin_left.to_px(),
                margin_right: underflow,
            }
        } else {
            UsedWidths {
                width: width.to_px(),
                margin_left: margin_left.to_px(),
                margin_right: margin_right.to_px() + underflow,
            }
        }
    }
}

/// The length that every edge has unless the style says otherwise.
pub open spec fn zero_length() -> ValueView {
    ValueView::Length(0, Unit::Px)
}

/// The property `width` of a node, `auto` unless the style says otherwise.
pub open spec fn width_of(style: StyledNodeView) -> ValueView {
    match style.value("width"@) {
        Some(width) => width,
        None => ValueView::Keyword("auto"@),
    }
}

/// The dimensions `d` with the horizontal sizes that the style of a block
/// box gives it inside `containing_block`: padding and borders as specified,
/// the width and the margins as the width equation leaves them.
pub open spec fn with_block_width(
    d: Dimensions,
    style: StyledNodeView,
    containing_block: Dimensions,
) -> Dimensions {
    let margin_left = style.lookup("margin-left"@, "margin"@, zero_length());
    let margin_right = style.lookup("margin-right"@, "margin"@, zero_length());
    let border_left = style.lookup("border-left-width"@, "border-width"@, zero_length());
    let border_right = style.lookup("border-right-width"@, "border-width"@, zero_length());
    let padding_left = style.lookup("padding-left"@, "padding"@, zero_length());
    let padding_right = style.lookup("padding-right"@, "padding"@, zero_length());
    let used = used_widths(
        width_of(style),
        margin_left,
        margin_right,
        border_left.to_px() + border_right.to_px() + padding_left.to_px() + padding_right.to_px(),
        containing_block.content.width as int,
    );
    Dimensions {
        content: Rect { width: saturated(used.width), ..d.content },
        padding: EdgeSizes {
            left: saturated(padding_left.to_px()),
            right: saturated(padding_right.to_px()),
            ..d.padding
        },
        border: EdgeSizes {
            left: saturated(border_left.to_px()),
            right: saturated(border_right.to_px()),
            ..d.border
        },
        margin: EdgeSizes {
            left: saturated(used.margin_left),
            right: saturated(used.margin_right),
            ..d.margin
        },
    }
}

/// The dimensions `d` with the vertical edges that the style of a block box
/// gives it, and with its content placed inside `containing_block`: to the
/// right of its own left edges, and below everything that the containing
/// block already holds. An `auto` margin above or below is zero.
pub open spec fn with_block_position(
    d: Dimensions,
    style: StyledNodeView,
    containing_block: Dimensions,
) -> Dimensions {
    let margin_top = style.lookup("margin-top"@, "margin"@, zero_length()).to_px();
    let margin_bottom = style.lookup("margin-bottom"@, "margin"@, zero_length()).to_px();
    let border_top = style.lookup("border-top-width"@, "border-width"@, zero_length()).to_px();
    let border_bottom = style.lookup(
        "border-bottom-width"@,
        "border-width"@,
        zero_length(),
    ).to_px();
    let padding_top = style.lookup("padding-top"@, "padding"@, zero_length()).to_px();
    let padding_bottom = style.lookup("padding-bottom"@, "padding"@, zero_length()).to_px();
    Dimensions {
        content: Rect {
            x: saturated(
                containing_block.content.x + d.margin.left + d.border.left + d.padding.left,
            ),
            y: saturated(
                containing_block.content.height + containing_block.content.y + margin_top
                    + border_top + padding_top,
            ),
            ..d.content
        },
        padding: EdgeSizes {
            top: saturated(padding_top),
            bottom: saturated(padding_bottom),
            ..d.padding
        },
        border: EdgeSizes {
            top: saturated(border_top),
            bottom: saturated(border_bottom),
            ..d.border
        },
        margin: EdgeSizes {
            top: saturated(margin_top),
            bottom: saturated(margin_bottom),
            ..d.margin
        },
    }
}

/// The dimensions `d` with the content made taller by the height of the
/// margin box of a child.
pub open spec fn grown_by(d: Dimensions, child: Dimensions) -> Dimensions {
    Dimensions {
        content: Rect {
            height: saturated(d.content.height + child.margin_box().height),
            ..d.content
        },
        ..d
    }
}

/// The dimensions `d` with the height that the style sets, if it sets a
/// length; else `d` as it is.
pub open spec fn with_block_height(d: Dimensions, style: StyledNodeView) -> Dimensions {
    match style.value("height"@) {
        Some(ValueView::Length(height, Unit::Px)) => Dimensions {
            content: Rect { height: height, ..d.content },
            ..d
        },
        _ => d,
    }
}

/// Children that were laid out one below the other, and the dimensions of
/// their parent, grown to hold them.
pub struct Stacked {
    pub children: Seq<LayoutBoxView>,
    pub dimensions: Dimensions,
}

/// Lays out the first `n` of `children` inside a parent with the dimensions
/// `d`: each child is laid out in the parent as the children before it have
/// left it, and the parent then grows by the height of the child's margin
/// box.
pub open spec fn stacked(children: Seq<LayoutBoxView>, d: Dimensions, n: nat) -> Stacked
    decreases children, n,
{
    if n == 0 || n > children.len() {
        Stacked { children: Seq::empty(), dimensions: d }
    } else {
        let before = stacked(children, d, (n - 1) as nat);
        let child = children[n - 1].laid_out(before.dimensions);
        Stacked {
            children: before.children.push(child),
            dimensions: grown_by(before.dimensions, child.dimensions),
        }
    }
}

impl LayoutBoxView {
    /// The box after layout inside `containing_block`.
    ///
    /// A block box first gets its width, then its position; then its
    /// children are laid out inside it, one below the other, and at last it
    /// gets its height: the one that its style sets, or else the one that
    /// its children gave it. Other boxes stay as they are.
    pub open spec fn laid_out(self, containing_block: Dimensions) -> LayoutBoxView
        decreases self, 0nat,
    {
        match self.box_type {
            BoxTypeView::BlockNode(style) => {
                let d = with_block_position(
                    with_block_width(self.dimensions, style, containing_block),
                    style,
                    containing_block,
                );
                let inside = stacked(self.children, d, self.children.len());
                LayoutBoxView {
                    dimensions: with_block_height(inside.dimensions, style),
                    box_type: self.box_type,
                    children: inside.children,
                }
            },
            _ => self,
        }
    }
}

/// Why a styled tree has no layout tree.
#[derive(Clone, Copy, Debug, PartialEq, Eq, Structural)]
pub enum LayoutError {
    /// The root has `display: none`: there is nothing to lay out.
    RootHidden,
}

impl LayoutError {
    /// The error in words.
    pub fn message(&self) -> (text: String)
        ensures
            text@ == "root has display:none"@,
    {
        "root has display:none".to_owned()
    }
}

/// The kind of box that a styled node makes: a block box where it is
/// displayed as a block, an inline box otherwise.
pub open spec fn box_type_of(style: StyledNodeView) -> BoxTypeView {
    if style.display() == Display::Block {
        BoxTypeView::BlockNode(style)
    } else {
        BoxTypeView::InlineNode(style)
    }
}

/// A box that has not been laid out.
pub open spec fn fresh_box(box_type: BoxTypeView, children: Seq<LayoutBoxView>) -> LayoutBoxView {
    LayoutBoxView { dimensions: Dimensions::zero(), box_type, children }
}

/// The children of a box after the inline box `child` has joined them.
/// Inside a block box it goes into the anonymous block at the end, or into a
/// new one if the last child is none; inside any other box it becomes a
/// child like the others.
pub open spec fn with_inline_child(
    boxes: Seq<LayoutBoxView>,
    in_block: bool,
    child: LayoutBoxView,
) -> Seq<LayoutBoxView> {
    if !in_block {
        boxes.push(child)
    } else if boxes.len() > 0 && boxes.last().box_type is AnonymousBlock {
        boxes.update(
            boxes.len() - 1,
            LayoutBoxView { children: boxes.last().children.push(child), ..boxes.last() },
        )
    } else {
        boxes.push(fresh_box(BoxTypeView::AnonymousBlock, seq![child]))
    }
}

/// The child boxes that the first `n` children of a styled node make: a
/// block child becomes a child box, an inline child joins the inline
/// children before it, and a child with `display: none` makes nothing.
pub open spec fn child_boxes(style: StyledNodeView, n: nat) -> Seq<LayoutBoxView>
    decreases style.children, n,
{
    if n == 0 || n > style.children.len() {
        Seq::empty()
    } else {
        let before = child_boxes(style, (n - 1) as nat);
        let child = style.children[n - 1];
        match child.display() {
            Display::Block => before.push(box_tree(child)),
            Display::Inline => with_inline_child(
                before,
                style.display() == Display::Block,
                box_tree(child),
            ),
            Display::Hidden => before,
        }
    }
}

/// The tree of boxes that a styled node and its descendants make, before
/// layout.
pub open spec fn box_tree(style: StyledNodeView) -> LayoutBoxView
    decreases style, 0nat,
{
    fresh_box(box_type_of(style), child_boxes(style, style.children.len()))
}

impl BoxTypeView {
    /// The styled node that the box was made for. An anonymous block has
    /// none.
    pub open spec fn style_node(self) -> Option<StyledNodeView> {
        match self {
            BoxTypeView::BlockNode(node) => Some(node),
            BoxTypeView::InlineNode(node) => Some(node),
            BoxTypeView::AnonymousBlock => None,
        }
    }
}

/// Whether `value` is the keyword `auto`.
pub fn value_is_auto(value: &Value) -> (auto: bool)
    ensures
        auto == is_auto(value@),
{
    match value {
        Value::Keyword(word) => crate::text::str_eq(word.as_str(), "auto"),
        _ => false,
    }
}

/// Solves the width equation of a block box and hands back the used width,
/// left margin and right margin, each brought into the range of a
/// coordinate.
pub fn solve_block_width(
    width: &Value,
    margin_left: &Value,
    margin_right: &Value,
    border_left: i64,
    border_right: i64,
    padding_left: i64,
    padding_right: i64,
    available: i64,
) -> (used: (i64, i64, i64))
    ensures
        ({
            let exact = used_widths(
                width@,
                margin_left@,
                margin_right@,
                border_left + border_right + padding_left + padding_right,
                available as int,
            );
            &&& used.0 == saturated(exact.width)
            &&& used.1 == saturated(exact.margin_left)
            &&& used.2 == saturated(exact.margin_right)
        }),
{
    let available: i128 = available as i128;
    let total: i128 = margin_left.to_px() as i128 + margin_right.to_px() as i128
        + border_left as i128 + border_right as i128 + padding_left as i128
        + padding_right as i128 + width.to_px() as i128;

    let width_auto = value_is_auto(width);
    let mut left_auto = value_is_auto(margin_left);
    let mut right_auto = value_is_auto(margin_right);

    // A box that is too wide has no room to give to its margins.
    if !width_auto && total > available {
        left_auto = false;
        right_auto = false;
    }

    // What is left of the container's width; negative on overflow.
    let underflow: i128 = available - total;

    let mut used_width: i128 = width.to_px() as i128;
    let mut used_left: i128 = margin_left.to_px() as i128;
    let mut used_right: i128 = margin_right.to_px() as i128;

    if width_auto {
        // Auto margins beside an auto width are zero.
        if underflow >= 0 {
            used_width = underflow;
        } else {
            // Width can't be negative. Adjust the right margin instead.
            used_width = 0;
            used_right = used_right + underflow;
        }
    } else if left_auto && right_auto {
        used_left = underflow / 2;
        used_right = underflow / 2;
    } else if left_auto {
        used_left = underflow;
    } else if right_auto {
        used_right = underflow;
    } else {
        // Nothing can give: the right margin takes the difference.
        used_right = used_right + underflow;
    }
    (saturate(used_width), saturate(used_left), saturate(used_right))
}

impl<'a> LayoutBox<'a> {
    /// The view of a box holds the views of its children, one for one.
    pub proof fn lemma_view(self)
        ensures
            self@.dimensions == self.dimensions,
            self@.box_type == self.box_type@,
            self@.children.len() == self.children.len(),
            forall|i: int|
                0 <= i < self.children.len() ==> #[trigger] self@.children[i]
                    == self.children[i]@,
    {
        reveal_with_fuel(<LayoutBox as View>::view, 2);
    }

    /// A box of the given kind, without children and not yet laid out.
    pub fn new(box_type: BoxType<'a>) -> (b: LayoutBox<'a>)
        ensures
            b@ == (LayoutBoxView {
                dimensions: Dimensions::zero(),
                box_type: box_type@,
                children: Seq::empty(),
            }),
    {
        let b = LayoutBox { box_type, dimensions: Dimensions::default(), children: Vec::new() };
        proof {
            b.lemma_view();
            assert(b@.children =~= Seq::empty());
        }
        b
    }

    /// The styled node that the box was made for.
    pub fn get_style_node(&self) -> (node: &'a StyledNode<'a>)
        requires
            !(self.box_type is AnonymousBlock),
        ensures
            self@.box_type.style_node() == Some(node@),
    {
        proof {
            self.lemma_view();
        }
        match self.box_type {
            BoxType::BlockNode(node) => node,
            BoxType::InlineNode(node) => node,
            BoxType::AnonymousBlock => vstd::pervasive::unreached(),
        }
    }

    /// Gives the box its width, and its margins, borders and padding to the
    /// left and right, inside `containing_block`.
    pub fn calculate_block_width(&mut self, containing_block: Dimensions)
        requires
            !(old(self).box_type is AnonymousBlock),
        ensures
            final(self).dimensions == with_block_width(
                old(self).dimensions,
                old(self)@.box_type.style_node()->0,
                containing_block,
            ),
            final(self).box_type == old(self).box_type,
            final(self).children == old(self).children,
    {
        let style = self.get_style_node();

        // `width` has initial value `auto`.
        let auto = Value::Keyword("auto".to_owned());
        let width = match style.value("width") {
            Some(width) => width,
            None => auto,
        };

        // margin, border, and padding have initial value 0.
        let zero = Value::Length(0, Unit::Px);

        let margin_left = style.lookup("margin-left", "margin", &zero);
        let margin_right = style.lookup("margin-right", "margin", &zero);

        let border_left = style.lookup("border-left-width", "border-width", &zero);
        let border_right = style.lookup("border-right-width", "border-width", &zero);

        let padding_left = style.lookup("padding-left", "padding", &zero);
        let padding_right = style.lookup("padding-right", "padding", &zero);

        let used = solve_block_width(
            &width,
            &margin_left,
            &margin_right,
            border_left.to_px(),
            border_right.to_px(),
            padding_left.to_px(),
            padding_right.to_px(),
            containing_block.content.width,
        );

        self.dimensions.content.width = used.0;

        self.dimensions.padding.left = padding_left.to_px();
        self.dimensions.padding.right = padding_right.to_px();

        self.dimensions.border.left = border_left.to_px();
        self.dimensions.border.right = border_right.to_px();

        self.dimensions.margin.left = used.1;
        self.dimensions.margin.right = used.2;
    }

    /// Gives the box its margins, borders and padding above and below, and
    /// places its content inside `containing_block`.
    pub fn calculate_block_position(&mut self, containing_block: Dimensions)
        requires
            !(old(self).box_type is AnonymousBlock),
        ensures
            final(self).dimensions == with_block_position(
                old(self).dimensions,
                old(self)@.box_type.style_node()->0,
                containing_block,
            ),
            final(self).box_type == old(self).box_type,
            final(self).children == old(self).children,
    {
        let style = self.get_style_node();

        // margin, border, and padding have initial value 0.
        let zero = Value::Length(0, Unit::Px);

        // If margin-top or margin-bottom is `auto`, the used value is zero.
        self.dimensions.margin.top = style.lookup("margin-top", "margin", &zero).to_px();
        self.dimensions.margin.bottom = style.lookup("margin-bottom", "margin", &zero).to_px();

        self.dimensions.border.top = style.lookup(
            "border-top-width",
            "border-width",
            &zero,
        ).to_px();
        self.dimensions.border.bottom = style.lookup(
            "border-bottom-width",
            "border-width",
            &zero,
        ).to_px();

        self.dimensions.padding.top = style.lookup("padding-top", "padding", &zero).to_px();
        self.dimensions.padding.bottom = style.lookup("padding-bottom", "padding", &zero).to_px();

        self.dimensions.content.x = saturate(
            containing_block.content.x as i128 + self.dimensions.margin.left as i128
                + self.dimensions.border.left as i128 + self.dimensions.padding.left as i128,
        );

        // Position the box below all the previous boxes in the container.
        self.dimensions.content.y = saturate(
            containing_block.content.height as i128 + containing_block.content.y as i128
                + self.dimensions.margin.top as i128 + self.dimensions.border.top as i128
                + self.dimensions.padding.top as i128,
        );
    }

    /// Sets the height of the box where its style gives one. Without, the
    /// height that the children gave it stands.
    pub fn calculate_block_height(&mut self)
        requires
            !(old(self).box_type is AnonymousBlock),
        ensures
            final(self).dimensions == with_block_height(
                old(self).dimensions,
                old(self)@.box_type.style_node()->0,
            ),
            final(self).box_type == old(self).box_type,
            final(self).children == old(self).children,
    {
        match self.get_style_node().value("height") {
            Some(Value::Length(height, Unit::Px)) => {
                self.dimensions.content.height = height;
            },
            _ => {},
        }
    }

    /// Lays out the children of the box inside it, one below the other, and
    /// lets the box grow by the height of each.
    pub fn layout_block_children(&mut self)
        ensures
            final(self)@ == ({
                let inside = stacked(
                    old(self)@.children,
                    old(self).dimensions,
                    old(self)@.children.len(),
                );
                LayoutBoxView {
                    dimensions: inside.dimensions,
                    box_type: old(self)@.box_type,
                    children: inside.children,
                }
            }),
            final(self).box_type == old(self).box_type,
        decreases old(self).children, 0nat,
    {
        let n = self.children.len();
        let mut i: usize = 0;
        proof {
            self.lemma_view();
        }
        while i < n
            invariant
                i <= n,
                n == self.children.len(),
                n == old(self).children.len(),
                self.box_type == old(self).box_type,
                forall|j: int| i <= j < n ==> self.children[j] == old(self).children[j],
                forall|j: int|
                    0 <= j < n ==> #[trigger] old(self)@.children[j] == old(self).children[j]@,
                old(self)@.children.len() == n,
                ({
                    let inside = stacked(old(self)@.children, old(self).dimensions, i as nat);
                    &&& inside.dimensions == self.dimensions
                    &&& inside.children.len() == i
                    &&& forall|j: int|
                        0 <= j < i ==> #[trigger] inside.children[j] == self.children[j]@
                }),
            decreases n - i,
        {
            let d = self.dimensions;
            self.children[i].layout(d);
            // Each child goes below the one before it.
            let height = self.children[i].dimensions.margin_box().height;
            self.dimensions.content.height = saturate(
                self.dimensions.content.height as i128 + height as i128,
            );
            proof {
                self.children[i as int].lemma_view();
            }
            i = i + 1;
        }
        proof {
            self.lemma_view();
            let inside = stacked(old(self)@.children, old(self).dimensions, n as nat);
            assert(self@.children =~= inside.children);
        }
    }

    /// Lays out a block box and what is inside it.
    pub fn layout_block(&mut self, containing_block: Dimensions)
        requires
            old(self).box_type is BlockNode,
        ensures
            final(self)@ == old(self)@.laid_out(containing_block),
        decreases old(self).children, 1nat,
    {
        proof {
            self.lemma_view();
        }
        // A child's width can depend on that of its parent: the width of
        // this box comes before its children.
        self.calculate_block_width(containing_block);

        // Where the box is inside its container.
        self.calculate_block_position(containing_block);

        proof {
            self.lemma_view();
            assert(self@.children =~= old(self)@.children);
        }
        self.layout_block_children();

        // The height of a parent can depend on that of its children: it
        // comes after them.
        proof {
            self.lemma_view();
        }
        self.calculate_block_height();
        proof {
            self.lemma_view();
        }
    }

    /// Lays out the box and what is inside it. Only block boxes are laid
    /// out: an inline box or an anonymous block stays as it is.
    pub fn layout(&mut self, containing_block: Dimensions)
        ensures
            final(self)@ == old(self)@.laid_out(containing_block),
        decreases old(self).children, 2nat,
    {
        proof {
            self.lemma_view();
        }
        match self.box_type {
            BoxType::BlockNode(_) => self.layout_block(containing_block),
            BoxType::InlineNode(_) => {},
            BoxType::AnonymousBlock => {},
        }
    }

    /// The box that a new inline child goes into: the box itself, unless it
    /// is a block box. A block box keeps its inline children in anonymous
    /// blocks: the one at its end, or a new one if its last child is none.
    pub fn get_inline_container(&mut self) -> (container: &mut LayoutBox<'a>)
        ensures
            !(old(self).box_type is BlockNode) ==> {
                &&& *container == *old(self)
                &&& *final(self) == *final(container)
            },
            old(self).box_type is BlockNode ==> {
                let reused = old(self).children.len() > 0 && old(
                    self,
                ).children@.last().box_type is AnonymousBlock;
                &&& final(self).dimensions == old(self).dimensions
                &&& final(self).box_type == old(self).box_type
                &&& reused ==> {
                    &&& *container == old(self).children@.last()
                    &&& final(self).children@ == old(self).children@.update(
                        old(self).children.len() - 1,
                        *final(container),
                    )
                }
                &&& !reused ==> {
                    &&& container@ == fresh_box(BoxTypeView::AnonymousBlock, Seq::empty())
                    &&& final(self).children@ == old(self).children@.push(*final(container))
                }
            },
    {
        match self.box_type {
            BoxType::InlineNode(_) | BoxType::AnonymousBlock => self,
            BoxType::BlockNode(_) => {
                // If we've just generated an anonymous block box, keep using it.
                // Otherwise, create a new one.
                let n = self.children.len();
                let reuse = n > 0 && match self.children[n - 1].box_type {
                    BoxType::AnonymousBlock => true,
                    _ => false,
                };
                if !reuse {
                    self.children.push(LayoutBox::new(BoxType::AnonymousBlock));
                }
                let last = self.children.len() - 1;
                &mut self.children[last]
            },
        }
    }
}

/// Builds the boxes of a styled node that is displayed, and of its
/// descendants.
fn build_box<'a>(style_node: &'a StyledNode<'a>) -> (root: LayoutBox<'a>)
    requires
        style_node@.display() != Display::Hidden,
    ensures
        root@ == box_tree(style_node@),
    decreases style_node,
{
    // Create the root box.
    let mut root = LayoutBox::new(
        match style_node.display() {
            Display::Block => BoxType::BlockNode(style_node),
            _ => BoxType::InlineNode(style_node),
        },
    );
    proof {
        style_node.lemma_view();
        root.lemma_view();
    }

    // Create the descendant boxes.
    let n = style_node.children.len();
    let mut i: usize = 0;
    while i < n
        invariant
            i <= n,
            n == style_node.children.len(),
            n == style_node@.children.len(),
            forall|j: int|
                0 <= j < n ==> #[trigger] style_node@.children[j] == style_node.children[j]@,
            root@ == fresh_box(box_type_of(style_node@), child_boxes(style_node@, i as nat)),
            root.box_type is BlockNode <==> style_node@.display() == Display::Block,
        decreases n - i,
    {
        let child = &style_node.children[i];
        let ghost before = root;
        proof {
            before.lemma_view();
        }
        match child.display() {
            Display::Block => {
                let child_box = build_box(child);
                root.children.push(child_box);
                proof {
                    root.lemma_view();
                    assert(root@.children =~= before@.children.push(child_box@));
                }
            },
            Display::Inline => {
                let child_box = build_box(child);
                let container = root.get_inline_container();
                let ghost held = *container;
                container.children.push(child_box);
                proof {
                    held.lemma_view();
                    container.lemma_view();
                    root.lemma_view();
                    assert(container@.children =~= held@.children.push(child_box@));
                    if before.box_type is BlockNode {
                        if before.children.len() > 0
                            && before.children@.last().box_type is AnonymousBlock {
                            before.children@.last().lemma_view();
                            assert(before@.children.last() == before.children@.last()@);
                        } else {
                            assert(held@.children.push(child_box@) =~= seq![child_box@]);
                            if before.children.len() > 0 {
                                before.children@.last().lemma_view();
                                assert(before@.children.last() == before.children@.last()@);
                            }
                        }
                    }
                    assert(root@.children =~= with_inline_child(
                        before@.children,
                        style_node@.display() == Display::Block,
                        child_box@,
                    ));
                }
            },
            Display::Hidden => {},  // A node with `display: none` has no box.
        }
        i = i + 1;
    }
    root
}

/// Builds the tree of boxes of a styled tree, without laying it out. A root
/// with `display: none` has no boxes: that is an error.
pub fn build_layout_tree<'a>(style_node: &'a StyledNode<'a>) -> (tree: Result<
    LayoutBox<'a>,
    LayoutError,
>)
    ensures
        match tree {
            Ok(root) => {
                &&& style_node@.display() != Display::Hidden
                &&& root@ == box_tree(style_node@)
                &&& nodes_of(root@) == displayed(style_node@)
                &&& root.box_type is BlockNode ==> inline_runs_wrapped(root@.children)
            },
            Err(error) => style_node@.display() == Display::Hidden && error
                == LayoutError::RootHidden,
        },
{
    match style_node.display() {
        Display::Hidden => Err(LayoutError::RootHidden),
        _ => {
            let root = build_box(style_node);
            proof {
                root.lemma_view();
                lemma_boxes_of_displayed_nodes(style_node@);
                if style_node@.display() == Display::Block {
                    lemma_inline_runs_wrapped(style_node@, style_node@.children.len());
                }
            }
            Ok(root)
        },
    }
}

/// Whether two trees of boxes have the same shape: box for box they are of
/// the same kind, made for the same node, and have as many children.
pub open spec fn same_shape(a: LayoutBoxView, b: LayoutBoxView) -> bool
    decreases a,
{
    &&& a.box_type == b.box_type
    &&& a.children.len() == b.children.len()
    &&& forall|i: int|
        0 <= i < a.children.len() ==> same_shape(#[trigger] a.children[i], b.children[i])
}

/// A tree of boxes has its own shape.
pub proof fn lemma_same_shape_as_itself(b: LayoutBoxView)
    ensures
        same_shape(b, b),
    decreases b,
{
    assert forall|i: int| 0 <= i < b.children.len() implies same_shape(
        #[trigger] b.children[i],
        b.children[i],
    ) by {
        lemma_same_shape_as_itself(b.children[i]);
    }
}

/// Layout gives boxes their dimensions and leaves the shape of the tree as
/// it is.
pub proof fn lemma_layout_keeps_the_shape(b: LayoutBoxView, containing_block: Dimensions)
    ensures
        same_shape(b, b.laid_out(containing_block)),
    decreases b, 0nat,
{
    match b.box_type {
        BoxTypeView::BlockNode(style) => {
            let d = with_block_position(
                with_block_width(b.dimensions, style, containing_block),
                style,
                containing_block,
            );
            lemma_stacking_keeps_the_shape(b.children, d, b.children.len());
        },
        _ => {
            lemma_same_shape_as_itself(b);
        },
    }
}

/// Laying out children leaves their number and their shapes as they are.
pub proof fn lemma_stacking_keeps_the_shape(children: Seq<LayoutBoxView>, d: Dimensions, n: nat)
    requires
        n <= children.len(),
    ensures
        stacked(children, d, n).children.len() == n,
        forall|i: int|
            0 <= i < n ==> same_shape(#[trigger] children[i], stacked(children, d, n).children[i]),
    decreases children, n,
{
    if n > 0 {
        lemma_stacking_keeps_the_shape(children, d, (n - 1) as nat);
        let before = stacked(children, d, (n - 1) as nat);
        lemma_layout_keeps_the_shape(children[n - 1], before.dimensions);
        let now = stacked(children, d, n);
        assert forall|i: int| 0 <= i < n implies same_shape(
            #[trigger] children[i],
            now.children[i],
        ) by {
            if i < n - 1 {
                assert(now.children[i] == before.children[i]);
            }
        }
    }
}

/// Laying out children changes nothing of their parent but the height of
/// its content.
pub proof fn lemma_stacked_changes_height_only(
    children: Seq<LayoutBoxView>,
    d: Dimensions,
    n: nat,
)
    ensures
        stacked(children, d, n).dimensions == (Dimensions {
            content: Rect { height: stacked(children, d, n).dimensions.content.height, ..d.content },
            ..d
        }),
    decreases n,
{
    if n != 0 && n <= children.len() {
        lemma_stacked_changes_height_only(children, d, (n - 1) as nat);
    }
}

/// A block box with an `auto` width and no margins, borders or padding to
/// its left and right is exactly as wide as the content of its containing
/// block.
pub proof fn lemma_auto_width_fills(
    b: LayoutBoxView,
    style: StyledNodeView,
    containing_block: Dimensions,
)
    requires
        b.box_type == BoxTypeView::BlockNode(style),
        is_auto(width_of(style)),
        style.lookup("margin-left"@, "margin"@, zero_length()).to_px() == 0,
        style.lookup("margin-right"@, "margin"@, zero_length()).to_px() == 0,
        style.lookup("border-left-width"@, "border-width"@, zero_length()).to_px() == 0,
        style.lookup("border-right-width"@, "border-width"@, zero_length()).to_px() == 0,
        style.lookup("padding-left"@, "padding"@, zero_length()).to_px() == 0,
        style.lookup("padding-right"@, "padding"@, zero_length()).to_px() == 0,
        containing_block.content.width >= 0,
    ensures
        b.laid_out(containing_block).dimensions.content.width == containing_block.content.width,
        with_block_width(b.dimensions, style, containing_block).content.width
            == containing_block.content.width,
{
    let d = with_block_position(
        with_block_width(b.dimensions, style, containing_block),
        style,
        containing_block,
    );
    lemma_stacked_changes_height_only(b.children, d, b.children.len());
}

/// A block box with a width of its own and `auto` for both margins, which
/// fits into its containing block, stands in the middle: each margin is
/// half of what the width, the borders and the padding leave of the
/// containing block's width.
pub proof fn lemma_auto_margins_centre(
    b: LayoutBoxView,
    style: StyledNodeView,
    containing_block: Dimensions,
)
    requires
        b.box_type == BoxTypeView::BlockNode(style),
        width_of(style) is Length,
        is_auto(style.lookup("margin-left"@, "margin"@, zero_length())),
        is_auto(style.lookup("margin-right"@, "margin"@, zero_length())),
        width_of(style).to_px() + style.lookup(
            "border-left-width"@,
            "border-width"@,
            zero_length(),
        ).to_px() + style.lookup("border-right-width"@, "border-width"@, zero_length()).to_px()
            + style.lookup("padding-left"@, "padding"@, zero_length()).to_px() + style.lookup(
            "padding-right"@,
            "padding"@,
            zero_length(),
        ).to_px() <= containing_block.content.width,
    ensures
        ({
            let taken = width_of(style).to_px() + style.lookup(
                "border-left-width"@,
                "border-width"@,
                zero_length(),
            ).to_px() + style.lookup(
                "border-right-width"@,
                "border-width"@,
                zero_length(),
            ).to_px() + style.lookup("padding-left"@, "padding"@, zero_length()).to_px()
                + style.lookup("padding-right"@, "padding"@, zero_length()).to_px();
            let half = (containing_block.content.width - taken) / 2;
            &&& b.laid_out(containing_block).dimensions.margin.left == saturated(half)
            &&& b.laid_out(containing_block).dimensions.margin.right == saturated(half)
            &&& half <= i64::MAX ==> b.laid_out(containing_block).dimensions.margin.left == half
            &&& half <= i64::MAX ==> b.laid_out(containing_block).dimensions.margin.right
                == half
        }),
{
    let d = with_block_position(
        with_block_width(b.dimensions, style, containing_block),
        style,
        containing_block,
    );
    lemma_stacked_changes_height_only(b.children, d, b.children.len());
}

/// Inside a block box every run of inline children stands in one anonymous
/// block: no child of the box is an inline box, every anonymous block
/// among its children holds inline boxes, at least one, and no two
/// anonymous blocks stand side by side.
pub open spec fn inline_runs_wrapped(boxes: Seq<LayoutBoxView>) -> bool {
    &&& forall|i: int| 0 <= i < boxes.len() ==> !((#[trigger] boxes[i]).box_type is InlineNode)
    &&& forall|i: int|
        0 <= i < boxes.len() && (#[trigger] boxes[i]).box_type is AnonymousBlock ==> {
            &&& boxes[i].children.len() > 0
            &&& forall|j: int|
                0 <= j < boxes[i].children.len() ==> (#[trigger] boxes[i].children[j]).box_type is InlineNode
        }
    &&& forall|i: int|
        0 < i < boxes.len() && (#[trigger] boxes[i]).box_type is AnonymousBlock ==> !(boxes[i
            - 1].box_type is AnonymousBlock)
}

/// A block box keeps the runs wrapped when it becomes the last child.
proof fn lemma_wrapped_with_block(boxes: Seq<LayoutBoxView>, child: LayoutBoxView)
    requires
        inline_runs_wrapped(boxes),
        child.box_type is BlockNode,
    ensures
        inline_runs_wrapped(boxes.push(child)),
{
    let now = boxes.push(child);
    assert forall|i: int| 0 <= i < boxes.len() implies #[trigger] now[i] == boxes[i] by {}
}

/// An inline box keeps the runs wrapped when it joins the children of a
/// block box.
proof fn lemma_wrapped_with_inline(boxes: Seq<LayoutBoxView>, child: LayoutBoxView)
    requires
        inline_runs_wrapped(boxes),
        child.box_type is InlineNode,
    ensures
        inline_runs_wrapped(with_inline_child(boxes, true, child)),
{
    let now = with_inline_child(boxes, true, child);
    if boxes.len() > 0 && boxes.last().box_type is AnonymousBlock {
        let last = boxes.len() - 1;
        assert forall|i: int| 0 <= i < last implies #[trigger] now[i] == boxes[i] by {}
        assert(now[last].box_type == boxes[last].box_type);
        assert forall|j: int| 0 <= j < now[last].children.len() implies (
        #[trigger] now[last].children[j]).box_type is InlineNode by {
            if j < boxes[last].children.len() {
                assert(now[last].children[j] == boxes[last].children[j]);
            }
        }
        assert forall|i: int|
            0 <= i < now.len() && (#[trigger] now[i]).box_type is AnonymousBlock implies {
            &&& now[i].children.len() > 0
            &&& forall|j: int|
                0 <= j < now[i].children.len() ==> (
                #[trigger] now[i].children[j]).box_type is InlineNode
        } by {
            if i < last {
                assert(now[i] == boxes[i]);
            }
        }
        assert forall|i: int|
            0 < i < now.len() && (#[trigger] now[i]).box_type is AnonymousBlock implies !(now[i
                - 1].box_type is AnonymousBlock) by {
            assert(now[i].box_type == boxes[i].box_type);
            assert(now[i - 1].box_type == boxes[i - 1].box_type);
        }
    } else {
        assert forall|i: int| 0 <= i < boxes.len() implies #[trigger] now[i] == boxes[i] by {}
        let wrapper = now[boxes.len() as int];
        assert(wrapper.children[0] == child);
    }
}

/// The children of a block box hold their inline boxes in anonymous blocks,
/// one for each run.
pub proof fn lemma_inline_runs_wrapped(style: StyledNodeView, n: nat)
    requires
        style.display() == Display::Block,
        n <= style.children.len(),
    ensures
        inline_runs_wrapped(child_boxes(style, n)),
    decreases n,
{
    if n > 0 {
        lemma_inline_runs_wrapped(style, (n - 1) as nat);
        let before = child_boxes(style, (n - 1) as nat);
        let child = style.children[n - 1];
        match child.display() {
            Display::Block => {
                lemma_wrapped_with_block(before, box_tree(child));
            },
            Display::Inline => {
                lemma_wrapped_with_inline(before, box_tree(child));
            },
            Display::Hidden => {},
        }
    }
}

/// Two inline children that follow each other inside a block share one
/// anonymous block: the second one makes no new box in the parent, and
/// joins the first at the end of the parent's last box.
pub proof fn lemma_adjacent_inline_children_share_a_box(style: StyledNodeView, n: nat)
    requires
        style.display() == Display::Block,
        0 < n < style.children.len(),
        style.children[n - 1].display() == Display::Inline,
        style.children[n as int].display() == Display::Inline,
    ensures
        ({
            let before = child_boxes(style, n);
            let now = child_boxes(style, n + 1);
            let run = now.last().children;
            &&& now.len() == before.len()
            &&& now.len() > 0
            &&& forall|i: int| 0 <= i < now.len() - 1 ==> now[i] == before[i]
            &&& now.last().box_type is AnonymousBlock
            &&& run.len() >= 2
            &&& run[run.len() - 2] == box_tree(style.children[n - 1])
            &&& run[run.len() - 1] == box_tree(style.children[n as int])
        }),
{
    let earlier = child_boxes(style, (n - 1) as nat);
    let before = child_boxes(style, n);
    let now = child_boxes(style, n + 1);
    assert(before == with_inline_child(earlier, true, box_tree(style.children[n - 1])));
    assert(now == with_inline_child(before, true, box_tree(style.children[n as int])));
}

/// The styled nodes that a box and the boxes inside it were made for, in
/// document order.
pub open spec fn nodes_of(b: LayoutBoxView) -> Seq<StyledNodeView>
    decreases b, 0nat,
{
    let own = match b.box_type.style_node() {
        Some(node) => seq![node],
        None => Seq::empty(),
    };
    own + nodes_of_all(b.children, b.children.len())
}

/// The styled nodes that the first `n` of `boxes` and the boxes inside them
/// were made for, in document order.
pub open spec fn nodes_of_all(boxes: Seq<LayoutBoxView>, n: nat) -> Seq<StyledNodeView>
    decreases boxes, n,
{
    if n == 0 || n > boxes.len() {
        Seq::empty()
    } else {
        nodes_of_all(boxes, (n - 1) as nat) + nodes_of(boxes[n - 1])
    }
}

/// The styled nodes that are displayed: a node with `display: none` and all
/// that is inside it are left out; the others stand in document order.
pub open spec fn displayed(style: StyledNodeView) -> Seq<StyledNodeView>
    decreases style, 0nat,
{
    if style.display() == Display::Hidden {
        Seq::empty()
    } else {
        seq![style] + displayed_children(style, style.children.len())
    }
}

/// The styled nodes among the first `n` children of a node, and inside
/// them, that are displayed.
pub open spec fn displayed_children(style: StyledNodeView, n: nat) -> Seq<StyledNodeView>
    decreases style.children, n,
{
    if n == 0 || n > style.children.len() {
        Seq::empty()
    } else {
        displayed_children(style, (n - 1) as nat) + displayed(style.children[n - 1])
    }
}

/// The nodes of a list of boxes depend on the boxes that are counted alone.
proof fn lemma_nodes_of_prefix(a: Seq<LayoutBoxView>, b: Seq<LayoutBoxView>, n: nat)
    requires
        n <= a.len(),
        n <= b.len(),
        forall|i: int| 0 <= i < n ==> a[i] == b[i],
    ensures
        nodes_of_all(a, n) == nodes_of_all(b, n),
    decreases n,
{
    if n > 0 {
        lemma_nodes_of_prefix(a, b, (n - 1) as nat);
    }
}

/// A new inline child adds its nodes behind those that are there.
proof fn lemma_nodes_with_inline_child(
    boxes: Seq<LayoutBoxView>,
    in_block: bool,
    child: LayoutBoxView,
)
    ensures
        ({
            let now = with_inline_child(boxes, in_block, child);
            nodes_of_all(now, now.len()) == nodes_of_all(boxes, boxes.len()) + nodes_of(child)
        }),
{
    let now = with_inline_child(boxes, in_block, child);
    let empty = Seq::<StyledNodeView>::empty();
    if !in_block {
        lemma_nodes_of_prefix(now, boxes, boxes.len());
    } else if boxes.len() > 0 && boxes.last().box_type is AnonymousBlock {
        let last = boxes.last();
        let grown = now.last();
        let m = (boxes.len() - 1) as nat;
        lemma_nodes_of_prefix(now, boxes, m);
        lemma_nodes_of_prefix(grown.children, last.children, last.children.len());
        assert(nodes_of(grown) == empty + (nodes_of_all(last.children, last.children.len())
            + nodes_of(child)));
        assert(nodes_of(last) == empty + nodes_of_all(last.children, last.children.len()));
        assert(nodes_of(grown) =~= nodes_of(last) + nodes_of(child));
        assert(nodes_of_all(now, now.len()) =~= nodes_of_all(boxes, boxes.len()) + nodes_of(
            child,
        ));
    } else {
        let wrapper = now.last();
        lemma_nodes_of_prefix(now, boxes, boxes.len());
        assert(nodes_of_all(wrapper.children, 0) == empty);
        assert(nodes_of_all(wrapper.children, 1) == empty + nodes_of(child));
        assert(nodes_of(wrapper) =~= nodes_of(child));
    }
}

/// The boxes of a styled tree are made for the nodes that are displayed, one
/// box for each, in document order: a node with `display: none` has no box,
/// and neither has anything inside it.
pub proof fn lemma_boxes_of_displayed_nodes(style: StyledNodeView)
    requires
        style.display() != Display::Hidden,
    ensures
        nodes_of(box_tree(style)) == displayed(style),
    decreases style, 1nat,
{
    lemma_child_boxes_of_displayed_nodes(style, style.children.len());
}

/// The child boxes of a styled node are made for the nodes inside it that
/// are displayed.
pub proof fn lemma_child_boxes_of_displayed_nodes(style: StyledNodeView, n: nat)
    requires
        n <= style.children.len(),
    ensures
        nodes_of_all(child_boxes(style, n), child_boxes(style, n).len()) == displayed_children(
            style,
            n,
        ),
    decreases style, 0nat, n,
{
    if n > 0 {
        lemma_child_boxes_of_displayed_nodes(style, (n - 1) as nat);
        let before = child_boxes(style, (n - 1) as nat);
        let now = child_boxes(style, n);
        let child = style.children[n - 1];
        match child.display() {
            Display::Block => {
                lemma_boxes_of_displayed_nodes(child);
                lemma_nodes_of_prefix(now, before, before.len());
            },
            Display::Inline => {
                lemma_boxes_of_displayed_nodes(child);
                lemma_nodes_with_inline_child(
                    before,
                    style.display() == Display::Block,
                    box_tree(child),
                );
            },
            Display::Hidden => {
                assert(displayed(child) == Seq::<StyledNodeView>::empty());
                assert(displayed_children(style, n) =~= displayed_children(
                    style,
                    (n - 1) as nat,
                ));
            },
        }
    }
}

/// No node that is displayed has `display: none`.
pub proof fn lemma_displayed_nodes_are_not_hidden(style: StyledNodeView, i: int)
    requires
        0 <= i < displayed(style).len(),
    ensures
        displayed(style)[i].display() != Display::Hidden,
    decreases style, 1nat, 0nat,
{
    if i > 0 {
        lemma_displayed_children_are_not_hidden(style, style.children.len(), i - 1);
    }
}

/// No node that is displayed inside another has `display: none`.
pub proof fn lemma_displayed_children_are_not_hidden(style: StyledNodeView, n: nat, i: int)
    requires
        n <= style.children.len(),
        0 <= i < displayed_children(style, n).len(),
    ensures
        displayed_children(style, n)[i].display() != Display::Hidden,
    decreases style, 0nat, n,
{
    if n > 0 {
        let before = displayed_children(style, (n - 1) as nat);
        if i < before.len() {
            lemma_displayed_children_are_not_hidden(style, (n - 1) as nat, i);
        } else {
            lemma_displayed_nodes_are_not_hidden(style.children[n - 1], i - before.len());
        }
    }
}

} // verus!
