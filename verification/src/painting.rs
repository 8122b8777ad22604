//! Painting: the list of rectangles that shows a laid-out tree of boxes.

use crate::css::{saturate, saturated, Color, Value, ValueView};
use crate::layout::{BoxType, Dimensions, LayoutBox, LayoutBoxView, Rect};
use vstd::prelude::*;

verus! {

/// One step of painting.
#[derive(Clone, Copy, Debug, PartialEq, Eq, Structural)]
pub enum DisplayCommand {
    /// Fill a rectangle with one colour.
    SolidColor(Color, Rect),
}

/// The steps of painting, in the order in which they are carried out.
pub type DisplayList = Vec<DisplayCommand>;

/// The colour that the style of a box gives the property `name`. A box
/// without a style, or without a colour under that name, has none.
pub open spec fn color_of(b: LayoutBoxView, name: Seq<char>) -> Option<Color> {
    match b.box_type.style_node() {
        Some(style) => match style.value(name) {
            Some(ValueView::ColorValue(color)) => Some(color),
            _ => None,
        },
        None => None,
    }
}

/// The background of a box: its border box in its background colour, or
/// nothing if it has no such colour.
pub open spec fn background_of(b: LayoutBoxView) -> Seq<DisplayCommand> {
    match color_of(b, "background"@) {
        Some(color) => seq![DisplayCommand::SolidColor(color, b.dimensions.border_box())],
        None => Seq::empty(),
    }
}

/// The strip along the top of the border box where the top border is.
pub open spec fn top_border(d: Dimensions) -> Rect {
    let border_box = d.border_box();
    Rect {
        x: border_box.x,
        y: border_box.y,
        width: border_box.width,
        height: d.border.top,
    }
}

/// The strip along the right of the border box where the right border is.
pub open spec fn right_border(d: Dimensions) -> Rect {
    let border_box = d.border_box();
    Rect {
        x: saturated(border_box.x + border_box.width - d.border.right),
        y: border_box.y,
        width: d.border.right,
        height: border_box.height,
    }
}

/// The strip along the bottom of the border box where the bottom border is.
pub open spec fn bottom_border(d: Dimensions) -> Rect {
    let border_box = d.border_box();
    Rect {
        x: border_box.x,
        y: saturated(border_box.y + border_box.height - d.border.bottom),
        width: border_box.width,
        height: d.border.bottom,
    }
}

/// The strip along the left of the border box where the left border is.
pub open spec fn left_border(d: Dimensions) -> Rect {
    let border_box = d.border_box();
    Rect {
        x: border_box.x,
        y: border_box.y,
        width: d.border.left,
        height: border_box.height,
    }
}

/// The borders of a box: the four strips in its border colour, top, right,
/// bottom, left, or nothing if it has no such colour.
pub open spec fn borders_of(b: LayoutBoxView) -> Seq<DisplayCommand> {
    match color_of(b, "border-color"@) {
        Some(color) => seq![
            DisplayCommand::SolidColor(color, top_border(b.dimensions)),
            DisplayCommand::SolidColor(color, right_border(b.dimensions)),
            DisplayCommand::SolidColor(color, bottom_border(b.dimensions)),
            DisplayCommand::SolidColor(color, left_border(b.dimensions)),
        ],
        None => Seq::empty(),
    }
}

/// What paints a box and the boxes inside it: its background, then its
/// borders, then its children in document order, so that what comes later in
/// the document is painted over what comes earlier.
pub open spec fn commands_of(b: LayoutBoxView) -> Seq<DisplayCommand>
    decreases b, 0nat,
{
    background_of(b) + borders_of(b) + commands_of_all(b.children, b.children.len())
}

/// What paints the first `n` of `boxes`.
pub open spec fn commands_of_all(boxes: Seq<LayoutBoxView>, n: nat) -> Seq<DisplayCommand>
    decreases boxes, n,
{
    if n == 0 || n > boxes.len() {
        Seq::empty()
    } else {
        commands_of_all(boxes, (n - 1) as nat) + commands_of(boxes[n - 1])
    }
}

/// The colour that the style of a box gives the property `name`, if it gives
/// one.
pub fn get_color(layout_box: &LayoutBox, name: &str) -> (color: Option<Color>)
    ensures
        color == color_of(layout_box@, name@),
{
    proof {
        layout_box.lemma_view();
    }
    match layout_box.box_type {
        BoxType::BlockNode(style) | BoxType::InlineNode(style) => match style.value(name) {
            Some(Value::ColorValue(color)) => Some(color),
            _ => None,
        },
        BoxType::AnonymousBlock => None,
    }
}

/// Adds the background of a box to the list.
pub fn render_background(list: &mut DisplayList, layout_box: &LayoutBox)
    ensures
        final(list)@ == old(list)@ + background_of(layout_box@),
{
    proof {
        layout_box.lemma_view();
    }
    match get_color(layout_box, "background") {
        Some(color) => {
            list.push(DisplayCommand::SolidColor(color, layout_box.dimensions.border_box()));
            assert(list@ =~= old(list)@ + background_of(layout_box@));
        },
        None => {
            assert(list@ =~= old(list)@ + background_of(layout_box@));
        },
    }
}

/// Adds the four borders of a box to the list.
pub fn render_borders(list: &mut DisplayList, layout_box: &LayoutBox)
    ensures
        final(list)@ == old(list)@ + borders_of(layout_box@),
{
    proof {
        layout_box.lemma_view();
    }
    let color = match get_color(layout_box, "border-color") {
        Some(color) => color,
        None => {
            // No border colour: nothing to paint.
            assert(list@ =~= old(list)@ + borders_of(layout_box@));
            return ;
        },
    };

    let d = layout_box.dimensions;
    let border_box = d.border_box();

    // Top border
    list.push(
        DisplayCommand::SolidColor(
            color,
            Rect {
                x: border_box.x,
                y: border_box.y,
                width: border_box.width,
                height: d.border.top,
            },
        ),
    );

    // Right border
    list.push(
        DisplayCommand::SolidColor(
            color,
            Rect {
                x: saturate(
                    border_box.x as i128 + border_box.width as i128 - d.border.right as i128,
                ),
                y: border_box.y,
                width: d.border.right,
                height: border_box.height,
            },
        ),
    );

    // Bottom border
    list.push(
        DisplayCommand::SolidColor(
            color,
            Rect {
                x: border_box.x,
                y: saturate(
                    border_box.y as i128 + border_box.height as i128 - d.border.bottom as i128,
                ),
                width: border_box.width,
                height: d.border.bottom,
            },
        ),
    );

    // Left border
    list.push(
        DisplayCommand::SolidColor(
            color,
            Rect {
                x: border_box.x,
                y: border_box.y,
                width: d.border.left,
                height: border_box.height,
            },
        ),
    );
    assert(list@ =~= old(list)@ + borders_of(layout_box@));
}

/// Adds what paints a box and the boxes inside it to the list.
pub fn render_layout_box(list: &mut DisplayList, layout_box: &LayoutBox)
    ensures
        final(list)@ == old(list)@ + commands_of(layout_box@),
    decreases layout_box,
{
    render_background(list, layout_box);
    render_borders(list, layout_box);

    proof {
        layout_box.lemma_view();
    }
    let n = layout_box.children.len();
    let mut i: usize = 0;
    while i < n
        invariant
            i <= n,
            n == layout_box.children.len(),
            n == layout_box@.children.len(),
            forall|j: int|
                0 <= j < n ==> #[trigger] layout_box@.children[j] == layout_box.children[j]@,
            list@ == old(list)@ + background_of(layout_box@) + borders_of(layout_box@)
                + commands_of_all(layout_box@.children, i as nat),
        decreases n - i,
    {
        let ghost before = list@;
        render_layout_box(list, &layout_box.children[i]);
        i = i + 1;
        assert(list@ =~= old(list)@ + background_of(layout_box@) + borders_of(layout_box@)
            + commands_of_all(layout_box@.children, i as nat));
    }
    assert(list@ =~= old(list)@ + commands_of(layout_box@));
}

/// The list of rectangles that shows a laid-out tree of boxes.
pub fn build_display_list(layout_root: &LayoutBox) -> (list: DisplayList)
    ensures
        list@ == commands_of(layout_root@),
{
    let mut list: Vec<DisplayCommand> = Vec::new();
    render_layout_box(&mut list, layout_root);
    assert(list@ =~= commands_of(layout_root@));
    list
}

/// A grid of pixels, row by row.
#[derive(Debug)]
pub struct Canvas {
    pub pixels: Vec<Color>,
    pub width: usize,
    pub height: usize,
}

/// The colour of a canvas on which nothing has been painted.
pub open spec fn white() -> Color {
    Color { r: 255, g: 255, b: 255, a: 255 }
}

impl Canvas {
    /// A canvas of the given size, all white.
    pub fn new(width: usize, height: usize) -> (canvas: Canvas)
        requires
            width * height <= usize::MAX,
        ensures
            canvas.width == width,
            canvas.height == height,
            canvas.pixels.len() == width * height,
            forall|i: int| 0 <= i < canvas.pixels.len() ==> #[trigger] canvas.pixels[i] == white(),
    {
        let white = Color { r: 255, g: 255, b: 255, a: 255 };
        Canvas { pixels: vec![white; width * height], width, height }
    }
}

} // verus!
