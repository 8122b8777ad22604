//! Stylesheets: rules, selectors, declarations and values.

use crate::parser::{
    is_digit, lemma_run_end, lemma_run_end_is, next_is, outcome, run_end, CharClass, ParseError,
    Parsed, Parser,
};
use crate::text::{chars_of, text_of};
use vstd::prelude::*;

verus! {

/// A stylesheet is a series of rules, in source order.
#[derive(Debug, PartialEq, Eq)]
pub struct Stylesheet {
    pub rules: Vec<Rule>,
}

/// One or more selectors that share a block of declarations.
#[derive(Debug, PartialEq, Eq)]
pub struct Rule {
    pub selectors: Vec<Selector>,
    pub declarations: Vec<Declaration>,
}

/// A selector. Only simple selectors exist so far.
#[derive(Debug, PartialEq, Eq)]
pub enum Selector {
    Simple(SimpleSelector),
}

/// A tag name, an id and any number of class names, each of them optional.
/// Without a tag name the selector matches any tag.
#[derive(Debug, PartialEq, Eq)]
pub struct SimpleSelector {
    pub tag_name: Option<String>,
    pub id: Option<String>,
    pub class: Vec<String>,
}

/// A property name with its value.
#[derive(Debug, PartialEq, Eq)]
pub struct Declaration {
    pub name: String,
    pub value: Value,
}

/// The value of a property. A length is a whole number of its unit.
#[derive(Debug, PartialEq, Eq)]
pub enum Value {
    Keyword(String),
    Length(i64, Unit),
    ColorValue(Color),
}

/// The unit of a length.
#[derive(Clone, Copy, Debug, PartialEq, Eq, Structural)]
pub enum Unit {
    Px,
}

/// A colour with its opacity, each channel from 0 to 255.
#[derive(Clone, Copy, Debug, PartialEq, Eq, Structural)]
pub struct Color {
    pub r: u8,
    pub g: u8,
    pub b: u8,
    pub a: u8,
}

/// The length nearest to `v`.
pub open spec fn saturated(v: int) -> i64 {
    if v > i64::MAX {
        i64::MAX
    } else if v < i64::MIN {
        i64::MIN
    } else {
        v as i64
    }
}

/// Brings an exactly computed length into the range of `i64`.
pub fn saturate(v: i128) -> (r: i64)
    ensures
        r == saturated(v as int),
{
    if v > i64::MAX as i128 {
        i64::MAX
    } else if v < i64::MIN as i128 {
        i64::MIN
    } else {
        v as i64
    }
}

/// How much a selector weighs: the number of ids, of classes and of tag names
/// in it, compared in this order.
pub type Specificity = (usize, usize, usize);

/// What a [`Value`] holds, with text as a sequence of characters.
pub enum ValueView {
    Keyword(Seq<char>),
    Length(i64, Unit),
    ColorValue(Color),
}

/// What a [`Declaration`] holds.
pub struct DeclarationView {
    pub name: Seq<char>,
    pub value: ValueView,
}

/// What a [`SimpleSelector`] holds.
pub struct SimpleSelectorView {
    pub tag_name: Option<Seq<char>>,
    pub id: Option<Seq<char>>,
    pub class: Seq<Seq<char>>,
}

/// What a [`Selector`] holds.
pub enum SelectorView {
    Simple(SimpleSelectorView),
}

/// What a [`Rule`] holds.
pub struct RuleView {
    pub selectors: Seq<SelectorView>,
    pub declarations: Seq<DeclarationView>,
}

/// What a [`Stylesheet`] holds.
pub struct StylesheetView {
    pub rules: Seq<RuleView>,
}

impl View for Value {
    type V = ValueView;

    open spec fn view(&self) -> ValueView {
        match *self {
            Value::Keyword(s) => ValueView::Keyword(s@),
            Value::Length(n, unit) => ValueView::Length(n, unit),
            Value::ColorValue(color) => ValueView::ColorValue(color),
        }
    }
}

impl View for Declaration {
    type V = DeclarationView;

    open spec fn view(&self) -> DeclarationView {
        DeclarationView { name: self.name@, value: self.value@ }
    }
}

impl View for SimpleSelector {
    type V = SimpleSelectorView;

    open spec fn view(&self) -> SimpleSelectorView {
        SimpleSelectorView {
            tag_name: text_of(self.tag_name),
            id: text_of(self.id),
            class: Seq::new(self.class.len() as nat, |i: int| self.class[i]@),
        }
    }
}

impl View for Selector {
    type V = SelectorView;

    open spec fn view(&self) -> SelectorView {
        match *self {
            Selector::Simple(simple) => SelectorView::Simple(simple@),
        }
    }
}

/// The views of a list of selectors.
pub open spec fn selector_views(selectors: Seq<Selector>) -> Seq<SelectorView> {
    Seq::new(selectors.len(), |i: int| selectors[i]@)
}

/// The views of a list of declarations.
pub open spec fn declaration_views(declarations: Seq<Declaration>) -> Seq<DeclarationView> {
    Seq::new(declarations.len(), |i: int| declarations[i]@)
}

/// The views of a list of rules.
pub open spec fn rule_views(rules: Seq<Rule>) -> Seq<RuleView> {
    Seq::new(rules.len(), |i: int| rules[i]@)
}

impl View for Rule {
    type V = RuleView;

    open spec fn view(&self) -> RuleView {
        RuleView {
            selectors: selector_views(self.selectors@),
            declarations: declaration_views(self.declarations@),
        }
    }
}

impl View for Stylesheet {
    type V = StylesheetView;

    open spec fn view(&self) -> StylesheetView {
        StylesheetView { rules: rule_views(self.rules@) }
    }
}

impl SelectorView {
    /// The weight of the selector: one for an id, one for each class, one
    /// for a tag name.
    pub open spec fn specificity(self) -> (int, int, int) {
        match self {
            SelectorView::Simple(simple) => (
                if simple.id is Some { 1int } else { 0int },
                simple.class.len() as int,
                if simple.tag_name is Some { 1int } else { 0int },
            ),
        }
    }
}

/// Whether the weight `a` comes before the weight `b`: the ids decide, then
/// the classes, then the tag names.
pub open spec fn ranks_below(a: (int, int, int), b: (int, int, int)) -> bool {
    a.0 < b.0 || (a.0 == b.0 && (a.1 < b.1 || (a.1 == b.1 && a.2 < b.2)))
}

/// Whether `order` lists the place `j`.
pub open spec fn lists(order: Seq<int>, j: int) -> bool {
    exists|k: int| 0 <= k < order.len() && #[trigger] order[k] == j
}

/// Whether `order` lists each of the places `0..n`, and nothing else.
pub open spec fn is_permutation(order: Seq<int>, n: int) -> bool {
    &&& order.len() == n
    &&& forall|k: int| 0 <= k < n ==> 0 <= #[trigger] order[k] < n
    &&& forall|j: int| 0 <= j < n ==> #[trigger] lists(order, j)
}

/// Whether the place `x` comes before the place `y` in the cascade: its
/// weight is lower, or the weights are equal and `x` stands first.
pub open spec fn comes_before(weights: Seq<(int, int, int)>, x: int, y: int) -> bool {
    ranks_below(weights[x], weights[y]) || (weights[x] == weights[y] && x < y)
}

/// Whether `order` lists places by rising weight, and places of equal
/// weight in their own order.
pub open spec fn in_cascade_order(weights: Seq<(int, int, int)>, order: Seq<int>) -> bool {
    forall|a: int, b: int|
        0 <= a < b < order.len() ==> comes_before(weights, #[trigger] order[a], #[trigger] order[b])
}

/// A weight as a triple of mathematical integers.
pub open spec fn weight(s: Specificity) -> (int, int, int) {
    (s.0 as int, s.1 as int, s.2 as int)
}

/// Whether the weight `a` comes before the weight `b`.
pub fn outranked_by(a: Specificity, b: Specificity) -> (below: bool)
    ensures
        below == ranks_below(weight(a), weight(b)),
{
    a.0 < b.0 || (a.0 == b.0 && (a.1 < b.1 || (a.1 == b.1 && a.2 < b.2)))
}

impl Selector {
    /// The weight of the selector.
    pub fn specificity(&self) -> (s: Specificity)
        ensures
            weight(s) == self@.specificity(),
    {
        match self {
            Selector::Simple(simple) => {
                let a: usize = if simple.id.is_some() { 1 } else { 0 };
                let b: usize = simple.class.len();
                let c: usize = if simple.tag_name.is_some() { 1 } else { 0 };
                (a, b, c)
            },
        }
    }
}

impl ValueView {
    /// The size of a length in pixels, and zero for anything else.
    pub open spec fn to_px(self) -> int {
        match self {
            ValueView::Length(n, Unit::Px) => n as int,
            _ => 0,
        }
    }
}

impl Value {
    /// The size of a length in pixels, and zero for anything else.
    pub fn to_px(&self) -> (px: i64)
        ensures
            px == self@.to_px(),
    {
        match self {
            Value::Length(n, Unit::Px) => *n,
            _ => 0,
        }
    }
}

impl Clone for Value {
    fn clone(&self) -> (copy: Self)
        ensures
            copy == *self,
    {
        match self {
            Value::Keyword(s) => Value::Keyword(s.clone()),
            Value::Length(n, unit) => Value::Length(*n, *unit),
            Value::ColorValue(color) => Value::ColorValue(*color),
        }
    }
}

/// The ranking of weights is a strict total order: no weight ranks below
/// itself, the ranking carries over from one pair to the next, and of two
/// different weights one ranks below the other.
pub proof fn lemma_ranking_is_strict_and_total(
    a: (int, int, int),
    b: (int, int, int),
    c: (int, int, int),
)
    ensures
        !ranks_below(a, a),
        ranks_below(a, b) ==> !ranks_below(b, a),
        ranks_below(a, b) && ranks_below(b, c) ==> ranks_below(a, c),
        ranks_below(a, b) || a == b || ranks_below(b, a),
        !ranks_below(a, b) && !ranks_below(b, c) ==> !ranks_below(a, c),
{
}

/// A selector with an id outranks every selector without one, however many
/// classes that one names.
pub proof fn lemma_id_outranks_classes_and_tag(with_id: SelectorView, without: SelectorView)
    requires
        with_id->Simple_0.id is Some,
        without->Simple_0.id is None,
    ensures
        ranks_below(without.specificity(), with_id.specificity()),
{
}

/// Of two selectors that both have an id, or both have none, the one that
/// names more classes outranks the other, with or without a tag name.
pub proof fn lemma_classes_outrank_tag(more: SelectorView, fewer: SelectorView)
    requires
        more.specificity().0 == fewer.specificity().0,
        more.specificity().1 > fewer.specificity().1,
    ensures
        ranks_below(fewer.specificity(), more.specificity()),
{
}

/// Whether `sorted` holds the selectors of `raw` by rising weight, those of
/// equal weight in the order in which they stand in `raw`.
pub open spec fn is_sorted_by_weight(raw: Seq<SelectorView>, sorted: Seq<SelectorView>) -> bool {
    exists|order: Seq<int>|
        {
            &&& is_permutation(order, raw.len() as int)
            &&& #[trigger] in_cascade_order(selector_weights(raw), order)
            &&& sorted.len() == raw.len()
            &&& forall|k: int| 0 <= k < sorted.len() ==> #[trigger] sorted[k] == raw[order[k]]
        }
}

/// Selectors that are sorted by weight rise: none of them outranks one that
/// stands behind it.
pub proof fn lemma_sorted_selectors_rise(raw: Seq<SelectorView>, sorted: Seq<SelectorView>)
    requires
        is_sorted_by_weight(raw, sorted),
    ensures
        forall|a: int, b: int|
            0 <= a < b < sorted.len() ==> !ranks_below(
                (#[trigger] sorted[b]).specificity(),
                (#[trigger] sorted[a]).specificity(),
            ),
{
    let order = choose|order: Seq<int>|
        {
            &&& is_permutation(order, raw.len() as int)
            &&& #[trigger] in_cascade_order(selector_weights(raw), order)
            &&& sorted.len() == raw.len()
            &&& forall|k: int| 0 <= k < sorted.len() ==> #[trigger] sorted[k] == raw[order[k]]
        };
    assert forall|a: int, b: int| 0 <= a < b < sorted.len() implies !ranks_below(
        (#[trigger] sorted[b]).specificity(),
        (#[trigger] sorted[a]).specificity(),
    ) by {
        assert(comes_before(selector_weights(raw), order[a], order[b]));
        assert(sorted[a] == raw[order[a]]);
        assert(sorted[b] == raw[order[b]]);
    }
}

/// The weights of a list of selectors.
pub open spec fn selector_weights(selectors: Seq<SelectorView>) -> Seq<(int, int, int)> {
    Seq::new(selectors.len(), |k: int| selectors[k].specificity())
}

/// Sorts selectors by rising weight and leaves selectors of equal weight in
/// the order in which they stood.
pub fn sort_selectors(selectors: Vec<Selector>) -> (sorted: Vec<Selector>)
    ensures
        is_sorted_by_weight(selector_views(selectors@), selector_views(sorted@)),
        forall|a: int, b: int|
            0 <= a < b < sorted.len() ==> !ranks_below(
                (#[trigger] sorted[b])@.specificity(),
                (#[trigger] sorted[a])@.specificity(),
            ),
{
    let ghost raw = selector_views(selectors@);
    let ghost weights = selector_weights(raw);
    let n = selectors.len();
    let mut rest = selectors;
    let mut sorted: Vec<Selector> = Vec::new();
    let ghost mut order: Seq<int> = Seq::empty();
    let mut i: usize = n;
    while i > 0
        invariant
            i <= n,
            n == raw.len(),
            weights == selector_weights(raw),
            rest.len() == i,
            forall|k: int| 0 <= k < i ==> (#[trigger] rest[k])@ == raw[k],
            sorted.len() == n - i,
            order.len() == n - i,
            forall|k: int| 0 <= k < order.len() ==> i <= #[trigger] order[k] < n,
            forall|k: int| 0 <= k < order.len() ==> (#[trigger] sorted[k])@ == raw[order[k]],
            forall|j: int| i <= j < n ==> #[trigger] lists(order, j),
            in_cascade_order(weights, order),
        decreases i,
    {
        let ghost held = order;
        let ghost before = sorted@;
        let x = rest.pop().unwrap();
        i = i - 1;
        let w = x.specificity();
        assert(weight(w) == weights[i as int]);
        // The selector goes before the first one that is no lighter.
        let mut p: usize = 0;
        while p < sorted.len() && outranked_by(sorted[p].specificity(), w)
            invariant
                p <= sorted.len(),
                sorted@ == before,
                order == held,
                order.len() == sorted.len(),
                weights == selector_weights(raw),
                forall|k: int| 0 <= k < order.len() ==> i < #[trigger] order[k] < n,
                n == raw.len(),
                forall|k: int| 0 <= k < order.len() ==> (#[trigger] sorted[k])@ == raw[order[k]],
                forall|k: int| 0 <= k < p ==> ranks_below(weights[#[trigger] order[k]], weight(w)),
            decreases sorted.len() - p,
        {
            assert(sorted[p as int]@ == raw[order[p as int]]);
            p = p + 1;
        }
        sorted.insert(p, x);
        proof {
            order = held.insert(p as int, i as int);
            if p < held.len() {
                assert(before[p as int]@ == raw[held[p as int]]);
                assert(!ranks_below(weights[held[p as int]], weight(w)));
            }
            assert forall|k: int| 0 <= k < order.len() implies (#[trigger] sorted[k])@
                == raw[order[k]] by {
                if k < p {
                    assert(sorted[k] == before[k]);
                } else if k > p {
                    assert(sorted[k] == before[k - 1]);
                    assert(order[k] == held[k - 1]);
                }
            }
            assert forall|k: int| 0 <= k < order.len() implies i <= #[trigger] order[k] < n by {
                if k < p {
                    assert(order[k] == held[k]);
                } else if k > p {
                    assert(order[k] == held[k - 1]);
                }
            }
            assert forall|j: int| i <= j < n implies #[trigger] lists(order, j) by {
                if j == i {
                    assert(order[p as int] == j);
                } else {
                    assert(lists(held, j));
                    let k = choose|k: int| 0 <= k < held.len() && #[trigger] held[k] == j;
                    if k < p {
                        assert(order[k] == j);
                    } else {
                        assert(order[k + 1] == j);
                    }
                }
            }
            assert forall|a: int, b: int| 0 <= a < b < order.len() implies comes_before(
                weights,
                #[trigger] order[a],
                #[trigger] order[b],
            ) by {
                let a0 = if a < p { a } else { a - 1 };
                let b0 = if b < p { b } else { b - 1 };
                if a == p {
                    assert(order[b] == held[b0]);
                    if b0 > p {
                        assert(comes_before(weights, held[p as int], held[b0]));
                    }
                } else if b == p {
                    assert(order[a] == held[a0]);
                    assert(ranks_below(weights[held[a0]], weight(w)));
                } else {
                    assert(order[a] == held[a0]);
                    assert(order[b] == held[b0]);
                    assert(comes_before(weights, held[a0], held[b0]));
                }
            }
        }
    }
    proof {
        assert(is_permutation(order, raw.len() as int));
        assert(selector_views(sorted@).len() == raw.len());
        assert forall|k: int| 0 <= k < sorted.len() implies #[trigger] selector_views(sorted@)[k]
            == raw[order[k]] by {
            assert(sorted[k]@ == raw[order[k]]);
        }
        assert forall|a: int, b: int| 0 <= a < b < sorted.len() implies !ranks_below(
            (#[trigger] sorted[b])@.specificity(),
            (#[trigger] sorted[a])@.specificity(),
        ) by {
            assert(comes_before(weights, order[a], order[b]));
            assert(sorted[a]@ == raw[order[a]]);
            assert(sorted[b]@ == raw[order[b]]);
        }
    }
    sorted
}

/// Whether `c` can stand in an identifier.
pub open spec fn is_identifier_char(c: char) -> bool {
    CharClass::Identifier.holds(c)
}

/// Whether `c` can stand in an identifier: a letter, a digit, `-` or `_`.
pub fn valid_identifier_char(c: char) -> (valid: bool)
    ensures
        valid == is_identifier_char(c),
{
    CharClass::Identifier.test(c)
}

/// The number that a hexadecimal digit stands for.
pub open spec fn hex_digit(c: char) -> Option<int> {
    if '0' <= c && c <= '9' {
        Some(c as int - '0' as int)
    } else if 'a' <= c && c <= 'f' {
        Some(c as int - 'a' as int + 10)
    } else if 'A' <= c && c <= 'F' {
        Some(c as int - 'A' as int + 10)
    } else {
        None
    }
}

/// The number that a hexadecimal digit stands for.
pub fn hex_digit_value(c: char) -> (value: Option<u8>)
    ensures
        match value {
            Some(v) => hex_digit(c) == Some(v as int) && v < 16,
            None => hex_digit(c) is None,
        },
{
    if '0' <= c && c <= '9' {
        Some((c as u32 - '0' as u32) as u8)
    } else if 'a' <= c && c <= 'f' {
        Some((c as u32 - 'a' as u32 + 10) as u8)
    } else if 'A' <= c && c <= 'F' {
        Some((c as u32 - 'A' as u32 + 10) as u8)
    } else {
        None
    }
}

/// Two hexadecimal digits at `pos`, as one number.
pub open spec fn hex_pair(text: Seq<char>, pos: int) -> Parsed<u8> {
    if 0 <= pos && pos + 2 <= text.len() && hex_digit(text[pos]) is Some && hex_digit(
        text[pos + 1],
    ) is Some {
        Ok(((16 * hex_digit(text[pos])->0 + hex_digit(text[pos + 1])->0) as u8, pos + 2))
    } else {
        Err(ParseError::MalformedInput)
    }
}

/// A colour at `pos`: `#` and three pairs of hexadecimal digits, for red,
/// green and blue. The colour is opaque.
pub open spec fn color_at(text: Seq<char>, pos: int) -> Parsed<ValueView> {
    if !next_is(text, pos, '#') {
        Err(ParseError::MalformedInput)
    } else {
        match (hex_pair(text, pos + 1), hex_pair(text, pos + 3), hex_pair(text, pos + 5)) {
            (Ok((r, _)), Ok((g, _)), Ok((b, _))) => Ok(
                (ValueView::ColorValue(Color { r, g, b, a: 255 }), pos + 7),
            ),
            _ => Err(ParseError::MalformedInput),
        }
    }
}

/// The number that a run of digits stands for.
pub open spec fn digits_value(digits: Seq<char>) -> nat
    decreases digits.len(),
{
    if digits.len() == 0 {
        0
    } else {
        (digits_value(digits.drop_last()) * 10 + (digits.last() as int - '0' as int)) as nat
    }
}

/// A number at `pos`: digits, and perhaps a `.` with more digits behind it.
/// Lengths are whole pixels: what stands behind the `.` is dropped.
pub open spec fn number_at(text: Seq<char>, pos: int) -> Parsed<i64> {
    let end = run_end(text, pos, CharClass::Numeric);
    let whole_end = run_end(text, pos, CharClass::Digit);
    let fraction_end = if next_is(text, whole_end, '.') {
        run_end(text, whole_end + 1, CharClass::Digit)
    } else {
        whole_end
    };
    if 0 <= pos < whole_end && fraction_end == end {
        Ok((saturated(digits_value(text.subrange(pos, whole_end)) as int), end))
    } else {
        Err(ParseError::MalformedInput)
    }
}

/// Whether `word` is the unit `px`, in small or capital letters.
pub open spec fn is_px(word: Seq<char>) -> bool {
    word.len() == 2 && (word[0] == 'p' || word[0] == 'P') && (word[1] == 'x' || word[1] == 'X')
}

/// A unit at `pos`. Only `px` is a unit.
pub open spec fn unit_at(text: Seq<char>, pos: int) -> Parsed<Unit> {
    let end = run_end(text, pos, CharClass::Identifier);
    if is_px(text.subrange(pos, end)) {
        Ok((Unit::Px, end))
    } else {
        Err(ParseError::UnsupportedConstruct)
    }
}

/// A length at `pos`: a number and its unit.
pub open spec fn length_at(text: Seq<char>, pos: int) -> Parsed<ValueView> {
    match number_at(text, pos) {
        Ok((n, end)) => match unit_at(text, end) {
            Ok((unit, end)) => Ok((ValueView::Length(n, unit), end)),
            Err(e) => Err(e),
        },
        Err(e) => Err(e),
    }
}

/// A value at `pos`: a length where a digit stands, a colour where `#`
/// stands, and otherwise a keyword.
pub open spec fn value_at(text: Seq<char>, pos: int) -> Parsed<ValueView> {
    if !(0 <= pos < text.len()) {
        Err(ParseError::MalformedInput)
    } else if is_digit(text[pos]) {
        length_at(text, pos)
    } else if text[pos] == '#' {
        color_at(text, pos)
    } else {
        let end = run_end(text, pos, CharClass::Identifier);
        Ok((ValueView::Keyword(text.subrange(pos, end)), end))
    }
}

/// A declaration at `pos`: a property name, `:`, a value and `;`, with
/// white space between them as it comes.
pub open spec fn declaration_at(text: Seq<char>, pos: int) -> Parsed<DeclarationView> {
    let name_end = run_end(text, pos, CharClass::Identifier);
    let colon = run_end(text, name_end, CharClass::Whitespace);
    if !next_is(text, colon, ':') {
        Err(ParseError::MalformedInput)
    } else {
        match value_at(text, run_end(text, colon + 1, CharClass::Whitespace)) {
            Ok((value, value_end)) => {
                let semicolon = run_end(text, value_end, CharClass::Whitespace);
                if next_is(text, semicolon, ';') {
                    Ok(
                        (
                            DeclarationView { name: text.subrange(pos, name_end), value },
                            semicolon + 1,
                        ),
                    )
                } else {
                    Err(ParseError::MalformedInput)
                }
            },
            Err(e) => Err(e),
        }
    }
}

/// The declarations from `pos` up to the `}` that ends the block, added to
/// `so_far`.
pub open spec fn declarations_from(
    text: Seq<char>,
    pos: int,
    so_far: Seq<DeclarationView>,
) -> Parsed<Seq<DeclarationView>>
    decreases text.len() - pos,
{
    let start = run_end(text, pos, CharClass::Whitespace);
    if !(0 <= pos <= start < text.len()) {
        Err(ParseError::MalformedInput)
    } else if text[start] == '}' {
        Ok((so_far, start + 1))
    } else {
        match declaration_at(text, start) {
            Ok((found, end)) => if start < end <= text.len() {
                declarations_from(text, end, so_far.push(found))
            } else {
                Err(ParseError::MalformedInput)
            },
            Err(e) => Err(e),
        }
    }
}

/// A block of declarations at `pos`, between `{` and `}`.
pub open spec fn declarations_at(text: Seq<char>, pos: int) -> Parsed<Seq<DeclarationView>> {
    if next_is(text, pos, '{') {
        declarations_from(text, pos + 1, Seq::empty())
    } else {
        Err(ParseError::MalformedInput)
    }
}

/// The selector that names nothing.
pub open spec fn blank_selector() -> SimpleSelectorView {
    SimpleSelectorView { tag_name: None, id: None, class: Seq::empty() }
}

/// The simple selector from `pos` on, added to `so_far`: `#` with an id,
/// `.` with a class, `*`, which names nothing, or a tag name, one after the
/// other for as long as one of them comes. A later id or tag name replaces
/// an earlier one.
pub open spec fn simple_selector_from(text: Seq<char>, pos: int, so_far: SimpleSelectorView) -> (
    SimpleSelectorView,
    int,
)
    decreases text.len() - pos,
{
    if !(0 <= pos < text.len()) {
        (so_far, pos)
    } else if text[pos] == '#' {
        let end = run_end(text, pos + 1, CharClass::Identifier);
        if pos < end <= text.len() {
            simple_selector_from(
                text,
                end,
                SimpleSelectorView { id: Some(text.subrange(pos + 1, end)), ..so_far },
            )
        } else {
            (so_far, pos)
        }
    } else if text[pos] == '.' {
        let end = run_end(text, pos + 1, CharClass::Identifier);
        if pos < end <= text.len() {
            simple_selector_from(
                text,
                end,
                SimpleSelectorView {
                    class: so_far.class.push(text.subrange(pos + 1, end)),
                    ..so_far
                },
            )
        } else {
            (so_far, pos)
        }
    } else if text[pos] == '*' {
        simple_selector_from(text, pos + 1, so_far)
    } else if is_identifier_char(text[pos]) {
        let end = run_end(text, pos, CharClass::Identifier);
        if pos < end <= text.len() {
            simple_selector_from(
                text,
                end,
                SimpleSelectorView { tag_name: Some(text.subrange(pos, end)), ..so_far },
            )
        } else {
            (so_far, pos)
        }
    } else {
        (so_far, pos)
    }
}

/// The selectors from `pos` up to the `{` that opens the declarations,
/// added to `so_far`, in the order in which they stand. A `,` stands
/// between two of them.
pub open spec fn selectors_from(text: Seq<char>, pos: int, so_far: Seq<SelectorView>) -> Parsed<
    Seq<SelectorView>,
>
    decreases text.len() - pos,
{
    let (found, end) = simple_selector_from(text, pos, blank_selector());
    let next = run_end(text, end, CharClass::Whitespace);
    let now = so_far.push(SelectorView::Simple(found));
    if !(0 <= pos <= next < text.len()) {
        Err(ParseError::MalformedInput)
    } else if text[next] == ',' {
        let after = run_end(text, next + 1, CharClass::Whitespace);
        if pos < after <= text.len() {
            selectors_from(text, after, now)
        } else {
            Err(ParseError::MalformedInput)
        }
    } else if text[next] == '{' {
        Ok((now, next))
    } else {
        Err(ParseError::MalformedInput)
    }
}

/// The rule at `pos`, with its selectors in the order in which they stand:
/// selectors, and a block of declarations.
pub open spec fn rule_at(text: Seq<char>, pos: int) -> Parsed<RuleView> {
    match selectors_from(text, pos, Seq::empty()) {
        Ok((selectors, end)) => match declarations_at(text, end) {
            Ok((declarations, end)) => Ok((RuleView { selectors, declarations }, end)),
            Err(e) => Err(e),
        },
        Err(e) => Err(e),
    }
}

/// The rules from `pos` to the end of the text, added to `so_far`. White
/// space between them is skipped.
pub open spec fn rules_from(text: Seq<char>, pos: int, so_far: Seq<RuleView>) -> Result<
    Seq<RuleView>,
    ParseError,
>
    decreases text.len() - pos,
{
    let start = run_end(text, pos, CharClass::Whitespace);
    if !(0 <= pos <= start < text.len()) {
        Ok(so_far)
    } else {
        match rule_at(text, start) {
            Ok((found, end)) => if start < end <= text.len() {
                rules_from(text, end, so_far.push(found))
            } else {
                Err(ParseError::MalformedInput)
            },
            Err(e) => Err(e),
        }
    }
}

/// Whether `sorted` is the rule `raw` with its selectors sorted by rising
/// weight.
pub open spec fn is_sorted_rule(raw: RuleView, sorted: RuleView) -> bool {
    &&& sorted.declarations == raw.declarations
    &&& is_sorted_by_weight(raw.selectors, sorted.selectors)
}

/// Whether `sorted` holds the rules of `raw`, each with its selectors
/// sorted by rising weight.
pub open spec fn are_sorted_rules(raw: Seq<RuleView>, sorted: Seq<RuleView>) -> bool {
    &&& sorted.len() == raw.len()
    &&& forall|i: int| 0 <= i < raw.len() ==> is_sorted_rule(raw[i], #[trigger] sorted[i])
}

/// The view of the value that parsing gave.
pub open spec fn value_of(found: Result<Value, ParseError>) -> Result<ValueView, ParseError> {
    match found {
        Ok(v) => Ok(v@),
        Err(e) => Err(e),
    }
}

/// The view of the declaration that parsing gave.
pub open spec fn declaration_of(found: Result<Declaration, ParseError>) -> Result<
    DeclarationView,
    ParseError,
> {
    match found {
        Ok(d) => Ok(d@),
        Err(e) => Err(e),
    }
}

/// The views of the declarations that parsing gave.
pub open spec fn declarations_of(found: Result<Vec<Declaration>, ParseError>) -> Result<
    Seq<DeclarationView>,
    ParseError,
> {
    match found {
        Ok(d) => Ok(declaration_views(d@)),
        Err(e) => Err(e),
    }
}

/// The number that a run of digits stands for, brought into the range of a
/// length.
fn digits_to_length(digits: &str) -> (n: i64)
    requires
        forall|i: int| 0 <= i < digits@.len() ==> is_digit(#[trigger] digits@[i]),
    ensures
        n == saturated(digits_value(digits@) as int),
{
    let chars = chars_of(digits);
    let mut n: i64 = 0;
    let mut i: usize = 0;
    assert(chars@.take(0) =~= Seq::empty());
    while i < chars.len()
        invariant
            i <= chars.len(),
            chars@ == digits@,
            forall|k: int| 0 <= k < chars.len() ==> is_digit(#[trigger] chars[k]),
            0 <= n,
            n == saturated(digits_value(chars@.take(i as int)) as int),
        decreases chars.len() - i,
    {
        let digit = (chars[i] as u32 - '0' as u32) as i128;
        proof {
            let now = chars@.take(i + 1);
            assert(now.drop_last() =~= chars@.take(i as int));
            assert(now.last() == chars[i as int]);
        }
        let exact: i128 = n as i128 * 10 + digit;
        n = if exact > i64::MAX as i128 { i64::MAX } else { exact as i64 };
        i = i + 1;
    }
    assert(chars@.take(chars.len() as int) =~= chars@);
    n
}

impl Parser {
    /// Reads a property name or keyword: a run of identifier characters.
    pub fn parse_identifier(&mut self) -> (name: String)
        ensures
            final(self).text() == old(self).text(),
            final(self).at() <= final(self).text().len(),
            final(self).at() == run_end(
                old(self).text(),
                old(self).at() as int,
                CharClass::Identifier,
            ),
            name@ == old(self).text().subrange(old(self).at() as int, final(self).at() as int),
    {
        self.consume_while(CharClass::Identifier)
    }

    /// Reads two hexadecimal digits.
    pub fn parse_hex_pair(&mut self) -> (pair: Result<u8, ParseError>)
        ensures
            final(self).text() == old(self).text(),
            final(self).at() <= final(self).text().len(),
            outcome(pair, final(self).at() as int) == hex_pair(
                old(self).text(),
                old(self).at() as int,
            ),
            pair is Ok ==> final(self).at() >= old(self).at(),
    {
        if self.eof() {
            return Err(ParseError::MalformedInput);
        }
        let high = match hex_digit_value(self.consume_char()) {
            Some(digit) => digit,
            None => {
                return Err(ParseError::MalformedInput);
            },
        };
        if self.eof() {
            return Err(ParseError::MalformedInput);
        }
        let low = match hex_digit_value(self.consume_char()) {
            Some(digit) => digit,
            None => {
                return Err(ParseError::MalformedInput);
            },
        };
        Ok(16 * high + low)
    }

    /// Reads a colour: `#` and six hexadecimal digits.
    pub fn parse_color(&mut self) -> (color: Result<Value, ParseError>)
        ensures
            final(self).text() == old(self).text(),
            final(self).at() <= final(self).text().len(),
            outcome(value_of(color), final(self).at() as int) == color_at(
                old(self).text(),
                old(self).at() as int,
            ),
            color is Ok ==> final(self).at() >= old(self).at(),
    {
        self.expect_char('#')?;
        let r = self.parse_hex_pair()?;
        let g = self.parse_hex_pair()?;
        let b = self.parse_hex_pair()?;
        Ok(Value::ColorValue(Color { r, g, b, a: 255 }))
    }

    /// Reads a unit.
    pub fn parse_unit(&mut self) -> (unit: Result<Unit, ParseError>)
        ensures
            final(self).text() == old(self).text(),
            final(self).at() <= final(self).text().len(),
            outcome(unit, final(self).at() as int) == unit_at(
                old(self).text(),
                old(self).at() as int,
            ),
            old(self).at() <= old(self).text().len() ==> final(self).at() >= old(self).at(),
    {
        proof {
            use_type_invariant(&*self);
        }
        proof {
            lemma_run_end(self.text(), self.at() as int, CharClass::Identifier);
        }
        let word = chars_of(self.parse_identifier().as_str());
        if word.len() == 2 && (word[0] == 'p' || word[0] == 'P') && (word[1] == 'x' || word[1]
            == 'X') {
            Ok(Unit::Px)
        } else {
            Err(ParseError::UnsupportedConstruct)
        }
    }

    /// Reads a number and hands back its whole part.
    pub fn parse_number(&mut self) -> (number: Result<i64, ParseError>)
        ensures
            final(self).text() == old(self).text(),
            final(self).at() <= final(self).text().len(),
            outcome(number, final(self).at() as int) == number_at(
                old(self).text(),
                old(self).at() as int,
            ),
            number is Ok ==> final(self).at() >= old(self).at(),
    {
        let ghost text = self.text();
        let ghost start = self.at() as int;
        proof {
            use_type_invariant(&*self);
        }
        proof {
            lemma_run_end(text, start, CharClass::Digit);
            lemma_run_end(text, start, CharClass::Numeric);
        }
        let whole = self.consume_while(CharClass::Digit);
        let ghost whole_end = self.at() as int;
        if !self.eof() && self.next_char() == '.' {
            self.consume_char();
            proof {
                lemma_run_end(text, whole_end + 1, CharClass::Digit);
            }
            self.consume_while(CharClass::Digit);
        }
        let ghost fraction_end = self.at() as int;
        let sound = self.eof() || self.next_char() != '.';
        proof {
            if sound {
                assert forall|i: int| start <= i < fraction_end implies CharClass::Numeric.holds(
                    #[trigger] text[i],
                ) by {
                    if i < whole_end {
                        assert(CharClass::Digit.holds(text[i]));
                    } else if i > whole_end {
                        assert(CharClass::Digit.holds(text[i]));
                    }
                }
                lemma_run_end_is(text, start, fraction_end, CharClass::Numeric);
            }
        }
        if whole.as_str().unicode_len() == 0 || !sound {
            return Err(ParseError::MalformedInput);
        }
        assert forall|i: int| 0 <= i < whole@.len() implies is_digit(#[trigger] whole@[i]) by {
            assert(CharClass::Digit.holds(text[start + i]));
        }
        Ok(digits_to_length(whole.as_str()))
    }

    /// Reads a length: a number and its unit.
    pub fn parse_length(&mut self) -> (length: Result<Value, ParseError>)
        ensures
            final(self).text() == old(self).text(),
            final(self).at() <= final(self).text().len(),
            outcome(value_of(length), final(self).at() as int) == length_at(
                old(self).text(),
                old(self).at() as int,
            ),
            length is Ok ==> final(self).at() >= old(self).at(),
    {
        let number = self.parse_number()?;
        let unit = self.parse_unit()?;
        Ok(Value::Length(number, unit))
    }

    /// Reads a value: a length, a colour or a keyword.
    pub fn parse_value(&mut self) -> (value: Result<Value, ParseError>)
        ensures
            final(self).text() == old(self).text(),
            final(self).at() <= final(self).text().len(),
            outcome(value_of(value), final(self).at() as int) == value_at(
                old(self).text(),
                old(self).at() as int,
            ),
            value is Ok ==> final(self).at() >= old(self).at(),
    {
        if self.eof() {
            return Err(ParseError::MalformedInput);
        }
        let c = self.next_char();
        if '0' <= c && c <= '9' {
            self.parse_length()
        } else if c == '#' {
            self.parse_color()
        } else {
            proof {
                lemma_run_end(self.text(), self.at() as int, CharClass::Identifier);
            }
            Ok(Value::Keyword(self.parse_identifier()))
        }
    }

    /// Reads one `<property>: <value>;` declaration.
    pub fn parse_declaration(&mut self) -> (declaration: Result<Declaration, ParseError>)
        ensures
            final(self).text() == old(self).text(),
            final(self).at() <= final(self).text().len(),
            outcome(declaration_of(declaration), final(self).at() as int) == declaration_at(
                old(self).text(),
                old(self).at() as int,
            ),
            declaration is Ok ==> final(self).at() > old(self).at(),
    {
        let ghost text = self.text();
        let ghost start = self.at() as int;
        proof {
            use_type_invariant(&*self);
        }
        proof {
            lemma_run_end(text, start, CharClass::Identifier);
        }
        let name = self.parse_identifier();
        proof {
            lemma_run_end(text, self.at() as int, CharClass::Whitespace);
        }
        self.consume_whitespace();
        self.expect_char(':')?;
        proof {
            lemma_run_end(text, self.at() as int, CharClass::Whitespace);
        }
        self.consume_whitespace();
        let value = self.parse_value()?;
        proof {
            lemma_run_end(text, self.at() as int, CharClass::Whitespace);
        }
        self.consume_whitespace();
        self.expect_char(';')?;

        Ok(Declaration { name, value })
    }

    /// Reads a list of declarations enclosed in `{ ... }`.
    pub fn parse_declarations(&mut self) -> (found: Result<Vec<Declaration>, ParseError>)
        ensures
            final(self).text() == old(self).text(),
            final(self).at() <= final(self).text().len(),
            outcome(declarations_of(found), final(self).at() as int) == declarations_at(
                old(self).text(),
                old(self).at() as int,
            ),
            found is Ok ==> final(self).at() > old(self).at(),
    {
        self.expect_char('{')?;
        let mut declarations: Vec<Declaration> = Vec::new();
        let ghost whole = declarations_at(old(self).text(), old(self).at() as int);
        proof {
            assert(declaration_views(declarations@) =~= Seq::empty());
        }
        loop
            invariant_except_break
                whole == declarations_from(
                    self.text(),
                    self.at() as int,
                    declaration_views(declarations@),
                ),
            invariant
                self.text() == old(self).text(),
                self.at() <= self.text().len(),
                old(self).at() < self.at(),
                whole == declarations_at(old(self).text(), old(self).at() as int),
            ensures
                self.text() == old(self).text(),
                self.at() <= self.text().len(),
                old(self).at() < self.at(),
                whole == declarations_at(old(self).text(), old(self).at() as int),
                outcome(
                    Ok::<Seq<DeclarationView>, ParseError>(declaration_views(declarations@)),
                    self.at() as int,
                ) == whole,
            decreases self.text().len() - self.at(),
        {
            proof {
                lemma_run_end(self.text(), self.at() as int, CharClass::Whitespace);
            }
            self.consume_whitespace();
            if self.eof() {
                return Err(ParseError::MalformedInput);
            }
            if self.next_char() == '}' {
                self.consume_char();
                break ;
            }
            let ghost held = declaration_views(declarations@);
            let next = self.parse_declaration()?;
            declarations.push(next);
            proof {
                assert(declaration_views(declarations@) =~= held.push(next@));
            }
        }
        Ok(declarations)
    }

    /// Reads one simple selector, such as `type#id.class1.class2.class3`.
    pub fn parse_simple_selector(&mut self) -> (selector: SimpleSelector)
        ensures
            final(self).text() == old(self).text(),
            old(self).at() <= final(self).at() <= final(self).text().len(),
            (selector@, final(self).at() as int) == simple_selector_from(
                old(self).text(),
                old(self).at() as int,
                blank_selector(),
            ),
    {
        let mut selector = SimpleSelector { tag_name: None, id: None, class: Vec::new() };
        let ghost whole = simple_selector_from(self.text(), self.at() as int, blank_selector());
        proof {
            use_type_invariant(&*self);
        }
        proof {
            assert(selector@.class =~= Seq::empty());
        }
        while !self.eof()
            invariant
                self.text() == old(self).text(),
                old(self).at() <= self.at() <= self.text().len(),
                whole == simple_selector_from(self.text(), self.at() as int, selector@),
            ensures
                self.text() == old(self).text(),
                old(self).at() <= self.at() <= self.text().len(),
                whole == (selector@, self.at() as int),
            decreases self.text().len() - self.at(),
        {
            let ghost held = selector@;
            let ghost at = self.at() as int;
            let c = self.next_char();
            if c == '#' {
                self.consume_char();
                proof {
                    lemma_run_end(self.text(), at + 1, CharClass::Identifier);
                }
                selector.id = Some(self.parse_identifier());
                assert(selector@.class =~= held.class);
            } else if c == '.' {
                self.consume_char();
                proof {
                    lemma_run_end(self.text(), at + 1, CharClass::Identifier);
                }
                let class = self.parse_identifier();
                selector.class.push(class);
                assert(selector@.class =~= held.class.push(class@));
            } else if c == '*' {
                // The universal selector.
                self.consume_char();
                assert(selector@.class =~= held.class);
            } else if valid_identifier_char(c) {
                proof {
                    lemma_run_end(self.text(), at, CharClass::Identifier);
                }
                selector.tag_name = Some(self.parse_identifier());
                assert(selector@.class =~= held.class);
            } else {
                break ;
            }
        }
        selector
    }

    /// Reads a list of selectors, separated by commas, and sorts them by
    /// rising weight.
    pub fn parse_selectors(&mut self) -> (found: Result<Vec<Selector>, ParseError>)
        ensures
            final(self).text() == old(self).text(),
            final(self).at() <= final(self).text().len(),
            match found {
                Ok(sorted) => {
                    &&& selectors_from(old(self).text(), old(self).at() as int, Seq::empty()) matches Ok(
                        (raw, end),
                    )
                    &&& end == final(self).at()
                    &&& is_sorted_by_weight(raw, selector_views(sorted@))
                    &&& old(self).at() <= final(self).at()
                },
                Err(e) => selectors_from(old(self).text(), old(self).at() as int, Seq::empty())
                    == Err::<(Seq<SelectorView>, int), ParseError>(e),
            },
    {
        let mut selectors: Vec<Selector> = Vec::new();
        let ghost whole = selectors_from(self.text(), self.at() as int, Seq::empty());
        proof {
            use_type_invariant(&*self);
        }
        proof {
            assert(selector_views(selectors@) =~= Seq::empty());
        }
        loop
            invariant_except_break
                whole == selectors_from(self.text(), self.at() as int, selector_views(selectors@)),
            invariant
                self.text() == old(self).text(),
                old(self).at() <= self.at() <= self.text().len(),
                whole == selectors_from(old(self).text(), old(self).at() as int, Seq::empty()),
            ensures
                self.text() == old(self).text(),
                old(self).at() <= self.at() <= self.text().len(),
                whole == selectors_from(old(self).text(), old(self).at() as int, Seq::empty()),
                whole == Ok::<(Seq<SelectorView>, int), ParseError>(
                    (selector_views(selectors@), self.at() as int),
                ),
            decreases self.text().len() - self.at(),
        {
            let ghost held = selector_views(selectors@);
            let ghost at = self.at() as int;
            let simple = self.parse_simple_selector();
            selectors.push(Selector::Simple(simple));
            proof {
                assert(selector_views(selectors@) =~= held.push(SelectorView::Simple(simple@)));
                lemma_run_end(self.text(), self.at() as int, CharClass::Whitespace);
            }
            self.consume_whitespace();
            if self.eof() {
                return Err(ParseError::MalformedInput);
            }
            let c = self.next_char();
            if c == ',' {
                self.consume_char();
                proof {
                    lemma_run_end(self.text(), self.at() as int, CharClass::Whitespace);
                }
                self.consume_whitespace();
            } else if c == '{' {
                break ;
            } else {
                return Err(ParseError::MalformedInput);
            }
        }
        // The selectors with the lowest specificity come first.
        Ok(sort_selectors(selectors))
    }

    /// Reads a rule set: `<selectors> { <declarations> }`.
    pub fn parse_rule(&mut self) -> (found: Result<Rule, ParseError>)
        ensures
            final(self).text() == old(self).text(),
            final(self).at() <= final(self).text().len(),
            match found {
                Ok(rule) => {
                    &&& rule_at(old(self).text(), old(self).at() as int) matches Ok((raw, end))
                    &&& end == final(self).at()
                    &&& is_sorted_rule(raw, rule@)
                    &&& old(self).at() < final(self).at()
                },
                Err(e) => rule_at(old(self).text(), old(self).at() as int) == Err::<
                    (RuleView, int),
                    ParseError,
                >(e),
            },
    {
        let selectors = self.parse_selectors()?;
        let declarations = self.parse_declarations()?;
        Ok(Rule { selectors, declarations })
    }

    /// Reads a list of rule sets, separated by optional white space.
    pub fn parse_rules(&mut self) -> (found: Result<Vec<Rule>, ParseError>)
        ensures
            final(self).text() == old(self).text(),
            match found {
                Ok(rules) => {
                    &&& rules_from(old(self).text(), old(self).at() as int, Seq::empty()) matches Ok(
                        raw,
                    )
                    &&& are_sorted_rules(raw, rule_views(rules@))
                },
                Err(e) => rules_from(old(self).text(), old(self).at() as int, Seq::empty())
                    == Err::<Seq<RuleView>, ParseError>(e),
            },
    {
        let mut rules: Vec<Rule> = Vec::new();
        let ghost whole = rules_from(self.text(), self.at() as int, Seq::empty());
        let ghost mut raw: Seq<RuleView> = Seq::empty();
        proof {
            use_type_invariant(&*self);
        }
        loop
            invariant
                self.text() == old(self).text(),
                self.at() <= self.text().len(),
                whole == rules_from(old(self).text(), old(self).at() as int, Seq::empty()),
                whole == rules_from(self.text(), self.at() as int, raw),
                are_sorted_rules(raw, rule_views(rules@)),
            ensures
                self.text() == old(self).text(),
                whole == rules_from(old(self).text(), old(self).at() as int, Seq::empty()),
                whole == Ok::<Seq<RuleView>, ParseError>(raw),
                are_sorted_rules(raw, rule_views(rules@)),
            decreases self.text().len() - self.at(),
        {
            proof {
                lemma_run_end(self.text(), self.at() as int, CharClass::Whitespace);
            }
            self.consume_whitespace();
            if self.eof() {
                break ;
            }
            let ghost at = self.at() as int;
            let ghost held = rule_views(rules@);
            let ghost before = raw;
            let next = self.parse_rule()?;
            rules.push(next);
            proof {
                raw = before.push(rule_at(self.text(), at)->Ok_0.0);
                assert(rule_views(rules@) =~= held.push(next@));
                assert forall|i: int| 0 <= i < raw.len() implies is_sorted_rule(
                    raw[i],
                    #[trigger] rule_views(rules@)[i],
                ) by {
                    if i < before.len() {
                        assert(rule_views(rules@)[i] == held[i]);
                    }
                }
            }
        }
        Ok(rules)
    }
}

/// Parses a whole stylesheet. In each rule the selectors are sorted by
/// rising weight.
pub fn parse(source: String) -> (sheet: Result<Stylesheet, ParseError>)
    ensures
        match sheet {
            Ok(sheet) => {
                &&& rules_from(source@, 0, Seq::empty()) matches Ok(raw)
                &&& are_sorted_rules(raw, sheet@.rules)
            },
            Err(e) => rules_from(source@, 0, Seq::empty()) == Err::<Seq<RuleView>, ParseError>(
                e,
            ),
        },
{
    let mut parser = Parser::new(source.as_str());
    let rules = parser.parse_rules()?;
    Ok(Stylesheet { rules })
}

} // verus!
