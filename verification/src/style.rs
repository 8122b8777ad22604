//! Applying a stylesheet to a document: selector matching, the cascade and
//! the tree of styled nodes.

use crate::css::{
    are_sorted_rules, comes_before, in_cascade_order, is_permutation, is_sorted_by_weight,
    is_sorted_rule, lists, outranked_by, ranks_below, selector_weights, weight, Rule, RuleView,
    Selector, SelectorView, SimpleSelector, SimpleSelectorView, Specificity, Stylesheet,
    StylesheetView, Value, ValueView,
};
use crate::dom::{holds_word, Element, ElementView, Node, NodeType, NodeTypeView, NodeView};
use crate::strmap::StringMap;
use crate::text::str_eq;
use vstd::prelude::*;

verus! {

/// The values that the cascade gave an element, by property name.
pub type PropertyMap = StringMap<Value>;

/// A node of the document with the values of its properties.
#[derive(Debug)]
pub struct StyledNode<'a> {
    pub node: &'a Node,
    pub specified_values: PropertyMap,
    pub children: Vec<StyledNode<'a>>,
}

/// The `display` property: which kind of box a node makes. `Hidden` stands
/// for the keyword `none`: such a node makes no box at all.
#[derive(Clone, Copy, Debug, PartialEq, Eq, Structural)]
pub enum Display {
    Inline,
    Block,
    Hidden,
}

/// What a [`StyledNode`] holds.
pub struct StyledNodeView {
    pub node: NodeView,
    pub specified_values: Map<Seq<char>, ValueView>,
    pub children: Seq<StyledNodeView>,
}

impl<'a> View for StyledNode<'a> {
    type V = StyledNodeView;

    open spec fn view(&self) -> StyledNodeView
        decreases self,
    {
        StyledNodeView {
            node: self.node@,
            specified_values: self.specified_values@,
            children: Seq::new(
                self.children.len() as nat,
                |i: int|
                    if 0 <= i < self.children.len() {
                        self.children[i]@
                    } else {
                        arbitrary()
                    },
            ),
        }
    }
}

/// The value under `name`, if the map has one.
pub open spec fn value_in(values: Map<Seq<char>, ValueView>, name: Seq<char>) -> Option<
    ValueView,
> {
    if values.contains_key(name) {
        Some(values[name])
    } else {
        None
    }
}

/// The value under `name`; without one, the value under `fallback_name`;
/// without that too, `default`.
pub open spec fn lookup_in(
    values: Map<Seq<char>, ValueView>,
    name: Seq<char>,
    fallback_name: Seq<char>,
    default: ValueView,
) -> ValueView {
    if values.contains_key(name) {
        values[name]
    } else if values.contains_key(fallback_name) {
        values[fallback_name]
    } else {
        default
    }
}

/// The kind of box that the property `display` asks for: `block` and `none`
/// are honoured, and anything else, or nothing, means inline.
pub open spec fn display_in(values: Map<Seq<char>, ValueView>) -> Display {
    match value_in(values, "display"@) {
        Some(ValueView::Keyword(word)) => if word == "block"@ {
            Display::Block
        } else if word == "none"@ {
            Display::Hidden
        } else {
            Display::Inline
        },
        _ => Display::Inline,
    }
}

impl StyledNodeView {
    /// The specified value of the property `name`, if there is one.
    pub open spec fn value(self, name: Seq<char>) -> Option<ValueView> {
        value_in(self.specified_values, name)
    }

    /// The specified value of `name`, else that of `fallback_name`, else
    /// `default`.
    pub open spec fn lookup(
        self,
        name: Seq<char>,
        fallback_name: Seq<char>,
        default: ValueView,
    ) -> ValueView {
        lookup_in(self.specified_values, name, fallback_name, default)
    }

    /// The value of the `display` property, inline by default.
    pub open spec fn display(self) -> Display {
        display_in(self.specified_values)
    }
}

/// The view of an optional value.
pub open spec fn value_view(value: Option<Value>) -> Option<ValueView> {
    match value {
        Some(v) => Some(v@),
        None => None,
    }
}

impl<'a> StyledNode<'a> {
    /// The view of a styled node holds the views of its children, one for one.
    pub proof fn lemma_view(self)
        ensures
            self@.node == self.node@,
            self@.specified_values == self.specified_values@,
            self@.children.len() == self.children.len(),
            forall|i: int|
                0 <= i < self.children.len() ==> #[trigger] self@.children[i]
                    == self.children[i]@,
    {
        reveal_with_fuel(<StyledNode as View>::view, 2);
    }

    /// The specified value of the property `name`, if there is one.
    pub fn value(&self, name: &str) -> (found: Option<Value>)
        ensures
            value_view(found) == self@.value(name@),
    {
        proof {
            self.lemma_view();
        }
        match self.specified_values.get(name) {
            Some(value) => Some(value.clone()),
            None => None,
        }
    }

    /// The specified value of `name`, else that of `fallback_name`, else
    /// `default`.
    pub fn lookup(&self, name: &str, fallback_name: &str, default: &Value) -> (found: Value)
        ensures
            found@ == self@.lookup(name@, fallback_name@, default@),
    {
        match self.value(name) {
            Some(value) => value,
            None => match self.value(fallback_name) {
                Some(value) => value,
                None => default.clone(),
            },
        }
    }

    /// The value of the `display` property, inline by default.
    pub fn display(&self) -> (display: Display)
        ensures
            display == self@.display(),
    {
        match self.value("display") {
            Some(Value::Keyword(word)) => {
                if str_eq(word.as_str(), "block") {
                    Display::Block
                } else if str_eq(word.as_str(), "none") {
                    Display::Hidden
                } else {
                    Display::Inline
                }
            },
            _ => Display::Inline,
        }
    }
}

impl SimpleSelectorView {
    /// Whether the selector matches the element: each of the tag name, the
    /// id and the classes that it names is one that the element has. What it
    /// does not name it does not ask for.
    pub open spec fn matches(self, element: ElementView) -> bool {
        &&& self.tag_name is Some ==> self.tag_name == Some(element.tag_name)
        &&& self.id is Some ==> self.id == element.id()
        &&& forall|i: int|
            0 <= i < self.class.len() ==> element.classes().contains(#[trigger] self.class[i])
    }
}

impl SelectorView {
    /// Whether the selector matches the element.
    pub open spec fn matches(self, element: ElementView) -> bool {
        match self {
            SelectorView::Simple(simple) => simple.matches(element),
        }
    }
}

impl RuleView {
    /// Whether one of the selectors of the rule matches the element.
    pub open spec fn matches(self, element: ElementView) -> bool {
        exists|i: int|
            0 <= i < self.selectors.len() && (#[trigger] self.selectors[i]).matches(element)
    }

    /// Whether `w` is the weight with which the rule applies to the element:
    /// that of the weightiest of its selectors that match.
    pub open spec fn applies_with(self, element: ElementView, w: (int, int, int)) -> bool {
        &&& exists|i: int|
            0 <= i < self.selectors.len() && (#[trigger] self.selectors[i]).matches(element)
                && self.selectors[i].specificity() == w
        &&& forall|i: int|
            0 <= i < self.selectors.len() && (#[trigger] self.selectors[i]).matches(element)
                ==> !ranks_below(w, self.selectors[i].specificity())
    }

    /// The weight with which the rule applies to the element, if it matches.
    pub open spec fn weight_for(self, element: ElementView) -> Option<(int, int, int)> {
        if self.matches(element) {
            Some(choose|w: (int, int, int)| self.applies_with(element, w))
        } else {
            None
        }
    }

    /// Whether `w` is the weight of the weightiest of the first `n`
    /// selectors of the rule that match the element.
    pub open spec fn applies_among(self, element: ElementView, w: (int, int, int), n: int) -> bool {
        &&& exists|i: int|
            0 <= i < n && (#[trigger] self.selectors[i]).matches(element)
                && self.selectors[i].specificity() == w
        &&& forall|i: int|
            0 <= i < n && (#[trigger] self.selectors[i]).matches(element) ==> !ranks_below(
                w,
                self.selectors[i].specificity(),
            )
    }

    /// Whether the first `n` selectors of the rule, as far as they match the
    /// element, have a weightiest one.
    pub open spec fn has_weight_among(self, element: ElementView, n: int) -> bool {
        exists|w: (int, int, int)| #[trigger] self.applies_among(element, w, n)
    }

    /// Where one of the first `n` selectors matches, one of those that match
    /// is the weightiest.
    pub proof fn lemma_weight_among(self, element: ElementView, n: int, i: int)
        requires
            0 <= i < n <= self.selectors.len(),
            self.selectors[i].matches(element),
        ensures
            self.has_weight_among(element, n),
        decreases n,
    {
        let last = self.selectors[n - 1];
        if i < n - 1 {
            self.lemma_weight_among(element, n - 1, i);
            let w = choose|w: (int, int, int)| #[trigger] self.applies_among(element, w, n - 1);
            if last.matches(element) && ranks_below(w, last.specificity()) {
                assert(self.applies_among(element, last.specificity(), n));
            } else {
                assert(self.applies_among(element, w, n));
            }
        } else if n > 1 && exists|j: int|
            0 <= j < n - 1 && (#[trigger] self.selectors[j]).matches(element) {
            let j = choose|j: int|
                0 <= j < n - 1 && (#[trigger] self.selectors[j]).matches(element);
            self.lemma_weight_among(element, n - 1, j);
            let w = choose|w: (int, int, int)| #[trigger] self.applies_among(element, w, n - 1);
            if ranks_below(w, last.specificity()) {
                assert(self.applies_among(element, last.specificity(), n));
            } else {
                assert(self.applies_among(element, w, n));
            }
        } else {
            assert(self.applies_among(element, last.specificity(), n));
        }
    }

    /// A rule that matches applies with the weight that `weight_for` gives.
    pub proof fn lemma_weight_for(self, element: ElementView)
        requires
            self.matches(element),
        ensures
            self.weight_for(element) is Some,
            self.applies_with(element, self.weight_for(element)->0),
    {
        let i = choose|i: int|
            0 <= i < self.selectors.len() && (#[trigger] self.selectors[i]).matches(element);
        self.lemma_weight_among(element, self.selectors.len() as int, i);
        let w = choose|w: (int, int, int)|
            #[trigger] self.applies_among(element, w, self.selectors.len() as int);
        assert(self.applies_with(element, w));
    }

    /// A rule applies with one weight and no other.
    pub proof fn lemma_one_weight(self, element: ElementView, w: (int, int, int))
        requires
            self.applies_with(element, w),
        ensures
            self.matches(element),
            self.weight_for(element) == Some(w),
    {
        let v = choose|v: (int, int, int)| self.applies_with(element, v);
        assert(self.applies_with(element, v));
        assert(v == w);
    }
}

/// Whether the selector matches the element.
pub fn matches_simple_selector(element: &Element, selector: &SimpleSelector) -> (matched: bool)
    ensures
        matched == selector@.matches(element@),
{
    // The tag name, where the selector has one.
    match &selector.tag_name {
        Some(name) => {
            if element.tag_name != *name {
                return false;
            }
        },
        None => {},
    }

    // The id, where the selector has one.
    match &selector.id {
        Some(id) => {
            match element.id() {
                Some(own) => {
                    if *own != *id {
                        return false;
                    }
                },
                None => {
                    return false;
                },
            }
        },
        None => {},
    }

    // The classes of the selector.
    let classes = element.classes();
    let mut i: usize = 0;
    while i < selector.class.len()
        invariant
            i <= selector.class.len(),
            forall|class: Seq<char>|
                element@.classes().contains(class) <==> holds_word(classes@, class),
            forall|j: int|
                0 <= j < i ==> element@.classes().contains(#[trigger] selector@.class[j]),
        decreases selector.class.len() - i,
    {
        let mut found = false;
        let mut k: usize = 0;
        while k < classes.len() && !found
            invariant
                k <= classes.len(),
                i < selector.class.len(),
                found ==> holds_word(classes@, selector.class[i as int]@),
                !found ==> forall|j: int|
                    0 <= j < k ==> (#[trigger] classes[j])@ != selector.class[i as int]@,
            decreases classes.len() - k + if found { 0int } else { 1int },
        {
            if classes[k] == selector.class[i] {
                found = true;
            } else {
                k = k + 1;
            }
        }
        if !found {
            assert(!holds_word(classes@, selector@.class[i as int]));
            return false;
        }
        i = i + 1;
    }

    // No part of the selector failed.
    true
}

/// Whether the selector matches the element.
pub fn matches(element: &Element, selector: &Selector) -> (matched: bool)
    ensures
        matched == selector@.matches(element@),
{
    match selector {
        Selector::Simple(simple) => matches_simple_selector(element, simple),
    }
}

/// A rule that matches an element, with the weight with which it applies.
pub type MatchedRule<'a> = (Specificity, &'a Rule);

/// The rule with the weight with which it applies to the element, if it
/// matches: the weight of the weightiest of its selectors that match.
pub fn match_rule<'a>(element: &Element, rule: &'a Rule) -> (matched: Option<MatchedRule<'a>>)
    ensures
        match matched {
            Some(found) => found.1 == rule && rule@.weight_for(element@) == Some(
                weight(found.0),
            ),
            None => !rule@.matches(element@),
        },
{
    let mut best: Option<Specificity> = None;
    let mut i: usize = 0;
    while i < rule.selectors.len()
        invariant
            i <= rule.selectors.len(),
            match best {
                Some(w) => {
                    &&& exists|j: int|
                        0 <= j < i && (#[trigger] rule@.selectors[j]).matches(element@)
                            && rule@.selectors[j].specificity() == weight(w)
                    &&& forall|j: int|
                        0 <= j < i && (#[trigger] rule@.selectors[j]).matches(element@)
                            ==> !ranks_below(weight(w), rule@.selectors[j].specificity())
                },
                None => forall|j: int|
                    0 <= j < i ==> !(#[trigger] rule@.selectors[j]).matches(element@),
            },
        decreases rule.selectors.len() - i,
    {
        let selector = &rule.selectors[i];
        let ghost held = best;
        assert(rule@.selectors[i as int] == selector@);
        if matches(element, selector) {
            let w = selector.specificity();
            let better = match best {
                Some(held) => outranked_by(held, w),
                None => true,
            };
            if better {
                best = Some(w);
                proof {
                    assert forall|j: int|
                        0 <= j < i + 1 && (#[trigger] rule@.selectors[j]).matches(
                            element@,
                        ) implies !ranks_below(weight(w), rule@.selectors[j].specificity()) by {
                        if j < i {
                            assert(!ranks_below(
                                weight(held->0),
                                rule@.selectors[j].specificity(),
                            ));
                        }
                    }
                }
            }
        }
        i = i + 1;
    }
    match best {
        Some(w) => {
            proof {
                rule@.lemma_one_weight(element@, weight(w));
            }
            Some((w, rule))
        },
        None => None,
    }
}

impl StylesheetView {
    /// The places of the rules among the first `n` that match the element,
    /// in the order of the stylesheet.
    pub open spec fn matching(self, element: ElementView, n: nat) -> Seq<int>
        decreases n,
    {
        if n == 0 || n > self.rules.len() {
            Seq::empty()
        } else {
            let before = self.matching(element, (n - 1) as nat);
            if self.rules[n - 1].matches(element) {
                before.push(n - 1)
            } else {
                before
            }
        }
    }

    /// The places that `matching` lists are those of the rules that match,
    /// in rising order.
    pub proof fn lemma_matching(self, element: ElementView, n: nat)
        requires
            n <= self.rules.len(),
        ensures
            forall|k: int|
                0 <= k < self.matching(element, n).len() ==> {
                    let r = #[trigger] self.matching(element, n)[k];
                    0 <= r < n && self.rules[r].matches(element)
                },
            forall|a: int, b: int|
                0 <= a < b < self.matching(element, n).len() ==> self.matching(element, n)[a]
                    < self.matching(element, n)[b],
            forall|r: int|
                0 <= r < n && (#[trigger] self.rules[r]).matches(element) ==> exists|k: int|
                    0 <= k < self.matching(element, n).len() && self.matching(element, n)[k]
                        == r,
        decreases n,
    {
        if n > 0 {
            self.lemma_matching(element, (n - 1) as nat);
            let before = self.matching(element, (n - 1) as nat);
            let now = self.matching(element, n);
            assert forall|r: int|
                0 <= r < n && (#[trigger] self.rules[r]).matches(element) implies exists|k: int|
                0 <= k < now.len() && now[k] == r by {
                if r < n - 1 {
                    let k = choose|k: int| 0 <= k < before.len() && before[k] == r;
                    assert(now[k] == r);
                } else {
                    assert(now[now.len() - 1] == r);
                }
            }
        }
    }
}

/// The weights of a list of matched rules.
pub open spec fn weights_of(rules: Seq<MatchedRule>) -> Seq<(int, int, int)> {
    Seq::new(rules.len(), |k: int| weight(rules[k].0))
}

/// All the rules of the stylesheet that match the element, each with the
/// weight with which it applies, in the order of the stylesheet.
pub fn matching_rules<'a>(element: &Element, stylesheet: &'a Stylesheet) -> (matched: Vec<
    MatchedRule<'a>,
>)
    ensures
        ({
            let places = stylesheet@.matching(element@, stylesheet@.rules.len());
            &&& matched.len() == places.len()
            &&& forall|k: int|
                0 <= k < matched.len() ==> {
                    &&& (#[trigger] matched[k]).1 == stylesheet.rules[places[k]]
                    &&& stylesheet@.rules[places[k]].weight_for(element@) == Some(
                        weight(matched[k].0),
                    )
                }
        }),
{
    // A linear scan of all the rules.
    let mut matched: Vec<MatchedRule<'a>> = Vec::new();
    let mut i: usize = 0;
    while i < stylesheet.rules.len()
        invariant
            i <= stylesheet.rules.len(),
            stylesheet@.rules.len() == stylesheet.rules.len(),
            ({
                let places = stylesheet@.matching(element@, i as nat);
                &&& matched.len() == places.len()
                &&& forall|k: int|
                    #![trigger matched[k]]
                    #![trigger places[k]]
                    0 <= k < matched.len() ==> {
                        &&& 0 <= places[k] < i
                        &&& matched[k].1 == stylesheet.rules[places[k]]
                        &&& stylesheet@.rules[places[k]].weight_for(element@) == Some(
                            weight(matched[k].0),
                        )
                    }
            }),
        decreases stylesheet.rules.len() - i,
    {
        assert(stylesheet@.rules[i as int] == stylesheet.rules[i as int]@);
        let ghost before = stylesheet@.matching(element@, i as nat);
        let ghost now = stylesheet@.matching(element@, (i + 1) as nat);
        let ghost held = matched@;
        match match_rule(element, &stylesheet.rules[i]) {
            Some(found) => {
                matched.push(found);
                proof {
                    assert(now == before.push(i as int));
                    assert forall|k: int|
                        #![trigger matched[k]]
                        #![trigger now[k]]
                        0 <= k < matched.len() implies {
                        &&& 0 <= now[k] < i + 1
                        &&& matched[k].1 == stylesheet.rules[now[k]]
                        &&& stylesheet@.rules[now[k]].weight_for(element@) == Some(
                            weight(matched[k].0),
                        )
                    } by {
                        if k < held.len() {
                            assert(matched[k] == held[k]);
                            assert(now[k] == before[k]);
                        }
                    }
                }
            },
            None => {
                assert(now == before);
            },
        }
        i = i + 1;
    }
    matched
}

/// Sorts matched rules by rising weight and leaves rules of equal weight in
/// the order in which they stood. Hands back which place each rule came
/// from.
pub fn sort_by_weight<'a>(rules: &mut Vec<MatchedRule<'a>>) -> (order: Ghost<Seq<int>>)
    ensures
        final(rules).len() == old(rules).len(),
        is_permutation(order@, old(rules).len() as int),
        in_cascade_order(weights_of(old(rules)@), order@),
        forall|k: int|
            0 <= k < final(rules).len() ==> #[trigger] final(rules)[k] == old(rules)[order@[k]],
{
    let n = rules.len();
    let ghost weights = weights_of(old(rules)@);
    let ghost mut order: Seq<int> = Seq::new(n as nat, |k: int| k);
    proof {
        assert forall|j: int| 0 <= j < n implies #[trigger] lists(order, j) by {
            assert(order[j] == j);
        }
    }
    let mut i: usize = 1;
    while i < n
        invariant
            1 <= i,
            rules.len() == n,
            old(rules).len() == n,
            weights == weights_of(old(rules)@),
            is_permutation(order, n as int),
            forall|k: int| 0 <= k < n ==> #[trigger] rules[k] == old(rules)[order[k]],
            forall|k: int| i <= k < n ==> #[trigger] order[k] == k,
            forall|k: int| 0 <= k < i && k < n ==> #[trigger] order[k] < i,
            forall|a: int, b: int|
                0 <= a < b < i && b < n ==> comes_before(
                    weights,
                    #[trigger] order[a],
                    #[trigger] order[b],
                ),
        decreases n - i,
    {
        let mut j: usize = i;
        while j > 0 && outranked_by(rules[j].0, rules[j - 1].0)
            invariant
                0 <= j <= i < n,
                rules.len() == n,
                old(rules).len() == n,
                weights == weights_of(old(rules)@),
                is_permutation(order, n as int),
                forall|k: int| 0 <= k < n ==> #[trigger] rules[k] == old(rules)[order[k]],
                forall|k: int| i < k < n ==> #[trigger] order[k] == k,
                order[j as int] == i,
                forall|k: int| 0 <= k <= i && k != j ==> #[trigger] order[k] < i,
                forall|a: int, b: int|
                    0 <= a < b <= i && a != j && b != j ==> comes_before(
                        weights,
                        #[trigger] order[a],
                        #[trigger] order[b],
                    ),
                forall|b: int|
                    j < b <= i ==> comes_before(weights, order[j as int], #[trigger] order[b]),
            decreases j,
        {
            let ghost held = order;
            let lower = rules[j - 1];
            let upper = rules[j];
            rules[j - 1] = upper;
            rules[j] = lower;
            proof {
                order = held.update(j - 1, held[j as int]).update(j as int, held[j - 1]);
                assert forall|p: int| 0 <= p < n implies #[trigger] lists(order, p) by {
                    assert(lists(held, p));
                    let k = choose|k: int| 0 <= k < n && #[trigger] held[k] == p;
                    if k == j {
                        assert(order[j - 1] == p);
                    } else if k == j - 1 {
                        assert(order[j as int] == p);
                    } else {
                        assert(order[k] == p);
                    }
                }
                assert forall|a: int, b: int|
                    0 <= a < b <= i && a != j - 1 && b != j - 1 implies comes_before(
                    weights,
                    #[trigger] order[a],
                    #[trigger] order[b],
                ) by {
                    let x = if a == j { j - 1 } else { a };
                    let y = if b == j { j - 1 } else { b };
                    if a == j {
                        assert(comes_before(weights, held[j - 1], held[b]));
                    } else if b == j {
                        assert(comes_before(weights, held[a], held[j - 1]));
                    } else {
                        assert(comes_before(weights, held[a], held[b]));
                    }
                }
                assert forall|b: int| j - 1 < b <= i implies comes_before(
                    weights,
                    order[j - 1],
                    #[trigger] order[b],
                ) by {
                    if b == j {
                        assert(weights[held[j as int]] == weight(old(rules)[held[j as int]].0));
                        assert(weights[held[j - 1]] == weight(old(rules)[held[j - 1]].0));
                    } else {
                        assert(comes_before(weights, held[j as int], held[b]));
                    }
                }
            }
            j = j - 1;
        }
        proof {
            // The rule now stands behind every rule that comes before it.
            assert forall|a: int, b: int| 0 <= a < b < i + 1 implies comes_before(
                weights,
                #[trigger] order[a],
                #[trigger] order[b],
            ) by {
                if b == j {
                    assert(weights[order[j as int]] == weight(old(rules)[order[j as int]].0));
                    assert(weights[order[j - 1]] == weight(old(rules)[order[j - 1]].0));
                    assert(order[j - 1] < i);
                    assert(comes_before(weights, order[j - 1], order[j as int]));
                    if a < j - 1 {
                        assert(comes_before(weights, order[a], order[j - 1]));
                    }
                } else if a == j {
                    assert(comes_before(weights, order[j as int], order[b]));
                } else {
                    assert(comes_before(weights, order[a], order[b]));
                }
            }
        }
        i = i + 1;
    }
    Ghost(order)
}

impl StylesheetView {
    /// Whether `d` is the place of a declaration in the rule at `r`, and that
    /// rule matches the element.
    pub open spec fn is_candidate(self, element: ElementView, r: int, d: int) -> bool {
        &&& 0 <= r < self.rules.len()
        &&& self.rules[r].matches(element)
        &&& 0 <= d < self.rules[r].declarations.len()
    }

    /// Whether the declaration at `(r1, d1)` yields to the one at `(r2, d2)`:
    /// its rule applies with a lower weight; or with the same weight, and it
    /// stands earlier in the stylesheet.
    pub open spec fn yields_to(self, element: ElementView, r1: int, d1: int, r2: int, d2: int)
        -> bool {
        let w1 = self.rules[r1].weight_for(element)->0;
        let w2 = self.rules[r2].weight_for(element)->0;
        ranks_below(w1, w2) || (w1 == w2 && (r1 < r2 || (r1 == r2 && d1 < d2)))
    }

    /// Whether the declaration at `(r, d)` decides its property for the
    /// element: every other declaration of that property in a rule that
    /// matches yields to it.
    pub open spec fn decides(self, element: ElementView, r: int, d: int) -> bool {
        &&& self.is_candidate(element, r, d)
        &&& forall|r2: int, d2: int|
            #[trigger] self.is_candidate(element, r2, d2) && self.rules[r2].declarations[d2].name
                == self.rules[r].declarations[d].name && (r2 != r || d2 != d) ==> self.yields_to(
                element,
                r2,
                d2,
                r,
                d,
            )
    }

    /// Whether some rule that matches the element declares the property.
    pub open spec fn declares(self, element: ElementView, name: Seq<char>) -> bool {
        exists|r: int, d: int|
            #[trigger] self.is_candidate(element, r, d) && self.rules[r].declarations[d].name
                == name
    }

    /// The values that the stylesheet specifies for the element: for each
    /// property that a matching rule declares, the value of the declaration
    /// that decides it.
    pub open spec fn specified_values(self, element: ElementView) -> Map<Seq<char>, ValueView> {
        Map::new(
            |name: Seq<char>| self.declares(element, name),
            |name: Seq<char>|
                {
                    let (r, d) = choose|r: int, d: int|
                        #[trigger] self.decides(element, r, d)
                            && self.rules[r].declarations[d].name == name;
                    self.rules[r].declarations[d].value
                },
        )
    }

    /// The declaration that decides a property gives it its value.
    pub proof fn lemma_deciding_value(self, element: ElementView, r: int, d: int)
        requires
            self.decides(element, r, d),
        ensures
            self.specified_values(element).contains_key(self.rules[r].declarations[d].name),
            self.specified_values(element)[self.rules[r].declarations[d].name]
                == self.rules[r].declarations[d].value,
    {
        let name = self.rules[r].declarations[d].name;
        assert(self.is_candidate(element, r, d));
        let (rc, dc) = choose|rc: int, dc: int|
            #[trigger] self.decides(element, rc, dc) && self.rules[rc].declarations[dc].name
                == name;
        assert(self.decides(element, rc, dc));
        if rc != r || dc != d {
            assert(self.is_candidate(element, rc, dc));
            assert(self.yields_to(element, rc, dc, r, d));
            assert(self.yields_to(element, r, d, rc, dc));
        }
    }
}

/// Whether the declaration at `(k1, d1)` of a list of rules is applied
/// before the one at `(k2, d2)`.
pub open spec fn applied_before(k1: int, d1: int, k2: int, d2: int) -> bool {
    k1 < k2 || (k1 == k2 && d1 < d2)
}

/// The values that the stylesheet specifies for the element.
///
/// The rules that match are applied by rising weight, those of equal weight
/// in the order of the stylesheet, and each declaration replaces what an
/// earlier one set for its property.
pub fn specified_values(element: &Element, stylesheet: &Stylesheet) -> (values: PropertyMap)
    ensures
        values@ == stylesheet@.specified_values(element@),
{
    let mut values = PropertyMap::new();
    let mut rules = matching_rules(element, stylesheet);
    let ghost sheet = stylesheet@;
    let ghost who = element@;
    let ghost places = sheet.matching(who, sheet.rules.len());
    let ghost found = rules@;

    // Go through the rules from lowest to highest specificity.
    let Ghost(order) = sort_by_weight(&mut rules);
    let n = rules.len();
    let ghost rank = Seq::new(n as nat, |k: int| places[order[k]]);
    let ghost mut source: Map<Seq<char>, (int, int)> = Map::empty();
    proof {
        sheet.lemma_matching(who, sheet.rules.len());
        assert forall|k: int| 0 <= k < n implies {
            &&& 0 <= #[trigger] rank[k] < sheet.rules.len()
            &&& sheet.rules[rank[k]].matches(who)
            &&& rules[k].1 == stylesheet.rules[rank[k]]
            &&& sheet.rules[rank[k]].weight_for(who) == Some(weight(rules[k].0))
        } by {
            assert(rules[k] == found[order[k]]);
        }
        assert forall|a: int, b: int| 0 <= a < b < n implies (#[trigger] rank[a] != #[trigger] rank[b]
            && sheet.yields_to(who, rank[a], 0, rank[b], 0)) by {
            assert(comes_before(weights_of(found), order[a], order[b]));
            assert(weights_of(found)[order[a]] == weight(found[order[a]].0));
            assert(weights_of(found)[order[b]] == weight(found[order[b]].0));
            if order[a] < order[b] {
                assert(places[order[a]] < places[order[b]]);
            }
        }
        assert forall|r: int| 0 <= r < sheet.rules.len() && (#[trigger] sheet.rules[r]).matches(
            who,
        ) implies lists(rank, r) by {
            let j = choose|j: int| 0 <= j < places.len() && places[j] == r;
            assert(lists(order, j));
            let k = choose|k: int| 0 <= k < order.len() && #[trigger] order[k] == j;
            assert(rank[k] == r);
        }
        assert(values@.dom() =~= source.dom());
    }
    let mut k: usize = 0;
    while k < n
        invariant
            k <= n,
            n == rules.len(),
            n == rank.len(),
            sheet == stylesheet@,
            forall|j: int|
                0 <= j < n ==> {
                    &&& 0 <= #[trigger] rank[j] < sheet.rules.len()
                    &&& rules[j].1 == stylesheet.rules[rank[j]]
                },
            values@.dom() == source.dom(),
            forall|name: Seq<char>| #[trigger]
                source.contains_key(name) ==> {
                    let (k1, d1) = source[name];
                    &&& 0 <= k1 < k
                    &&& 0 <= d1 < sheet.rules[rank[k1]].declarations.len()
                    &&& sheet.rules[rank[k1]].declarations[d1].name == name
                    &&& values@[name] == sheet.rules[rank[k1]].declarations[d1].value
                },
            forall|k1: int, d1: int|
                0 <= k1 < k && 0 <= d1 < sheet.rules[rank[k1]].declarations.len() ==> {
                    let name = #[trigger] sheet.rules[rank[k1]].declarations[d1].name;
                    &&& source.contains_key(name)
                    &&& source[name] == (k1, d1) || applied_before(
                        k1,
                        d1,
                        source[name].0,
                        source[name].1,
                    )
                },
        decreases n - k,
    {
        let rule = rules[k].1;
        let ghost r = rank[k as int];
        assert(*rule == stylesheet.rules[r]);
        assert(sheet.rules[r] == rule@);
        let m = rule.declarations.len();
        let mut d: usize = 0;
        while d < m
            invariant
                d <= m,
                k < n,
                n == rank.len(),
                r == rank[k as int],
                0 <= r < sheet.rules.len(),
                sheet.rules[r] == rule@,
                m == rule.declarations.len(),
                m == rule@.declarations.len(),
                values@.dom() == source.dom(),
                forall|name: Seq<char>| #[trigger]
                    source.contains_key(name) ==> {
                        let (k1, d1) = source[name];
                        &&& 0 <= k1 <= k
                        &&& k1 == k ==> d1 < d
                        &&& 0 <= d1 < sheet.rules[rank[k1]].declarations.len()
                        &&& sheet.rules[rank[k1]].declarations[d1].name == name
                        &&& values@[name] == sheet.rules[rank[k1]].declarations[d1].value
                    },
                forall|k1: int, d1: int|
                    0 <= k1 <= k && 0 <= d1 < sheet.rules[rank[k1]].declarations.len() && (k1 == k
                        ==> d1 < d) ==> {
                        let name = #[trigger] sheet.rules[rank[k1]].declarations[d1].name;
                        &&& source.contains_key(name)
                        &&& source[name] == (k1, d1) || applied_before(
                            k1,
                            d1,
                            source[name].0,
                            source[name].1,
                        )
                    },
            decreases m - d,
        {
            let declaration = &rule.declarations[d];
            assert(rule@.declarations[d as int] == declaration@);
            values.insert(declaration.name.clone(), declaration.value.clone());
            proof {
                source = source.insert(declaration.name@, (k as int, d as int));
                assert(values@.dom() =~= source.dom());
            }
            d = d + 1;
        }
        k = k + 1;
    }
    proof {
        let want = sheet.specified_values(who);
        assert forall|name: Seq<char>| #[trigger]
            values@.contains_key(name) implies want.contains_key(name) && want[name]
            == values@[name] by {
            assert(source.contains_key(name));
            let (k1, d1) = source[name];
            let r1 = rank[k1];
            assert(sheet.is_candidate(who, r1, d1));
            assert forall|r2: int, d2: int|
                #[trigger] sheet.is_candidate(who, r2, d2) && sheet.rules[r2].declarations[d2].name
                    == name && (r2 != r1 || d2 != d1) implies sheet.yields_to(
                who,
                r2,
                d2,
                r1,
                d1,
            ) by {
                assert(lists(rank, r2));
                let k2 = choose|k2: int| 0 <= k2 < rank.len() && #[trigger] rank[k2] == r2;
                assert(sheet.rules[rank[k2]].declarations[d2].name == name);
                if k2 < k1 {
                    assert(sheet.yields_to(who, rank[k2], 0, rank[k1], 0));
                } else if k1 < k2 {
                    assert(rank[k1] != rank[k2]);
                }
            }
            sheet.lemma_deciding_value(who, r1, d1);
        }
        assert forall|name: Seq<char>| #[trigger]
            want.contains_key(name) implies values@.contains_key(name) by {
            let (r, d) = choose|r: int, d: int|
                #[trigger] sheet.is_candidate(who, r, d) && sheet.rules[r].declarations[d].name
                    == name;
            assert(lists(rank, r));
            let k1 = choose|k1: int| 0 <= k1 < rank.len() && #[trigger] rank[k1] == r;
            assert(sheet.rules[rank[k1]].declarations[d].name == name);
        }
        assert forall|name: Seq<char>| values@.dom().contains(name) == want.dom().contains(
            name,
        ) by {
            if values@.contains_key(name) {
                assert(want.contains_key(name));
            }
            if want.contains_key(name) {
                assert(values@.contains_key(name));
            }
        }
        assert(values@.dom() =~= want.dom());
        assert(values@ =~= want);
    }
    values
}

/// The styled tree of a document: each element with the values that the
/// stylesheet specifies for it, each text node with none, and the children
/// of each node one for one, in document order.
pub open spec fn styled(root: NodeView, sheet: StylesheetView) -> StyledNodeView
    decreases root,
{
    StyledNodeView {
        node: root,
        specified_values: match root.node_type {
            NodeTypeView::Element(element) => sheet.specified_values(element),
            NodeTypeView::Text(_) => Map::empty(),
        },
        children: Seq::new(
            root.children.len(),
            |i: int|
                if 0 <= i < root.children.len() {
                    styled(root.children[i], sheet)
                } else {
                    arbitrary()
                },
        ),
    }
}

/// The styled tree holds the styled trees of the children, one for one.
pub proof fn lemma_styled_children(root: NodeView, sheet: StylesheetView)
    ensures
        styled(root, sheet).children.len() == root.children.len(),
        forall|i: int|
            0 <= i < root.children.len() ==> #[trigger] styled(root, sheet).children[i] == styled(
                root.children[i],
                sheet,
            ),
{
    reveal_with_fuel(styled, 2);
}

/// Applies a stylesheet to a whole document.
pub fn style_tree<'a>(root: &'a Node, stylesheet: &'a Stylesheet) -> (tree: StyledNode<'a>)
    ensures
        tree@ == styled(root@, stylesheet@),
        tree.node == root,
    decreases root,
{
    let specified_values = match &root.node_type {
        NodeType::Element(element) => specified_values(element, stylesheet),
        NodeType::Text(_) => PropertyMap::new(),
    };
    let mut children: Vec<StyledNode<'a>> = Vec::new();
    let mut i: usize = 0;
    proof {
        root.lemma_view();
        lemma_styled_children(root@, stylesheet@);
    }
    while i < root.children.len()
        invariant
            i <= root.children.len(),
            children.len() == i,
            root@.children.len() == root.children.len(),
            forall|j: int|
                0 <= j < root.children.len() ==> #[trigger] root@.children[j]
                    == root.children[j]@,
            forall|j: int|
                0 <= j < i ==> (#[trigger] children[j])@ == styled(
                    root@.children[j],
                    stylesheet@,
                ),
        decreases root.children.len() - i,
    {
        let child = style_tree(&root.children[i], stylesheet);
        children.push(child);
        i = i + 1;
    }
    let tree = StyledNode { node: root, specified_values, children };
    proof {
        tree.lemma_view();
        assert(tree@.children =~= styled(root@, stylesheet@).children);
    }
    tree
}

/// A selector that names no tag, no id and no class matches every element.
pub proof fn lemma_universal_selector_matches(selector: SimpleSelectorView, element: ElementView)
    requires
        selector.tag_name is None,
        selector.id is None,
        selector.class.len() == 0,
    ensures
        selector.matches(element),
{
}

/// A selector matches exactly when each part that it names is met: its tag
/// name is that of the element, its id is the id of the element, and each of
/// its classes is a class of the element.
pub proof fn lemma_matches_part_by_part(selector: SimpleSelectorView, element: ElementView)
    ensures
        selector.matches(element) <==> {
            &&& selector.tag_name matches Some(tag) ==> tag == element.tag_name
            &&& selector.id matches Some(id) ==> element.id() == Some(id)
            &&& forall|i: int|
                0 <= i < selector.class.len() ==> element.classes().contains(
                    #[trigger] selector.class[i],
                )
        },
{
}

/// A part that a selector does not name never makes it fail: a selector
/// that matches still matches without its tag name, without its id, and with
/// fewer classes.
pub proof fn lemma_fewer_parts_still_match(
    selector: SimpleSelectorView,
    element: ElementView,
    kept: nat,
)
    requires
        selector.matches(element),
        kept <= selector.class.len(),
    ensures
        (SimpleSelectorView { tag_name: None, ..selector }).matches(element),
        (SimpleSelectorView { id: None, ..selector }).matches(element),
        (SimpleSelectorView { class: selector.class.take(kept as int), ..selector }).matches(
            element,
        ),
{
    let fewer = SimpleSelectorView { class: selector.class.take(kept as int), ..selector };
    assert forall|i: int| 0 <= i < fewer.class.len() implies element.classes().contains(
        #[trigger] fewer.class[i],
    ) by {
        assert(fewer.class[i] == selector.class[i]);
    }
}

/// The values of an element depend on the element and the stylesheet alone:
/// resolved twice, they are the same.
pub proof fn lemma_resolving_twice_agrees(
    first: StyledNodeView,
    second: StyledNodeView,
    root: NodeView,
    sheet: StylesheetView,
)
    requires
        first == styled(root, sheet),
        second == styled(root, sheet),
    ensures
        first == second,
        first.specified_values == second.specified_values,
{
}

/// A stylesheet of one rule with one declaration gives an element that the
/// rule matches that one value, and any other element none.
pub proof fn lemma_single_declaration(sheet: StylesheetView, element: ElementView)
    requires
        sheet.rules.len() == 1,
        sheet.rules[0].declarations.len() == 1,
    ensures
        sheet.rules[0].matches(element) ==> sheet.specified_values(element) == Map::<
            Seq<char>,
            ValueView,
        >::empty().insert(
            sheet.rules[0].declarations[0].name,
            sheet.rules[0].declarations[0].value,
        ),
        !sheet.rules[0].matches(element) ==> sheet.specified_values(element) == Map::<
            Seq<char>,
            ValueView,
        >::empty(),
{
    let values = sheet.specified_values(element);
    let name = sheet.rules[0].declarations[0].name;
    if sheet.rules[0].matches(element) {
        assert(sheet.is_candidate(element, 0, 0));
        assert(sheet.decides(element, 0, 0));
        sheet.lemma_deciding_value(element, 0, 0);
        let want = Map::<Seq<char>, ValueView>::empty().insert(
            name,
            sheet.rules[0].declarations[0].value,
        );
        assert forall|other: Seq<char>| values.contains_key(other) implies other == name by {
            let (r, d) = choose|r: int, d: int|
                #[trigger] sheet.is_candidate(element, r, d) && sheet.rules[r].declarations[d].name
                    == other;
        }
        assert(values =~= want);
    } else {
        assert forall|other: Seq<char>| !values.contains_key(other) by {
            if sheet.declares(element, other) {
                let (r, d) = choose|r: int, d: int|
                    #[trigger] sheet.is_candidate(element, r, d)
                        && sheet.rules[r].declarations[d].name == other;
            }
        }
        assert(values =~= Map::<Seq<char>, ValueView>::empty());
    }
}

/// A declaration in a rule of higher weight wins over one of the same
/// property in a rule of lower weight; and of two rules of equal weight the
/// later one wins.
pub proof fn lemma_weight_then_order_decide(
    sheet: StylesheetView,
    element: ElementView,
    r1: int,
    d1: int,
    r2: int,
    d2: int,
)
    requires
        sheet.is_candidate(element, r1, d1),
        sheet.decides(element, r2, d2),
        sheet.rules[r1].declarations[d1].name == sheet.rules[r2].declarations[d2].name,
    ensures
        !ranks_below(
            sheet.rules[r2].weight_for(element)->0,
            sheet.rules[r1].weight_for(element)->0,
        ),
        sheet.rules[r1].weight_for(element) == sheet.rules[r2].weight_for(element) ==> r1 <= r2,
{
    if r1 != r2 || d1 != d2 {
        assert(sheet.yields_to(element, r1, d1, r2, d2));
    }
}

impl StylesheetView {
    /// Whether the declaration at `(r, d)` is one for the element, and stands
    /// before the place `(n, m)`.
    pub open spec fn is_candidate_before(
        self,
        element: ElementView,
        r: int,
        d: int,
        n: int,
        m: int,
    ) -> bool {
        self.is_candidate(element, r, d) && (r < n || (r == n && d < m))
    }

    /// Whether the declaration at `(r, d)` decides its property among the
    /// declarations that stand before the place `(n, m)`.
    pub open spec fn decides_before(self, element: ElementView, r: int, d: int, n: int, m: int)
        -> bool {
        &&& self.is_candidate_before(element, r, d, n, m)
        &&& forall|r2: int, d2: int|
            #[trigger] self.is_candidate_before(element, r2, d2, n, m)
                && self.rules[r2].declarations[d2].name == self.rules[r].declarations[d].name && (r2
                != r || d2 != d) ==> self.yields_to(element, r2, d2, r, d)
    }

    /// Whether some declaration before the place `(n, m)` decides the
    /// property `name` among the declarations before that place.
    pub open spec fn is_decided_before(self, element: ElementView, name: Seq<char>, n: int, m: int)
        -> bool {
        exists|r: int, d: int|
            #[trigger] self.decides_before(element, r, d, n, m)
                && self.rules[r].declarations[d].name == name
    }

    /// Whether some declaration before the place `(n, m)` is one of the
    /// property `name` for the element.
    pub open spec fn is_declared_before(
        self,
        element: ElementView,
        name: Seq<char>,
        n: int,
        m: int,
    ) -> bool {
        exists|r: int, d: int|
            #[trigger] self.is_candidate_before(element, r, d, n, m)
                && self.rules[r].declarations[d].name == name
    }

    /// Among the declarations of a property up to any place, one decides.
    pub proof fn lemma_decided_before(self, element: ElementView, name: Seq<char>, n: int, m: int)
        requires
            0 <= n <= self.rules.len(),
            0 <= m,
            n < self.rules.len() ==> m <= self.rules[n].declarations.len(),
            n == self.rules.len() ==> m == 0,
            self.is_declared_before(element, name, n, m),
        ensures
            self.is_decided_before(element, name, n, m),
        decreases n, m,
    {
        // The place just before `(n, m)`.
        let (pn, pm) = if m > 0 {
            (n, m - 1)
        } else {
            (n - 1, self.rules[n - 1].declarations.len() as int)
        };
        let (r0, d0) = choose|r: int, d: int|
            #[trigger] self.is_candidate_before(element, r, d, n, m)
                && self.rules[r].declarations[d].name == name;
        assert(n > 0 || m > 0);
        if m == 0 {
            // Nothing stands between the end of the rule before and `(n, 0)`.
            assert(self.is_candidate_before(element, r0, d0, pn, pm));
            self.lemma_decided_before(element, name, pn, pm);
            let (r, d) = choose|r: int, d: int|
                #[trigger] self.decides_before(element, r, d, pn, pm)
                    && self.rules[r].declarations[d].name == name;
            assert forall|r2: int, d2: int|
                #[trigger] self.is_candidate_before(element, r2, d2, n, m)
                    && self.rules[r2].declarations[d2].name == name && (r2 != r || d2
                    != d) implies self.yields_to(element, r2, d2, r, d) by {
                assert(self.is_candidate_before(element, r2, d2, pn, pm));
            }
            assert(self.decides_before(element, r, d, n, m));
        } else {
            let new_is_one = self.is_candidate(element, n, m - 1) && self.rules[n].declarations[m
                - 1].name == name;
            if self.is_declared_before(element, name, pn, pm) {
                self.lemma_decided_before(element, name, pn, pm);
                let (r, d) = choose|r: int, d: int|
                    #[trigger] self.decides_before(element, r, d, pn, pm)
                        && self.rules[r].declarations[d].name == name;
                if new_is_one && self.yields_to(element, r, d, n, m - 1) {
                    assert forall|r2: int, d2: int|
                        #[trigger] self.is_candidate_before(element, r2, d2, n, m)
                            && self.rules[r2].declarations[d2].name == name && (r2 != n || d2 != m
                            - 1) implies self.yields_to(element, r2, d2, n, m - 1) by {
                        assert(self.is_candidate_before(element, r2, d2, pn, pm));
                        if r2 != r || d2 != d {
                            assert(self.yields_to(element, r2, d2, r, d));
                        }
                    }
                    assert(self.decides_before(element, n, m - 1, n, m));
                } else {
                    assert forall|r2: int, d2: int|
                        #[trigger] self.is_candidate_before(element, r2, d2, n, m)
                            && self.rules[r2].declarations[d2].name == name && (r2 != r || d2
                            != d) implies self.yields_to(element, r2, d2, r, d) by {
                        if r2 == n && d2 == m - 1 {
                            assert(new_is_one);
                        } else {
                            assert(self.is_candidate_before(element, r2, d2, pn, pm));
                        }
                    }
                    assert(self.decides_before(element, r, d, n, m));
                }
            } else {
                // The declaration just before `(n, m)` is the only one.
                assert(r0 == n && d0 == m - 1) by {
                    if r0 != n || d0 != m - 1 {
                        assert(self.is_candidate_before(element, r0, d0, pn, pm));
                    }
                }
                assert forall|r2: int, d2: int|
                    #[trigger] self.is_candidate_before(element, r2, d2, n, m)
                        && self.rules[r2].declarations[d2].name == name && (r2 != n || d2 != m
                        - 1) implies self.yields_to(element, r2, d2, n, m - 1) by {
                    assert(self.is_candidate_before(element, r2, d2, pn, pm));
                }
                assert(self.decides_before(element, n, m - 1, n, m));
            }
        }
    }

    /// Every property that a matching rule declares is decided by one of its
    /// declarations, and has the value of that declaration.
    pub proof fn lemma_every_property_is_decided(self, element: ElementView, name: Seq<char>)
        requires
            self.declares(element, name),
        ensures
            exists|r: int, d: int|
                #[trigger] self.decides(element, r, d) && self.rules[r].declarations[d].name == name
                    && self.specified_values(element)[name]
                    == self.rules[r].declarations[d].value,
    {
        let end = self.rules.len() as int;
        let (r0, d0) = choose|r: int, d: int|
            #[trigger] self.is_candidate(element, r, d) && self.rules[r].declarations[d].name
                == name;
        assert(self.is_candidate_before(element, r0, d0, end, 0));
        self.lemma_decided_before(element, name, end, 0);
        let (r, d) = choose|r: int, d: int|
            #[trigger] self.decides_before(element, r, d, end, 0)
                && self.rules[r].declarations[d].name == name;
        assert forall|r2: int, d2: int|
            #[trigger] self.is_candidate(element, r2, d2) && self.rules[r2].declarations[d2].name
                == name && (r2 != r || d2 != d) implies self.yields_to(element, r2, d2, r, d) by {
            assert(self.is_candidate_before(element, r2, d2, end, 0));
        }
        assert(self.decides(element, r, d));
        self.lemma_deciding_value(element, r, d);
    }
}

/// Whether `wanted` is one of `selectors`.
spec fn has_selector(selectors: Seq<SelectorView>, wanted: SelectorView) -> bool {
    exists|k: int| 0 <= k < selectors.len() && #[trigger] selectors[k] == wanted
}

/// The order of the selectors of a rule does not count: a rule with its
/// selectors sorted matches the same elements, with the same weight.
pub proof fn lemma_selector_order_does_not_count(
    raw: RuleView,
    sorted: RuleView,
    element: ElementView,
)
    requires
        is_sorted_rule(raw, sorted),
    ensures
        raw.matches(element) == sorted.matches(element),
        raw.weight_for(element) == sorted.weight_for(element),
{
    let order = choose|order: Seq<int>|
        {
            &&& is_permutation(order, raw.selectors.len() as int)
            &&& #[trigger] in_cascade_order(selector_weights(raw.selectors), order)
            &&& sorted.selectors.len() == raw.selectors.len()
            &&& forall|k: int|
                0 <= k < sorted.selectors.len() ==> #[trigger] sorted.selectors[k]
                    == raw.selectors[order[k]]
        };
    // Each selector of one rule is a selector of the other.
    assert forall|i: int| 0 <= i < raw.selectors.len() implies has_selector(
        sorted.selectors,
        #[trigger] raw.selectors[i],
    ) by {
        assert(lists(order, i));
        let k = choose|k: int| 0 <= k < order.len() && #[trigger] order[k] == i;
        assert(sorted.selectors[k] == raw.selectors[order[k]]);
    }
    if raw.matches(element) {
        raw.lemma_weight_for(element);
        let w = raw.weight_for(element)->0;
        let i = choose|i: int|
            0 <= i < raw.selectors.len() && (#[trigger] raw.selectors[i]).matches(element)
                && raw.selectors[i].specificity() == w;
        assert(has_selector(sorted.selectors, raw.selectors[i]));
        let k = choose|k: int|
            0 <= k < sorted.selectors.len() && #[trigger] sorted.selectors[k]
                == raw.selectors[i];
        assert(sorted.selectors[k].matches(element));
        assert forall|j: int|
            0 <= j < sorted.selectors.len() && (#[trigger] sorted.selectors[j]).matches(
                element,
            ) implies !ranks_below(w, sorted.selectors[j].specificity()) by {
            assert(sorted.selectors[j] == raw.selectors[order[j]]);
            assert(raw.selectors[order[j]].matches(element));
        }
        assert(sorted.applies_with(element, w));
        sorted.lemma_one_weight(element, w);
    } else if sorted.matches(element) {
        let k = choose|k: int|
            0 <= k < sorted.selectors.len() && (#[trigger] sorted.selectors[k]).matches(element);
        assert(sorted.selectors[k] == raw.selectors[order[k]]);
        assert(raw.selectors[order[k]].matches(element));
    }
}

/// A stylesheet with the selectors of each rule sorted specifies the same
/// values as the stylesheet as it was written.
pub proof fn lemma_sorted_stylesheet_specifies_the_same(
    raw: StylesheetView,
    sorted: StylesheetView,
    element: ElementView,
)
    requires
        are_sorted_rules(raw.rules, sorted.rules),
    ensures
        raw.specified_values(element) == sorted.specified_values(element),
{
    assert forall|r: int| 0 <= r < raw.rules.len() implies {
        &&& (#[trigger] raw.rules[r]).matches(element) == sorted.rules[r].matches(element)
        &&& raw.rules[r].weight_for(element) == sorted.rules[r].weight_for(element)
        &&& raw.rules[r].declarations == sorted.rules[r].declarations
    } by {
        assert(is_sorted_rule(raw.rules[r], sorted.rules[r]));
        lemma_selector_order_does_not_count(raw.rules[r], sorted.rules[r], element);
    }
    assert forall|r: int, d: int|
        raw.is_candidate(element, r, d) == sorted.is_candidate(element, r, d) by {
        if 0 <= r < raw.rules.len() {
            assert(raw.rules[r].matches(element) == sorted.rules[r].matches(element));
        }
    }
    assert forall|r: int, d: int| raw.decides(element, r, d) implies sorted.decides(
        element,
        r,
        d,
    ) by {
        assert(raw.rules[r].matches(element));
        assert forall|r2: int, d2: int|
            #[trigger] sorted.is_candidate(element, r2, d2)
                && sorted.rules[r2].declarations[d2].name == sorted.rules[r].declarations[d].name
                && (r2 != r || d2 != d) implies sorted.yields_to(element, r2, d2, r, d) by {
            assert(raw.is_candidate(element, r2, d2));
            assert(raw.rules[r2].matches(element));
            assert(raw.yields_to(element, r2, d2, r, d));
        }
    }
    let a = raw.specified_values(element);
    let b = sorted.specified_values(element);
    assert forall|name: Seq<char>| a.dom().contains(name) == b.dom().contains(name) by {
        if raw.declares(element, name) {
            let (r, d) = choose|r: int, d: int|
                #[trigger] raw.is_candidate(element, r, d) && raw.rules[r].declarations[d].name
                    == name;
            assert(sorted.is_candidate(element, r, d));
            assert(raw.rules[r].matches(element));
        }
        if sorted.declares(element, name) {
            let (r, d) = choose|r: int, d: int|
                #[trigger] sorted.is_candidate(element, r, d)
                    && sorted.rules[r].declarations[d].name == name;
            assert(raw.is_candidate(element, r, d));
            assert(raw.rules[r].matches(element));
        }
    }
    assert forall|name: Seq<char>| #[trigger] a.contains_key(name) implies a[name] == b[name] by {
        raw.lemma_every_property_is_decided(element, name);
        let (r, d) = choose|r: int, d: int|
            #[trigger] raw.decides(element, r, d) && raw.rules[r].declarations[d].name == name
                && a[name] == raw.rules[r].declarations[d].value;
        assert(sorted.decides(element, r, d));
        assert(raw.rules[r].matches(element));
        sorted.lemma_deciding_value(element, r, d);
    }
    assert(a.dom() =~= b.dom());
    assert(a =~= b);
}

} // verus!
