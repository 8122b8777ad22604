//! The document tree: elements with their attributes, and text.

use crate::strmap::StringMap;
use crate::text::{chars_of, is_space, is_whitespace, string_of, text_of_ref};
use vstd::prelude::*;

verus! {

/// The attributes of an element, by name.
pub type AttributeMap = StringMap<String>;

/// A node of the document with its children, in document order.
#[derive(Debug)]
pub struct Node {
    pub node_type: NodeType,
    pub children: Vec<Node>,
}

/// What a node is: an element or a run of text.
#[derive(Debug)]
pub enum NodeType {
    Element(Element),
    Text(String),
}

/// An element: its tag name and its attributes.
#[derive(Debug)]
pub struct Element {
    pub tag_name: String,
    pub attributes: AttributeMap,
}

/// What an [`Element`] holds.
pub struct ElementView {
    pub tag_name: Seq<char>,
    pub attributes: Map<Seq<char>, Seq<char>>,
}

/// What a [`NodeType`] holds.
pub enum NodeTypeView {
    Element(ElementView),
    Text(Seq<char>),
}

/// What a [`Node`] holds.
pub struct NodeView {
    pub node_type: NodeTypeView,
    pub children: Seq<NodeView>,
}

impl View for Element {
    type V = ElementView;

    open spec fn view(&self) -> ElementView {
        ElementView { tag_name: self.tag_name@, attributes: self.attributes@ }
    }
}

impl View for NodeType {
    type V = NodeTypeView;

    open spec fn view(&self) -> NodeTypeView {
        match *self {
            NodeType::Element(element) => NodeTypeView::Element(element@),
            NodeType::Text(data) => NodeTypeView::Text(data@),
        }
    }
}

impl View for Node {
    type V = NodeView;

    open spec fn view(&self) -> NodeView
        decreases self,
    {
        NodeView {
            node_type: self.node_type@,
            children: Seq::new(
                self.children.len() as nat,
                |i: int|
                    if 0 <= i < self.children.len() {
                        self.children[i]@
                    } else {
                        arbitrary()
                    },
            ),
        }
    }
}

/// The views of a list of nodes.
pub open spec fn node_views(nodes: Seq<Node>) -> Seq<NodeView> {
    Seq::new(nodes.len(), |i: int| nodes[i]@)
}

impl Node {
    /// The view of a node holds the views of its children, one for one.
    pub proof fn lemma_view(self)
        ensures
            self@.node_type == self.node_type@,
            self@.children.len() == self.children.len(),
            forall|i: int|
                0 <= i < self.children.len() ==> #[trigger] self@.children[i]
                    == self.children[i]@,
    {
        reveal_with_fuel(<Node as View>::view, 2);
    }
}

/// A text node.
pub fn text(data: String) -> (node: Node)
    ensures
        node@ == (NodeView { node_type: NodeTypeView::Text(data@), children: Seq::empty() }),
{
    let node = Node { node_type: NodeType::Text(data), children: Vec::new() };
    assert(node@.children =~= Seq::empty());
    node
}

/// An element node with the given tag name, attributes and children.
pub fn element(tag_name: String, attributes: AttributeMap, children: Vec<Node>) -> (node: Node)
    ensures
        node@.node_type == NodeTypeView::Element(
            ElementView { tag_name: tag_name@, attributes: attributes@ },
        ),
        node@.children == node_views(children@),
        node.children == children,
{
    let node = Node { node_type: NodeType::Element(Element { tag_name, attributes }), children };
    proof {
        node.lemma_view();
        assert(node@.children =~= node_views(children@));
    }
    node
}

/// Whether `text[from..to]` is a token of `text`: a run of characters other
/// than white space, as long as it can be.
pub open spec fn is_token(text: Seq<char>, from: int, to: int) -> bool {
    &&& 0 <= from < to <= text.len()
    &&& forall|k: int| from <= k < to ==> !is_space(#[trigger] text[k])
    &&& from == 0 || is_space(text[from - 1])
    &&& to == text.len() || is_space(text[to])
}

/// The tokens of `text`: what is left of it when it is cut at white space.
pub open spec fn tokens(text: Seq<char>) -> Set<Seq<char>> {
    Set::new(
        |token: Seq<char>|
            exists|from: int, to: int|
                is_token(text, from, to) && token == #[trigger] text.subrange(from, to),
    )
}

impl ElementView {
    /// The attribute `id`, if the element has one.
    pub open spec fn id(self) -> Option<Seq<char>> {
        if self.attributes.contains_key("id"@) {
            Some(self.attributes["id"@])
        } else {
            None
        }
    }

    /// The classes of the element: the tokens of its attribute `class`, and
    /// none if it has no such attribute.
    pub open spec fn classes(self) -> Set<Seq<char>> {
        if self.attributes.contains_key("class"@) {
            tokens(self.attributes["class"@])
        } else {
            Set::empty()
        }
    }
}

/// Whether one of `words` is `token`.
pub open spec fn holds_word(words: Seq<String>, token: Seq<char>) -> bool {
    exists|k: int| 0 <= k < words.len() && #[trigger] words[k]@ == token
}

/// The tokens of `text`.
pub fn split_tokens(text: &str) -> (words: Vec<String>)
    ensures
        forall|token: Seq<char>| tokens(text@).contains(token) <==> holds_word(words@, token),
{
    let chars = chars_of(text);
    let n = chars.len();
    let mut words: Vec<String> = Vec::new();
    let mut i: usize = 0;
    while i < n
        invariant
            i <= n,
            n == chars.len(),
            chars@ == text@,
            i == 0 || i == n || is_space(chars[i - 1]),
            forall|k: int|
                0 <= k < words.len() ==> tokens(text@).contains(#[trigger] words[k]@),
            forall|from: int, to: int|
                is_token(text@, from, to) && to <= i ==> holds_word(
                    words@,
                    #[trigger] text@.subrange(from, to),
                ),
        decreases n - i,
    {
        if is_whitespace(chars[i]) {
            i = i + 1;
        } else {
            let start = i;
            while i < n && !is_whitespace(chars[i])
                invariant
                    start <= i <= n,
                    n == chars.len(),
                    forall|k: int| start <= k < i ==> !is_space(#[trigger] chars[k]),
                decreases n - i,
            {
                i = i + 1;
            }
            let word = string_of(&chars, start, i);
            let ghost before = words@;
            words.push(word);
            proof {
                assert(is_token(text@, start as int, i as int));
                assert forall|k: int| 0 <= k < words.len() implies tokens(text@).contains(
                    #[trigger] words[k]@,
                ) by {
                    if k < before.len() {
                        assert(words[k] == before[k]);
                    }
                }
            }
            let ghost end = i as int;
            if i < n {
                i = i + 1;
            }
            proof {
                assert forall|from: int, to: int|
                    is_token(text@, from, to) && to <= i implies holds_word(
                    words@,
                    #[trigger] text@.subrange(from, to),
                ) by {
                    if to <= start {
                        let k = choose|k: int|
                            0 <= k < before.len() && #[trigger] before[k]@ == text@.subrange(
                                from,
                                to,
                            );
                        assert(words[k]@ == text@.subrange(from, to));
                    } else {
                        // The token overlaps the word just read: it is that word.
                        if from < start {
                            assert(!is_space(text@[start - 1]));
                        }
                        if from > start {
                            assert(is_space(text@[from - 1]));
                            assert(from - 1 >= end);
                        }
                        if to < end {
                            assert(!is_space(text@[to]));
                        }
                        if to > end {
                            assert(!is_space(text@[end]));
                        }
                        assert(from == start && to == end);
                        assert(words[before.len() as int]@ == text@.subrange(from, to));
                    }
                }
            }
        }
    }
    proof {
        assert forall|token: Seq<char>| tokens(text@).contains(token) implies holds_word(
            words@,
            token,
        ) by {
            let (from, to) = choose|from: int, to: int|
                is_token(text@, from, to) && token == #[trigger] text@.subrange(from, to);
            assert(holds_word(words@, text@.subrange(from, to)));
        }
    }
    words
}

impl Element {
    /// The attribute `id`, if the element has one.
    pub fn id(&self) -> (id: Option<&String>)
        ensures
            text_of_ref(id) == self@.id(),
    {
        self.attributes.get("id")
    }

    /// The classes of the element: the tokens of its attribute `class`, and
    /// none if it has no such attribute.
    pub fn classes(&self) -> (classes: Vec<String>)
        ensures
            forall|class: Seq<char>|
                self@.classes().contains(class) <==> holds_word(classes@, class),
    {
        match self.attributes.get("class") {
            Some(class_list) => split_tokens(class_list.as_str()),
            None => Vec::new(),
        }
    }
}

} // verus!
