//! A parser for a small dialect of HTML: balanced tags, attributes with
//! quoted values, and text.

use crate::dom::{
    element, node_views, text, AttributeMap, ElementView, Node, NodeTypeView, NodeView,
};
use crate::parser::{
    goes_on_with, lemma_run_end, next_is, outcome, run_end, CharClass, ParseError, Parsed, Parser,
};
use vstd::prelude::*;

verus! {

/// A text node.
pub open spec fn text_node(data: Seq<char>) -> NodeView {
    NodeView { node_type: NodeTypeView::Text(data), children: Seq::empty() }
}

/// An element node.
pub open spec fn element_node(
    tag_name: Seq<char>,
    attributes: Map<Seq<char>, Seq<char>>,
    children: Seq<NodeView>,
) -> NodeView {
    NodeView { node_type: NodeTypeView::Element(ElementView { tag_name, attributes }), children }
}

/// A quoted value at `pos`: a single or double quote, any characters but
/// that quote, and the same quote again.
pub open spec fn attribute_value(text: Seq<char>, pos: int) -> Parsed<Seq<char>> {
    if 0 <= pos < text.len() && (text[pos] == '"' || text[pos] == '\'') {
        let end = run_end(text, pos + 1, CharClass::Except(text[pos]));
        if end < text.len() {
            Ok((text.subrange(pos + 1, end), end + 1))
        } else {
            Err(ParseError::MalformedInput)
        }
    } else {
        Err(ParseError::MalformedInput)
    }
}

/// An attribute at `pos`: a name, `=`, and a quoted value.
pub open spec fn attribute(text: Seq<char>, pos: int) -> Parsed<(Seq<char>, Seq<char>)> {
    let name_end = run_end(text, pos, CharClass::Alphanumeric);
    if next_is(text, name_end, '=') {
        match attribute_value(text, name_end + 1) {
            Ok((value, end)) => Ok(((text.subrange(pos, name_end), value), end)),
            Err(e) => Err(e),
        }
    } else {
        Err(ParseError::MalformedInput)
    }
}

/// The attributes from `pos` up to the `>` that ends the tag, added to
/// `so_far`. Of two attributes with one name the later one stays.
pub open spec fn attributes(
    text: Seq<char>,
    pos: int,
    so_far: Map<Seq<char>, Seq<char>>,
) -> Parsed<Map<Seq<char>, Seq<char>>>
    decreases text.len() - pos,
{
    let start = run_end(text, pos, CharClass::Whitespace);
    if !(0 <= pos <= start < text.len()) {
        Err(ParseError::MalformedInput)
    } else if text[start] == '>' {
        Ok((so_far, start))
    } else {
        match attribute(text, start) {
            Ok(((name, value), end)) => if start < end <= text.len() {
                attributes(text, end, so_far.insert(name, value))
            } else {
                Err(ParseError::MalformedInput)
            },
            Err(e) => Err(e),
        }
    }
}

/// The sibling nodes from `pos` up to the end of the text or the next
/// closing tag, added to `so_far`. White space between them is skipped.
pub open spec fn nodes(text: Seq<char>, pos: int, so_far: Seq<NodeView>) -> Parsed<Seq<NodeView>>
    decreases text.len() - pos, 2nat,
{
    let start = run_end(text, pos, CharClass::Whitespace);
    if !(0 <= pos <= start < text.len()) || goes_on_with(text, start, "</"@) {
        Ok((so_far, start))
    } else {
        match node(text, start) {
            Ok((found, end)) => if start < end <= text.len() {
                nodes(text, end, so_far.push(found))
            } else {
                Err(ParseError::MalformedInput)
            },
            Err(e) => Err(e),
        }
    }
}

/// The node at `pos`: an element where a tag opens, and otherwise the text
/// up to the next tag.
pub open spec fn node(text: Seq<char>, pos: int) -> Parsed<NodeView>
    decreases text.len() - pos, 1nat,
{
    if next_is(text, pos, '<') {
        element_at(text, pos)
    } else {
        let end = run_end(text, pos, CharClass::Except('<'));
        Ok((text_node(text.subrange(pos, end)), end))
    }
}

/// The element at `pos`: its opening tag with the attributes, its children,
/// and the closing tag with the same name.
pub open spec fn element_at(text: Seq<char>, pos: int) -> Parsed<NodeView>
    decreases text.len() - pos, 0nat,
{
    if !next_is(text, pos, '<') {
        Err(ParseError::MalformedInput)
    } else {
        let name_end = run_end(text, pos + 1, CharClass::Alphanumeric);
        let tag_name = text.subrange(pos + 1, name_end);
        match attributes(text, name_end, Map::empty()) {
            Ok((found, tag_end)) => if pos < tag_end < text.len() {
                match nodes(text, tag_end + 1, Seq::empty()) {
                    Ok((children, end)) => {
                        let name_start = end + "</"@.len();
                        let close = name_start + tag_name.len();
                        if goes_on_with(text, end, "</"@) && goes_on_with(
                            text,
                            name_start,
                            tag_name,
                        ) && next_is(text, close, '>') {
                            Ok((element_node(tag_name, found, children), close + 1))
                        } else {
                            Err(ParseError::MalformedInput)
                        }
                    },
                    Err(e) => Err(e),
                }
            } else {
                Err(ParseError::MalformedInput)
            },
            Err(e) => Err(e),
        }
    }
}

/// The document that a text stands for: its one top-level node, or, where
/// it has none or several, an element `html` around them.
pub open spec fn document(text: Seq<char>) -> Result<NodeView, ParseError> {
    match nodes(text, 0, Seq::empty()) {
        Ok((found, _)) => Ok(
            if found.len() == 1 {
                found[0]
            } else {
                element_node("html"@, Map::empty(), found)
            },
        ),
        Err(e) => Err(e),
    }
}

/// The views of the nodes that parsing gave.
pub open spec fn views_of(found: Result<Vec<Node>, ParseError>) -> Result<
    Seq<NodeView>,
    ParseError,
> {
    match found {
        Ok(v) => Ok(node_views(v@)),
        Err(e) => Err(e),
    }
}

/// The view of the node that parsing gave.
pub open spec fn view_of(found: Result<Node, ParseError>) -> Result<NodeView, ParseError> {
    match found {
        Ok(n) => Ok(n@),
        Err(e) => Err(e),
    }
}

/// The characters of the string that parsing gave.
pub open spec fn characters_of(found: Result<String, ParseError>) -> Result<Seq<char>, ParseError> {
    match found {
        Ok(s) => Ok(s@),
        Err(e) => Err(e),
    }
}

/// The characters of the name and the value that parsing gave.
pub open spec fn pair_of(found: Result<(String, String), ParseError>) -> Result<
    (Seq<char>, Seq<char>),
    ParseError,
> {
    match found {
        Ok(pair) => Ok((pair.0@, pair.1@)),
        Err(e) => Err(e),
    }
}

/// The view of the attributes that parsing gave.
pub open spec fn map_of(found: Result<AttributeMap, ParseError>) -> Result<
    Map<Seq<char>, Seq<char>>,
    ParseError,
> {
    match found {
        Ok(map) => Ok(map@),
        Err(e) => Err(e),
    }
}

impl Parser {
    /// Reads a tag or attribute name: a run of letters and digits.
    pub fn parse_name(&mut self) -> (name: String)
        ensures
            final(self).text() == old(self).text(),
            final(self).at() <= final(self).text().len(),
            final(self).at() as int == run_end(old(self).text(), old(self).at() as int, CharClass::Alphanumeric),
            name@ == old(self).text().subrange(old(self).at() as int, final(self).at() as int),
    {
        self.consume_while(CharClass::Alphanumeric)
    }

    /// Reads a text node: everything up to the next `<`.
    pub fn parse_text(&mut self) -> (node: Node)
        ensures
            final(self).text() == old(self).text(),
            final(self).at() <= final(self).text().len(),
            final(self).at() as int == run_end(old(self).text(), old(self).at() as int, CharClass::Except('<')),
            node@ == text_node(old(self).text().subrange(old(self).at() as int, final(self).at() as int)),
    {
        text(self.consume_while(CharClass::Except('<')))
    }

    /// Reads a quoted value.
    pub fn parse_attribute_value(&mut self) -> (value: Result<String, ParseError>)
        ensures
            final(self).text() == old(self).text(),
            final(self).at() <= final(self).text().len(),
            outcome(characters_of(value), final(self).at() as int) == attribute_value(
                old(self).text(),
                old(self).at() as int,
            ),
    {
        if self.eof() {
            return Err(ParseError::MalformedInput);
        }
        let open_quote = self.consume_char();
        if !(open_quote == '"' || open_quote == '\'') {
            return Err(ParseError::MalformedInput);
        }
        let value = self.consume_while(CharClass::Except(open_quote));
        if self.eof() {
            return Err(ParseError::MalformedInput);
        }
        self.consume_char();
        Ok(value)
    }

    /// Reads a single `name="value"` pair.
    pub fn parse_attribute(&mut self) -> (pair: Result<(String, String), ParseError>)
        ensures
            final(self).text() == old(self).text(),
            final(self).at() <= final(self).text().len(),
            outcome(pair_of(pair), final(self).at() as int) == attribute(
                old(self).text(),
                old(self).at() as int,
            ),
            pair is Ok ==> final(self).at() > old(self).at(),
    {
        let ghost start = self.at() as int;
        proof {
            use_type_invariant(&*self);
        }
        proof {
            lemma_run_end(self.text(), start, CharClass::Alphanumeric);
        }
        let name = self.parse_name();
        self.expect_char('=')?;
        let ghost quote = self.at() as int;
        let value = self.parse_attribute_value()?;
        proof {
            lemma_run_end(self.text(), quote + 1, CharClass::Except(self.text()[quote]));
        }
        Ok((name, value))
    }

    /// Reads a list of `name="value"` pairs, separated by white space, up
    /// to the `>` that ends the tag.
    pub fn parse_attributes(&mut self) -> (found: Result<AttributeMap, ParseError>)
        ensures
            final(self).text() == old(self).text(),
            final(self).at() <= final(self).text().len(),
            outcome(map_of(found), final(self).at() as int) == attributes(
                old(self).text(),
                old(self).at() as int,
                Map::empty(),
            ),
            found is Ok ==> old(self).at() <= final(self).at() < final(self).text().len(),
            found is Ok ==> next_is(final(self).text(), final(self).at() as int, '>'),
    {
        let mut read = AttributeMap::new();
        let ghost whole = attributes(self.text(), self.at() as int, Map::empty());
        let ghost first = self.at() as int;
        loop
            invariant
                self.text() == old(self).text(),
                first == old(self).at() as int,
                first <= self.at(),
                whole == attributes(old(self).text(), old(self).at() as int, Map::empty()),
                whole == attributes(self.text(), self.at() as int, read@),
            ensures
                self.text() == old(self).text(),
                whole == attributes(old(self).text(), old(self).at() as int, Map::empty()),
                outcome(Ok::<Map<Seq<char>, Seq<char>>, ParseError>(read@), self.at() as int)
                    == whole,
                old(self).at() <= self.at() < self.text().len(),
                next_is(self.text(), self.at() as int, '>'),
            decreases self.text().len() - self.at(),
        {
            let ghost before = self.at() as int;
            proof {
                use_type_invariant(&*self);
            }
            proof {
                lemma_run_end(self.text(), before, CharClass::Whitespace);
            }
            self.consume_whitespace();
            if self.eof() {
                return Err(ParseError::MalformedInput);
            }
            if self.next_char() == '>' {
                break ;
            }
            let (name, value) = self.parse_attribute()?;
            read.insert(name, value);
        }
        Ok(read)
    }

    /// Reads a single element: its opening tag, its contents and its
    /// closing tag.
    pub fn parse_element(&mut self) -> (found: Result<Node, ParseError>)
        ensures
            final(self).text() == old(self).text(),
            final(self).at() <= final(self).text().len(),
            outcome(view_of(found), final(self).at() as int) == element_at(
                old(self).text(),
                old(self).at() as int,
            ),
            found is Ok ==> final(self).at() > old(self).at(),
        decreases old(self).text().len() - old(self).at() as int, 0nat,
    {
        let ghost start = self.at() as int;
        proof {
            use_type_invariant(&*self);
        }

        // Opening tag.
        self.expect_char('<')?;
        proof {
            lemma_run_end(self.text(), start + 1, CharClass::Alphanumeric);
        }
        let tag_name = self.parse_name();
        let attrs = self.parse_attributes()?;
        self.expect_char('>')?;

        // Contents.
        let children = self.parse_nodes()?;

        // Closing tag.
        self.expect("</")?;
        self.expect(tag_name.as_str())?;
        self.expect_char('>')?;

        let node = element(tag_name, attrs, children);
        proof {
            assert(node@.children =~= node_views(children@));
        }
        Ok(node)
    }

    /// Reads a single node: an element or a run of text.
    pub fn parse_node(&mut self) -> (found: Result<Node, ParseError>)
        requires
            old(self).at() < old(self).text().len(),
        ensures
            final(self).text() == old(self).text(),
            final(self).at() <= final(self).text().len(),
            outcome(view_of(found), final(self).at() as int) == node(old(self).text(), old(self).at() as int),
            found is Ok ==> final(self).at() > old(self).at(),
        decreases old(self).text().len() - old(self).at() as int, 1nat,
    {
        if self.next_char() == '<' {
            self.parse_element()
        } else {
            proof {
                lemma_run_end(self.text(), self.at() as int, CharClass::Except('<'));
            }
            Ok(self.parse_text())
        }
    }

    /// Reads a sequence of sibling nodes, up to the end of the text or the
    /// next closing tag.
    pub fn parse_nodes(&mut self) -> (found: Result<Vec<Node>, ParseError>)
        ensures
            final(self).text() == old(self).text(),
            final(self).at() <= final(self).text().len(),
            outcome(views_of(found), final(self).at() as int) == nodes(
                old(self).text(),
                old(self).at() as int,
                Seq::empty(),
            ),
            found is Ok ==> final(self).at() >= old(self).at(),
        decreases old(self).text().len() - old(self).at() as int, 2nat,
    {
        let mut found: Vec<Node> = Vec::new();
        let ghost whole = nodes(self.text(), self.at() as int, Seq::empty());
        proof {
            use_type_invariant(&*self);
        }
        proof {
            assert(node_views(found@) =~= Seq::empty());
        }
        loop
            invariant
                self.text() == old(self).text(),
                self.at() <= self.text().len(),
                old(self).at() <= self.at(),
                whole == nodes(old(self).text(), old(self).at() as int, Seq::empty()),
                whole == nodes(self.text(), self.at() as int, node_views(found@)),
            ensures
                self.text() == old(self).text(),
                self.at() <= self.text().len(),
                old(self).at() <= self.at(),
                whole == nodes(old(self).text(), old(self).at() as int, Seq::empty()),
                outcome(
                    Ok::<Seq<NodeView>, ParseError>(node_views(found@)),
                    self.at() as int,
                ) == whole,
            decreases self.text().len() - self.at(),
        {
            let ghost before = self.at() as int;
            proof {
                use_type_invariant(&*self);
            }
            proof {
                lemma_run_end(self.text(), before, CharClass::Whitespace);
            }
            self.consume_whitespace();
            if self.eof() || self.starts_with("</") {
                break ;
            }
            let ghost held = node_views(found@);
            let next = self.parse_node()?;
            found.push(next);
            proof {
                assert(node_views(found@) =~= held.push(next@));
            }
        }
        Ok(found)
    }
}

/// Parses a document and hands back its root. A text without exactly one
/// top-level node gets a root element `html` around what it has.
pub fn parse(source: String) -> (root: Result<Node, ParseError>)
    ensures
        view_of(root) == document(source@),
{
    let mut parser = Parser::new(source.as_str());
    let mut found = parser.parse_nodes()?;

    // If the document contains a root element, just return it. Otherwise,
    // create one.
    if found.len() == 1 {
        Ok(found.remove(0))
    } else {
        let root = element("html".to_owned(), AttributeMap::new(), found);
        proof {
            assert(root@.children =~= node_views(found@));
        }
        Ok(root)
    }
}

} // verus!
