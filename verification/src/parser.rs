//! The markup parser: mutually recursive descent over elements, text
//! runs, comments and attributes, producing one markup tree root.
//!
//! Every production has a specification-level counterpart (`*_at`)
//! defined over the input character sequence and a position; the
//! executable methods are proved to return exactly what those
//! functions describe, including the failure kind on malformed input.

use crate::dom;
use crate::dom::{ElementDataV, Node, NodeTypeV, NodeV};
use crate::errors::ParseError;
use crate::scan;
use crate::scan::CharClass;
use vstd::prelude::*;
use vstd::string::*;

verus! {

/// One required literal character: the position just past it, or the
/// failure consuming it produces.
pub open spec fn expect_at(s: Seq<char>, pos: int, c: char) -> Result<int, ParseError> {
    if pos >= s.len() {
        Err(ParseError::TruncatedInput)
    } else if s[pos] != c {
        Err(ParseError::UnexpectedChar)
    } else {
        Ok(pos + 1)
    }
}

/// A text run: everything up to (not including) the next `<`.
pub open spec fn text_at(s: Seq<char>, pos: int) -> (Seq<char>, int) {
    let e = scan::take_end(s, pos, CharClass::NotChar('<'));
    (s.subrange(pos, e), e)
}

/// A tag or attribute name: the maximal run of name characters.
pub open spec fn name_at(s: Seq<char>, pos: int) -> (Seq<char>, int) {
    let e = scan::take_end(s, pos, CharClass::MarkupName);
    (s.subrange(pos, e), e)
}

/// A comment, from the `!` that follows its opening `<`: the literal
/// `!--`, a body free of `-`, and the literal closer `-->`.
pub open spec fn comment_at(s: Seq<char>, pos: int) -> Result<(NodeV, int), ParseError> {
    match expect_at(s, pos, '!') {
        Err(e) => Err(e),
        Ok(p1) => match expect_at(s, p1, '-') {
            Err(e) => Err(e),
            Ok(p2) => match expect_at(s, p2, '-') {
                Err(e) => Err(e),
                Ok(p3) => {
                    let be = scan::take_end(s, p3, CharClass::NotChar('-'));
                    match expect_at(s, be, '-') {
                        Err(e) => Err(e),
                        Ok(p4) => match expect_at(s, p4, '-') {
                            Err(e) => Err(e),
                            Ok(p5) => match expect_at(s, p5, '>') {
                                Err(e) => Err(e),
                                Ok(p6) => Ok(
                                    (
                                        NodeV {
                                            node_type: NodeTypeV::Comment(s.subrange(p3, be)),
                                            children: Seq::empty(),
                                        },
                                        p6,
                                    ),
                                ),
                            },
                        },
                    }
                },
            },
        },
    }
}

/// A quoted attribute value: an opening quote (either style), the run
/// up to the matching quote, and that closing quote.
pub open spec fn attr_value_at(s: Seq<char>, pos: int) -> Result<(Seq<char>, int), ParseError> {
    if pos >= s.len() {
        Err(ParseError::TruncatedInput)
    } else if s[pos] != '"' && s[pos] != '\'' {
        Err(ParseError::UnexpectedChar)
    } else {
        let q = s[pos];
        let e = scan::take_end(s, pos + 1, CharClass::NotChar(q));
        if e >= s.len() {
            Err(ParseError::TruncatedInput)
        } else {
            Ok((s.subrange(pos + 1, e), e + 1))
        }
    }
}

/// One `name="value"` pair.
pub open spec fn attr_at(s: Seq<char>, pos: int) -> Result<((Seq<char>, Seq<char>), int), ParseError> {
    let (name, p1) = name_at(s, pos);
    match expect_at(s, p1, '=') {
        Err(e) => Err(e),
        Ok(p2) => match attr_value_at(s, p2) {
            Err(e) => Err(e),
            Ok((value, p3)) => Ok(((name, value), p3)),
        },
    }
}

/// The attribute list of an open tag: whitespace-separated pairs, ending
/// just before the tag's closing `>`. Later pairs overwrite earlier ones
/// of the same name in the accumulated mapping `m`.
pub open spec fn attrs_at(s: Seq<char>, pos: int, m: Map<Seq<char>, Seq<char>>) -> Result<
    (Map<Seq<char>, Seq<char>>, int),
    ParseError,
>
    decreases s.len() - pos,
{
    if pos >= s.len() {
        Err(ParseError::TruncatedInput)
    } else if scan::is_space(s[pos]) {
        attrs_at(s, pos + 1, m)
    } else if s[pos] == '>' {
        Ok((m, pos))
    } else {
        match attr_at(s, pos) {
            Err(e) => Err(e),
            Ok(((name, value), p2)) => {
                if pos < p2 <= s.len() {
                    attrs_at(s, p2, m.insert(name, value))
                } else {
                    Err(ParseError::UnexpectedChar)
                }
            },
        }
    }
}

/// Skipping whitespace does not change what the attribute list yields.
proof fn lemma_attrs_skip_space(s: Seq<char>, pos: int, m: Map<Seq<char>, Seq<char>>)
    requires
        0 <= pos <= s.len(),
    ensures
        attrs_at(s, pos, m) == attrs_at(s, scan::take_end(s, pos, CharClass::Space), m),
    decreases s.len() - pos,
{
    if pos < s.len() && scan::is_space(s[pos]) {
        lemma_attrs_skip_space(s, pos + 1, m);
    }
}

/// A node: an element or comment where the lookahead is `<`, otherwise
/// a text run.
pub open spec fn node_at(s: Seq<char>, pos: int) -> Result<(NodeV, int), ParseError>
    decreases s.len() - pos, 1int,
{
    if pos >= s.len() {
        Err(ParseError::TruncatedInput)
    } else if s[pos] == '<' {
        element_at(s, pos)
    } else {
        let (t, e) = text_at(s, pos);
        Ok((NodeV { node_type: NodeTypeV::Text(t), children: Seq::empty() }, e))
    }
}

/// An element: `<`, a tag name, attributes, `>`, child nodes, and a
/// closing tag whose name must equal the opening one — or a comment
/// when `!` follows the `<`.
pub open spec fn element_at(s: Seq<char>, pos: int) -> Result<(NodeV, int), ParseError>
    decreases s.len() - pos, 0int,
{
    match expect_at(s, pos, '<') {
        Err(e) => Err(e),
        Ok(p1) => {
            if p1 >= s.len() {
                Err(ParseError::TruncatedInput)
            } else if s[p1] == '!' {
                comment_at(s, p1)
            } else {
                let (tag, p2) = name_at(s, p1);
                match attrs_at(s, p2, Map::empty()) {
                    Err(e) => Err(e),
                    Ok((attrs, p3)) => match expect_at(s, p3, '>') {
                        Err(e) => Err(e),
                        Ok(p4) => {
                            if pos < p4 <= s.len() {
                                match nodes_at(s, p4) {
                                    Err(e) => Err(e),
                                    Ok((children, p5)) => match expect_at(s, p5, '<') {
                                        Err(e) => Err(e),
                                        Ok(p6) => match expect_at(s, p6, '/') {
                                            Err(e) => Err(e),
                                            Ok(p7) => {
                                                let (ctag, p8) = name_at(s, p7);
                                                if ctag != tag {
                                                    Err(ParseError::UnmatchedClosingTag)
                                                } else {
                                                    match expect_at(s, p8, '>') {
                                                        Err(e) => Err(e),
                                                        Ok(p9) => Ok(
                                                            (
                                                                NodeV {
                                                                    node_type: NodeTypeV::Element(
                                                                        ElementDataV {
                                                                            tag_name: tag,
                                                                            attributes: attrs,
                                                                        },
                                                                    ),
                                                                    children,
                                                                },
                                                                p9,
                                                            ),
                                                        ),
                                                    }
                                                }
                                            },
                                        },
                                    },
                                }
                            } else {
                                Err(ParseError::UnexpectedChar)
                            }
                        },
                    },
                }
            }
        },
    }
}

/// A run of sibling nodes, each preceded by skipped whitespace, ending
/// at end of input or just before a closing-tag opener `</`.
pub open spec fn nodes_at(s: Seq<char>, pos: int) -> Result<(Seq<NodeV>, int), ParseError>
    decreases s.len() - pos, 2int,
{
    if pos >= s.len() {
        Ok((Seq::empty(), pos))
    } else if scan::is_space(s[pos]) {
        nodes_at(s, pos + 1)
    } else if scan::close_opener_at(s, pos) {
        Ok((Seq::empty(), pos))
    } else {
        match node_at(s, pos) {
            Err(e) => Err(e),
            Ok((n, p2)) => {
                if pos < p2 <= s.len() {
                    match nodes_at(s, p2) {
                        Err(e) => Err(e),
                        Ok((rest, p3)) => Ok((seq![n] + rest, p3)),
                    }
                } else {
                    Err(ParseError::UnexpectedChar)
                }
            },
        }
    }
}

/// Skipping whitespace does not change what the node list yields.
proof fn lemma_nodes_skip_space(s: Seq<char>, pos: int)
    requires
        0 <= pos <= s.len(),
    ensures
        nodes_at(s, pos) == nodes_at(s, scan::take_end(s, pos, CharClass::Space)),
    decreases s.len() - pos,
{
    if pos < s.len() && scan::is_space(s[pos]) {
        lemma_nodes_skip_space(s, pos + 1);
    }
}

/// A whole document: the top-level node run; a single node is the root
/// itself, while any other count is wrapped in a synthetic attribute-free
/// "html" element carrying the nodes in order.
pub open spec fn document(s: Seq<char>) -> Result<NodeV, ParseError> {
    match nodes_at(s, 0) {
        Err(e) => Err(e),
        Ok((ns, _)) => {
            if ns.len() == 1 {
                Ok(ns[0])
            } else {
                Ok(
                    NodeV {
                        node_type: NodeTypeV::Element(
                            ElementDataV { tag_name: "html"@, attributes: Map::empty() },
                        ),
                        children: ns,
                    },
                )
            }
        },
    }
}

/// Root wrapping: when the top-level production yields exactly one
/// node, that node is the document root, unwrapped; any other count is
/// wrapped, in order, in a synthetic attribute-free "html" element.
pub proof fn lemma_root_wrapping(s: Seq<char>, ns: Seq<NodeV>, p: int)
    requires
        nodes_at(s, 0) == Ok::<(Seq<NodeV>, int), ParseError>((ns, p)),
    ensures
        ns.len() == 1 ==> document(s) == Ok::<NodeV, ParseError>(ns[0]),
        ns.len() != 1 ==> document(s) == Ok::<NodeV, ParseError>(
            NodeV {
                node_type: NodeTypeV::Element(
                    ElementDataV { tag_name: "html"@, attributes: Map::empty() },
                ),
                children: ns,
            },
        ),
{
}

/// The markup parser: a cursor into the source text.
pub struct Parser {
    cur: scan::Cursor,
}

impl Parser {
    spec fn s(&self) -> Seq<char> {
        self.cur.s()
    }

    spec fn pos(&self) -> int {
        self.cur.pos as int
    }

    spec fn wf(&self) -> bool {
        self.cur.wf()
    }

    /// Consume one required literal character.
    fn expect(&mut self, c: char) -> (r: Result<(), ParseError>)
        requires
            old(self).wf(),
        ensures
            final(self).wf(),
            final(self).s() == old(self).s(),
            old(self).pos() <= final(self).pos(),
            match r {
                Ok(_) => expect_at(old(self).s(), old(self).pos(), c) == Ok::<int, ParseError>(
                    final(self).pos(),
                ) && final(self).pos() == old(self).pos() + 1,
                Err(e) => expect_at(old(self).s(), old(self).pos(), c) == Err::<int, ParseError>(e),
            },
    {
        if self.cur.eof() {
            return Err(ParseError::TruncatedInput);
        }
        let ch = self.cur.consume_char();
        if ch != c {
            return Err(ParseError::UnexpectedChar);
        }
        Ok(())
    }

    /// Consume a tag or attribute name.
    fn parse_tag_name(&mut self) -> (r: String)
        requires
            old(self).wf(),
        ensures
            final(self).wf(),
            final(self).s() == old(self).s(),
            old(self).pos() <= final(self).pos(),
            (r@, final(self).pos()) == name_at(old(self).s(), old(self).pos()),
    {
        self.cur.consume_while(CharClass::MarkupName)
    }

    /// Consume a text run and wrap it as a text node.
    fn parse_text(&mut self) -> (r: Node)
        requires
            old(self).wf(),
        ensures
            final(self).wf(),
            final(self).s() == old(self).s(),
            old(self).pos() <= final(self).pos(),
            ({
                let (t, e) = text_at(old(self).s(), old(self).pos());
                r@ == (NodeV { node_type: NodeTypeV::Text(t), children: Seq::empty() })
                    && final(self).pos() == e
            }),
    {
        let data = self.cur.consume_while(CharClass::NotChar('<'));
        dom::text(data)
    }

    /// Consume a comment, positioned at the `!` after its opening `<`.
    fn parse_comment(&mut self) -> (r: Result<Node, ParseError>)
        requires
            old(self).wf(),
        ensures
            final(self).wf(),
            final(self).s() == old(self).s(),
            old(self).pos() <= final(self).pos(),
            match r {
                Ok(n) => comment_at(old(self).s(), old(self).pos()) == Ok::<
                    (NodeV, int),
                    ParseError,
                >((n@, final(self).pos())) && old(self).pos() < final(self).pos(),
                Err(e) => comment_at(old(self).s(), old(self).pos()) == Err::<
                    (NodeV, int),
                    ParseError,
                >(e),
            },
    {
        match self.expect('!') {
            Err(e) => {
                return Err(e);
            },
            Ok(_) => {},
        }
        match self.expect('-') {
            Err(e) => {
                return Err(e);
            },
            Ok(_) => {},
        }
        match self.expect('-') {
            Err(e) => {
                return Err(e);
            },
            Ok(_) => {},
        }
        let body = self.cur.consume_while(CharClass::NotChar('-'));
        match self.expect('-') {
            Err(e) => {
                return Err(e);
            },
            Ok(_) => {},
        }
        match self.expect('-') {
            Err(e) => {
                return Err(e);
            },
            Ok(_) => {},
        }
        match self.expect('>') {
            Err(e) => {
                return Err(e);
            },
            Ok(_) => {},
        }
        Ok(dom::comment(body))
    }

    /// Consume a quoted attribute value.
    fn parse_attr_value(&mut self) -> (r: Result<String, ParseError>)
        requires
            old(self).wf(),
        ensures
            final(self).wf(),
            final(self).s() == old(self).s(),
            old(self).pos() <= final(self).pos(),
            match r {
                Ok(v) => attr_value_at(old(self).s(), old(self).pos()) == Ok::<
                    (Seq<char>, int),
                    ParseError,
                >((v@, final(self).pos())) && old(self).pos() < final(self).pos(),
                Err(e) => attr_value_at(old(self).s(), old(self).pos()) == Err::<
                    (Seq<char>, int),
                    ParseError,
                >(e),
            },
    {
        if self.cur.eof() {
            return Err(ParseError::TruncatedInput);
        }
        let q = self.cur.consume_char();
        if q != '"' && q != '\'' {
            return Err(ParseError::UnexpectedChar);
        }
        let ghost s = self.s();
        let ghost p1 = self.pos();
        let value = self.cur.consume_while(CharClass::NotChar(q));
        if self.cur.eof() {
            return Err(ParseError::TruncatedInput);
        }
        proof {
            scan::lemma_take_end(s, p1, CharClass::NotChar(q));
        }
        let _close = self.cur.consume_char();
        Ok(value)
    }

    /// Consume one `name="value"` pair.
    fn parse_attr(&mut self) -> (r: Result<(String, String), ParseError>)
        requires
            old(self).wf(),
        ensures
            final(self).wf(),
            final(self).s() == old(self).s(),
            old(self).pos() <= final(self).pos(),
            match r {
                Ok(p) => attr_at(old(self).s(), old(self).pos()) == Ok::<
                    ((Seq<char>, Seq<char>), int),
                    ParseError,
                >(((p.0@, p.1@), final(self).pos())) && old(self).pos() < final(self).pos(),
                Err(e) => attr_at(old(self).s(), old(self).pos()) == Err::<
                    ((Seq<char>, Seq<char>), int),
                    ParseError,
                >(e),
            },
    {
        let name = self.parse_tag_name();
        match self.expect('=') {
            Err(e) => {
                return Err(e);
            },
            Ok(_) => {},
        }
        match self.parse_attr_value() {
            Err(e) => Err(e),
            Ok(value) => Ok((name, value)),
        }
    }

    /// Consume the attribute list of an open tag, stopping just before `>`.
    fn parse_attributes(&mut self) -> (r: Result<dom::AttrMap, ParseError>)
        requires
            old(self).wf(),
        ensures
            final(self).wf(),
            final(self).s() == old(self).s(),
            old(self).pos() <= final(self).pos(),
            match r {
                Ok(a) => attrs_at(old(self).s(), old(self).pos(), Map::empty()) == Ok::<
                    (Map<Seq<char>, Seq<char>>, int),
                    ParseError,
                >((a@, final(self).pos())),
                Err(e) => attrs_at(old(self).s(), old(self).pos(), Map::empty()) == Err::<
                    (Map<Seq<char>, Seq<char>>, int),
                    ParseError,
                >(e),
            },
    {
        let ghost s = old(self).s();
        let ghost p0 = old(self).pos();
        let mut attrs = dom::AttrMap::new();
        loop
            invariant
                self.wf(),
                s == old(self).s(),
                p0 == old(self).pos(),
                self.s() == s,
                p0 <= self.pos(),
                attrs_at(s, p0, Map::empty()) == attrs_at(s, self.pos(), attrs@),
            decreases s.len() - self.pos(),
        {
            let ghost pprev = self.pos();
            self.cur.skip_whitespace();
            proof {
                lemma_attrs_skip_space(s, pprev, attrs@);
                scan::lemma_take_end(s, pprev, CharClass::Space);
            }
            if self.cur.eof() {
                return Err(ParseError::TruncatedInput);
            }
            let c = self.cur.next_char();
            if c == '>' {
                return Ok(attrs);
            }
            match self.parse_attr() {
                Err(e) => {
                    return Err(e);
                },
                Ok((name, value)) => {
                    attrs.insert(name, value);
                },
            }
        }
    }

    /// Consume one node: an element or comment after `<`, else a text run.
    fn parse_node(&mut self) -> (r: Result<Node, ParseError>)
        requires
            old(self).wf(),
        ensures
            final(self).wf(),
            final(self).s() == old(self).s(),
            old(self).pos() <= final(self).pos(),
            match r {
                Ok(n) => node_at(old(self).s(), old(self).pos()) == Ok::<(NodeV, int), ParseError>(
                    (n@, final(self).pos()),
                ) && old(self).pos() < final(self).pos(),
                Err(e) => node_at(old(self).s(), old(self).pos()) == Err::<(NodeV, int), ParseError>(
                    e,
                ),
            },
        decreases self.s().len() - self.pos(), 1int,
    {
        if self.cur.eof() {
            return Err(ParseError::TruncatedInput);
        }
        let c = self.cur.next_char();
        if c == '<' {
            self.parse_element()
        } else {
            proof {
                scan::lemma_take_end(self.s(), self.pos() + 1, CharClass::NotChar('<'));
            }
            Ok(self.parse_text())
        }
    }

    /// Consume one element (or comment) beginning at its `<`.
    fn parse_element(&mut self) -> (r: Result<Node, ParseError>)
        requires
            old(self).wf(),
        ensures
            final(self).wf(),
            final(self).s() == old(self).s(),
            old(self).pos() <= final(self).pos(),
            match r {
                Ok(n) => element_at(old(self).s(), old(self).pos()) == Ok::<
                    (NodeV, int),
                    ParseError,
                >((n@, final(self).pos())) && old(self).pos() < final(self).pos(),
                Err(e) => element_at(old(self).s(), old(self).pos()) == Err::<
                    (NodeV, int),
                    ParseError,
                >(e),
            },
        decreases self.s().len() - self.pos(), 0int,
    {
        match self.expect('<') {
            Err(e) => {
                return Err(e);
            },
            Ok(_) => {},
        }
        if self.cur.eof() {
            return Err(ParseError::TruncatedInput);
        }
        let c = self.cur.next_char();
        if c == '!' {
            return self.parse_comment();
        }
        let tag = self.parse_tag_name();
        let attrs = match self.parse_attributes() {
            Err(e) => {
                return Err(e);
            },
            Ok(a) => a,
        };
        match self.expect('>') {
            Err(e) => {
                return Err(e);
            },
            Ok(_) => {},
        }
        let children = match self.parse_nodes() {
            Err(e) => {
                return Err(e);
            },
            Ok(ns) => ns,
        };
        match self.expect('<') {
            Err(e) => {
                return Err(e);
            },
            Ok(_) => {},
        }
        match self.expect('/') {
            Err(e) => {
                return Err(e);
            },
            Ok(_) => {},
        }
        let ctag = self.parse_tag_name();
        if !(ctag == tag) {
            return Err(ParseError::UnmatchedClosingTag);
        }
        match self.expect('>') {
            Err(e) => {
                return Err(e);
            },
            Ok(_) => {},
        }
        Ok(dom::elem(tag, attrs, children))
    }

    /// Consume sibling nodes up to end of input or a closing-tag opener.
    fn parse_nodes(&mut self) -> (r: Result<Vec<Node>, ParseError>)
        requires
            old(self).wf(),
        ensures
            final(self).wf(),
            final(self).s() == old(self).s(),
            old(self).pos() <= final(self).pos(),
            match r {
                Ok(ns) => nodes_at(old(self).s(), old(self).pos()) == Ok::<
                    (Seq<NodeV>, int),
                    ParseError,
                >((dom::nodes_view(ns@), final(self).pos())),
                Err(e) => nodes_at(old(self).s(), old(self).pos()) == Err::<
                    (Seq<NodeV>, int),
                    ParseError,
                >(e),
            },
        decreases self.s().len() - self.pos(), 2int,
    {
        let ghost s = old(self).s();
        let ghost p0 = old(self).pos();
        let mut nodes: Vec<Node> = Vec::new();
        proof {
            assert(dom::nodes_view(nodes@) =~= Seq::<NodeV>::empty());
        }
        loop
            invariant
                self.wf(),
                s == old(self).s(),
                p0 == old(self).pos(),
                self.s() == s,
                p0 <= self.pos(),
                nodes_at(s, p0) == (match nodes_at(s, self.pos()) {
                    Ok((rest, q)) => Ok::<(Seq<NodeV>, int), ParseError>(
                        (dom::nodes_view(nodes@) + rest, q),
                    ),
                    Err(e) => Err::<(Seq<NodeV>, int), ParseError>(e),
                }),
            decreases s.len() - self.pos(),
        {
            let ghost pprev = self.pos();
            self.cur.skip_whitespace();
            proof {
                lemma_nodes_skip_space(s, pprev);
                scan::lemma_take_end(s, pprev, CharClass::Space);
            }
            if self.cur.eof() {
                proof {
                    assert(dom::nodes_view(nodes@) + Seq::<NodeV>::empty() =~= dom::nodes_view(
                        nodes@,
                    ));
                }
                return Ok(nodes);
            }
            if self.cur.at_close_opener() {
                proof {
                    assert(dom::nodes_view(nodes@) + Seq::<NodeV>::empty() =~= dom::nodes_view(
                        nodes@,
                    ));
                }
                return Ok(nodes);
            }
            let ghost p1 = self.pos();
            match self.parse_node() {
                Err(e) => {
                    return Err(e);
                },
                Ok(n) => {
                    proof {
                        dom::lemma_nodes_view_push(nodes@, n);
                        let r2 = nodes_at(s, self.pos());
                        if r2 is Ok {
                            let rest = r2->Ok_0.0;
                            assert((dom::nodes_view(nodes@) + seq![dom::node_view(n)]) + rest
                                =~= dom::nodes_view(nodes@) + (seq![dom::node_view(n)] + rest));
                        }
                    }
                    nodes.push(n);
                },
            }
        }
    }
}

/// Parse a markup document and return its single root node, or the
/// failure the first structural violation produces.
pub fn parse(source: String) -> (r: Result<Node, ParseError>)
    ensures
        match r {
            Ok(n) => document(source@) == Ok::<NodeV, ParseError>(n@),
            Err(e) => document(source@) == Err::<NodeV, ParseError>(e),
        },
{
    let mut p = Parser { cur: scan::Cursor::new(source) };
    let mut nodes = match p.parse_nodes() {
        Err(e) => {
            return Err(e);
        },
        Ok(ns) => ns,
    };
    proof {
        dom::lemma_nodes_view(nodes@);
    }
    if nodes.len() == 1 {
        let n = nodes.remove(0);
        Ok(n)
    } else {
        Ok(dom::elem(String::from_str("html"), dom::AttrMap::new(), nodes))
    }
}

} // verus!
