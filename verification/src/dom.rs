//! The markup tree: text, comment and element nodes, with attribute
//! lookup and class-set derivation on elements.

use crate::css;
use crate::errors::ParseError;
use crate::scan;
use vstd::prelude::*;
use vstd::string::*;

verus! {

/// The mathematical model of a node: its kind and its children in order.
#[verifier::ext_equal]
pub ghost struct NodeV {
    pub node_type: NodeTypeV,
    pub children: Seq<NodeV>,
}

#[verifier::ext_equal]
pub ghost enum NodeTypeV {
    Text(Seq<char>),
    Comment(Seq<char>),
    Element(ElementDataV),
}

/// The model of an element: a tag name and an attribute mapping with
/// unique keys; insertion order carries no meaning.
#[verifier::ext_equal]
pub ghost struct ElementDataV {
    pub tag_name: Seq<char>,
    pub attributes: Map<Seq<char>, Seq<char>>,
}

/// A node of the markup tree; each node exclusively owns its children.
#[derive(Debug, PartialEq)]
pub struct Node {
    pub node_type: NodeType,
    pub children: Vec<Node>,
}

#[derive(Debug, PartialEq)]
pub enum NodeType {
    Text(String),
    Comment(String),
    Element(ElementData),
}

#[derive(Debug, PartialEq)]
pub struct ElementData {
    pub tag_name: String,
    pub attributes: AttrMap,
}

/// An attribute mapping. Entries are kept in insertion order; a later
/// insertion of the same name overwrites the earlier one in the view.
#[derive(Debug, PartialEq)]
pub struct AttrMap {
    entries: Vec<(String, String)>,
}

/// The mapping that a sequence of name/value entries denotes: the last
/// entry for a name wins.
pub open spec fn attrs_map(s: Seq<(String, String)>) -> Map<Seq<char>, Seq<char>>
    decreases s.len(),
{
    if s.len() == 0 {
        Map::empty()
    } else {
        attrs_map(s.drop_last()).insert(s.last().0@, s.last().1@)
    }
}

proof fn lemma_attrs_map_contains(s: Seq<(String, String)>, k: Seq<char>)
    ensures
        attrs_map(s).contains_key(k) <==> exists|i: int| 0 <= i < s.len() && s[i].0@ == k,
    decreases s.len(),
{
    if s.len() > 0 {
        lemma_attrs_map_contains(s.drop_last(), k);
        if attrs_map(s).contains_key(k) && s.last().0@ != k {
            let i = choose|i: int| 0 <= i < s.drop_last().len() && s.drop_last()[i].0@ == k;
            assert(s[i].0@ == k);
        }
        if exists|i: int| 0 <= i < s.len() && s[i].0@ == k {
            let i = choose|i: int| 0 <= i < s.len() && s[i].0@ == k;
            if i < s.len() - 1 {
                assert(s.drop_last()[i].0@ == k);
            }
        }
    }
}

proof fn lemma_attrs_map_get(s: Seq<(String, String)>, i: int)
    requires
        0 <= i < s.len(),
        forall|j: int| i < j < s.len() ==> s[j].0@ != s[i].0@,
    ensures
        attrs_map(s).contains_key(s[i].0@),
        attrs_map(s)[s[i].0@] == s[i].1@,
    decreases s.len(),
{
    if i == s.len() - 1 {
    } else {
        let d = s.drop_last();
        assert(forall|j: int| i < j < d.len() ==> d[j].0@ != d[i].0@);
        lemma_attrs_map_get(s.drop_last(), i);
    }
}

impl View for AttrMap {
    type V = Map<Seq<char>, Seq<char>>;

    closed spec fn view(&self) -> Map<Seq<char>, Seq<char>> {
        attrs_map(self.entries@)
    }
}

impl AttrMap {
    pub fn new() -> (r: AttrMap)
        ensures
            r@ == Map::<Seq<char>, Seq<char>>::empty(),
    {
        AttrMap { entries: Vec::new() }
    }

    /// Bind `name` to `value`, overwriting any earlier binding of `name`.
    pub fn insert(&mut self, name: String, value: String)
        ensures
            final(self)@ == old(self)@.insert(name@, value@),
    {
        let ghost prev = self.entries@;
        self.entries.push((name, value));
        proof {
            assert(self.entries@.drop_last() =~= prev);
        }
    }

    /// The value bound to `name`, if any.
    pub fn get(&self, name: &str) -> (r: Option<&String>)
        ensures
            match r {
                Some(v) => self@.contains_key(name@) && v@ == self@[name@],
                None => !self@.contains_key(name@),
            },
    {
        let n = self.entries.len();
        let mut i: usize = n;
        while i > 0
            invariant
                n == self.entries@.len(),
                i <= n,
                forall|j: int| i <= j < n ==> self.entries@[j].0@ != name@,
            decreases i,
        {
            i = i - 1;
            if scan::str_eq(self.entries[i].0.as_str(), name) {
                proof {
                    lemma_attrs_map_get(self.entries@, i as int);
                }
                return Some(&self.entries[i].1);
            }
        }
        proof {
            lemma_attrs_map_contains(self.entries@, name@);
        }
        None
    }
}

/// The view of a sequence of nodes.
pub open spec fn nodes_view(s: Seq<Node>) -> Seq<NodeV>
    decreases s,
{
    if s.len() == 0 {
        Seq::empty()
    } else {
        seq![node_view(s[0])] + nodes_view(s.drop_first())
    }
}

pub open spec fn node_view(n: Node) -> NodeV
    decreases n,
{
    NodeV { node_type: n.node_type@, children: nodes_view(n.children@) }
}

pub proof fn lemma_nodes_view(s: Seq<Node>)
    ensures
        nodes_view(s).len() == s.len(),
        forall|i: int| 0 <= i < s.len() ==> nodes_view(s)[i] == node_view(s[i]),
    decreases s,
{
    if s.len() > 0 {
        lemma_nodes_view(s.drop_first());
    }
}

pub proof fn lemma_nodes_view_push(s: Seq<Node>, n: Node)
    ensures
        nodes_view(s.push(n)) == nodes_view(s) + seq![node_view(n)],
{
    lemma_nodes_view(s.push(n));
    lemma_nodes_view(s);
    assert(nodes_view(s.push(n)) =~= nodes_view(s) + seq![node_view(n)]);
}

impl View for Node {
    type V = NodeV;

    open spec fn view(&self) -> NodeV {
        node_view(*self)
    }
}

impl View for NodeType {
    type V = NodeTypeV;

    open spec fn view(&self) -> NodeTypeV {
        match self {
            NodeType::Text(t) => NodeTypeV::Text(t@),
            NodeType::Comment(t) => NodeTypeV::Comment(t@),
            NodeType::Element(e) => NodeTypeV::Element(e@),
        }
    }
}

impl View for ElementData {
    type V = ElementDataV;

    open spec fn view(&self) -> ElementDataV {
        ElementDataV { tag_name: self.tag_name@, attributes: self.attributes@ }
    }
}

/// The class set an element's model derives from its "class" attribute:
/// the whitespace-separated tokens of the attribute's value (the maximal
/// nonempty runs of non-whitespace characters), or nothing when the
/// attribute is absent.
pub open spec fn elem_classes(e: ElementDataV) -> Seq<Seq<char>> {
    if e.attributes.contains_key("class"@) {
        scan::tokens_from(e.attributes["class"@], 0)
    } else {
        Seq::empty()
    }
}

impl ElementData {
    /// The attribute named "id", if present.
    pub fn id(&self) -> (r: Option<&String>)
        ensures
            match r {
                Some(v) => self@.attributes.contains_key("id"@) && v@ == self@.attributes["id"@],
                None => !self@.attributes.contains_key("id"@),
            },
    {
        self.attributes.get("id")
    }

    /// The whitespace-separated tokens of the attribute named "class",
    /// empties excluded; no tokens when that attribute is absent.
    pub fn classes(&self) -> (r: Vec<String>)
        ensures
            scan::views_of(r@) == elem_classes(self@),
    {
        match self.attributes.get("class") {
            Some(list) => scan::whitespace_tokens(list),
            None => {
                proof {
                    assert(scan::views_of(Seq::<String>::empty()) =~= Seq::<Seq<char>>::empty());
                }
                Vec::new()
            },
        }
    }
}

/// The source text of an element's inline-style view: the element's
/// tag name wrapping its "style" attribute text (empty when absent)
/// as one rule: `tag { text }`.
pub open spec fn inline_style_source(e: ElementDataV) -> Seq<char> {
    e.tag_name + " {"@ + (if e.attributes.contains_key("style"@) {
        e.attributes["style"@]
    } else {
        Seq::empty()
    }) + "}"@
}

impl ElementData {
    /// The element's "style" attribute read as a one-rule stylesheet
    /// scoped to this element's tag: exactly what parsing
    /// `tag { attribute text }` as a stylesheet yields.
    pub fn style(&self) -> (r: Result<css::Stylesheet, ParseError>)
        ensures
            match r {
                Ok(sheet) => css::stylesheet_spec(inline_style_source(self@)) == Ok::<
                    css::StylesheetV,
                    ParseError,
                >(sheet@),
                Err(e) => css::stylesheet_spec(inline_style_source(self@)) == Err::<
                    css::StylesheetV,
                    ParseError,
                >(e),
            },
    {
        let mut source = self.tag_name.clone();
        source.append(" {");
        match self.attributes.get("style") {
            Some(sty) => {
                source.append(sty.as_str());
            },
            None => {
                proof {
                    assert(self.tag_name@ + " {"@ + Seq::<char>::empty() =~= self.tag_name@
                        + " {"@);
                }
            },
        }
        source.append("}");
        css::parse(source)
    }
}

/// A text node with no children.
pub fn text(data: String) -> (r: Node)
    ensures
        r@ == (NodeV { node_type: NodeTypeV::Text(data@), children: Seq::empty() }),
{
    let r = Node { children: Vec::new(), node_type: NodeType::Text(data) };
    proof {
        assert(nodes_view(r.children@) =~= Seq::<NodeV>::empty());
        assert(r@ =~= (NodeV { node_type: NodeTypeV::Text(data@), children: Seq::empty() }));
    }
    r
}

/// A comment node with no children.
pub fn comment(data: String) -> (r: Node)
    ensures
        r@ == (NodeV { node_type: NodeTypeV::Comment(data@), children: Seq::empty() }),
{
    let r = Node { children: Vec::new(), node_type: NodeType::Comment(data) };
    proof {
        assert(nodes_view(r.children@) =~= Seq::<NodeV>::empty());
        assert(r@ =~= (NodeV { node_type: NodeTypeV::Comment(data@), children: Seq::empty() }));
    }
    r
}

/// An element node with the given tag name, attributes and children.
pub fn elem(name: String, attrs: AttrMap, children: Vec<Node>) -> (r: Node)
    ensures
        r@ == (NodeV {
            node_type: NodeTypeV::Element(ElementDataV { tag_name: name@, attributes: attrs@ }),
            children: nodes_view(children@),
        }),
{
    Node { children, node_type: NodeType::Element(ElementData { tag_name: name, attributes: attrs }) }
}

} // verus!
