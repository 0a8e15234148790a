//! The stylesheet model and parser: rules, selectors, declarations and
//! values, specificity, and recursive descent over rule lists.
//!
//! As in the markup parser, every production has a specification-level
//! counterpart (`*_at`) over the input character sequence and a
//! position, and the executable parser is proved to match it exactly.

use crate::errors::ParseError;
use crate::scan;
use crate::scan::CharClass;
use vstd::prelude::*;
use vstd::string::*;

verus! {

/// An ordered sequence of rules, preserved in source order.
#[derive(Debug, PartialEq)]
pub struct Stylesheet {
    pub rules: Vec<Rule>,
}

/// Alternative selectors (kept in descending specificity) paired with
/// the declarations they apply.
#[derive(Debug, PartialEq)]
pub struct Rule {
    pub selectors: Vec<Selector>,
    pub declarations: Vec<Declaration>,
}

#[derive(Debug, PartialEq)]
pub enum Selector {
    Simple(SimpleSelector),
}

/// A simple selector: each absent field means "no constraint".
#[derive(Debug, PartialEq)]
pub struct SimpleSelector {
    pub tag_name: Option<String>,
    pub id: Option<String>,
    pub class: Vec<String>,
}

/// A property name paired with its value.
#[derive(Debug, PartialEq)]
pub struct Declaration {
    pub name: String,
    pub value: Value,
}

/// A declaration's value. A length carries its numeric literal exactly
/// as written, which supports the exact equality and cheap duplication
/// the cascade needs.
#[derive(Debug, PartialEq)]
pub enum Value {
    Keyword(String),
    Length(String, Unit),
    ColorValue(Color),
}

#[derive(Debug, PartialEq, Eq, Structural, Clone, Copy)]
pub enum Unit {
    Px,
}

#[derive(Debug, PartialEq, Eq, Structural, Clone, Copy)]
pub struct Color {
    pub r: u8,
    pub g: u8,
    pub b: u8,
    pub a: u8,
}

/// Specificity: id count, class count, tag count, ordered
/// lexicographically; higher wins.
pub type Specificity = (usize, usize, usize);

#[verifier::ext_equal]
pub ghost struct StylesheetV {
    pub rules: Seq<RuleV>,
}

#[verifier::ext_equal]
pub ghost struct RuleV {
    pub selectors: Seq<SelectorV>,
    pub declarations: Seq<DeclarationV>,
}

#[verifier::ext_equal]
pub ghost enum SelectorV {
    Simple(SimpleSelectorV),
}

#[verifier::ext_equal]
pub ghost struct SimpleSelectorV {
    pub tag_name: Option<Seq<char>>,
    pub id: Option<Seq<char>>,
    pub class: Seq<Seq<char>>,
}

#[verifier::ext_equal]
pub ghost struct DeclarationV {
    pub name: Seq<char>,
    pub value: ValueV,
}

#[verifier::ext_equal]
pub ghost enum ValueV {
    Keyword(Seq<char>),
    Length(Seq<char>, Unit),
    ColorValue(Color),
}

impl View for SimpleSelector {
    type V = SimpleSelectorV;

    open spec fn view(&self) -> SimpleSelectorV {
        SimpleSelectorV {
            tag_name: match self.tag_name {
                Some(t) => Some(t@),
                None => None,
            },
            id: match self.id {
                Some(t) => Some(t@),
                None => None,
            },
            class: scan::views_of(self.class@),
        }
    }
}

impl View for Selector {
    type V = SelectorV;

    open spec fn view(&self) -> SelectorV {
        match self {
            Selector::Simple(s) => SelectorV::Simple(s@),
        }
    }
}

impl View for Value {
    type V = ValueV;

    open spec fn view(&self) -> ValueV {
        match self {
            Value::Keyword(s) => ValueV::Keyword(s@),
            Value::Length(n, u) => ValueV::Length(n@, *u),
            Value::ColorValue(c) => ValueV::ColorValue(*c),
        }
    }
}

impl View for Declaration {
    type V = DeclarationV;

    open spec fn view(&self) -> DeclarationV {
        DeclarationV { name: self.name@, value: self.value@ }
    }
}

/// The views of a sequence of selectors.
pub open spec fn selectors_view(s: Seq<Selector>) -> Seq<SelectorV> {
    s.map_values(|x: Selector| x@)
}

/// The views of a sequence of declarations.
pub open spec fn declarations_view(s: Seq<Declaration>) -> Seq<DeclarationV> {
    s.map_values(|x: Declaration| x@)
}

impl View for Rule {
    type V = RuleV;

    open spec fn view(&self) -> RuleV {
        RuleV {
            selectors: selectors_view(self.selectors@),
            declarations: declarations_view(self.declarations@),
        }
    }
}

/// The views of a sequence of rules.
pub open spec fn rules_view(s: Seq<Rule>) -> Seq<RuleV> {
    s.map_values(|x: Rule| x@)
}

impl View for Stylesheet {
    type V = StylesheetV;

    open spec fn view(&self) -> StylesheetV {
        StylesheetV { rules: rules_view(self.rules@) }
    }
}

impl Value {
    /// An exact copy of the value, as the cascade stores for each
    /// winning declaration.
    pub fn duplicate(&self) -> (r: Value)
        ensures
            r@ == self@,
    {
        match self {
            Value::Keyword(s) => Value::Keyword(s.clone()),
            Value::Length(n, u) => Value::Length(n.clone(), *u),
            Value::ColorValue(c) => Value::ColorValue(*c),
        }
    }
}

/// A selector's specificity, over its model: one for a present id,
/// the number of listed classes, one for a present tag name.
pub open spec fn spec_specificity(s: SelectorV) -> (int, int, int) {
    match s {
        SelectorV::Simple(ss) => (
            if ss.id is Some {
                1
            } else {
                0
            },
            ss.class.len() as int,
            if ss.tag_name is Some {
                1
            } else {
                0
            },
        ),
    }
}

/// Lexicographic order on specificity triples.
pub open spec fn spec_lt(a: (int, int, int), b: (int, int, int)) -> bool {
    a.0 < b.0 || (a.0 == b.0 && (a.1 < b.1 || (a.1 == b.1 && a.2 < b.2)))
}

/// The model of an executable specificity triple.
pub open spec fn lift_specificity(sp: Specificity) -> (int, int, int) {
    (sp.0 as int, sp.1 as int, sp.2 as int)
}

impl Selector {
    /// The selector's specificity triple.
    pub fn specificity(&self) -> (r: Specificity)
        ensures
            lift_specificity(r) == spec_specificity(self@),
    {
        let Selector::Simple(simple) = self;
        let a: usize = if simple.id.is_some() {
            1
        } else {
            0
        };
        let b: usize = simple.class.len();
        let c: usize = if simple.tag_name.is_some() {
            1
        } else {
            0
        };
        (a, b, c)
    }
}

/// Whether `a` ranks strictly below `b`.
fn specificity_lt(a: Specificity, b: Specificity) -> (r: bool)
    ensures
        r == spec_lt(lift_specificity(a), lift_specificity(b)),
{
    a.0 < b.0 || (a.0 == b.0 && (a.1 < b.1 || (a.1 == b.1 && a.2 < b.2)))
}

/// Insert `x` into a descending-specificity sequence, after every
/// element that does not rank strictly below it (a stable insertion).
pub open spec fn insert_selector_desc(sorted: Seq<SelectorV>, x: SelectorV) -> Seq<SelectorV>
    decreases sorted.len(),
{
    if sorted.len() == 0 {
        seq![x]
    } else if !spec_lt(spec_specificity(sorted[0]), spec_specificity(x)) {
        seq![sorted[0]] + insert_selector_desc(sorted.drop_first(), x)
    } else {
        seq![x] + sorted
    }
}

/// Stable sort of a selector list by descending specificity.
pub open spec fn sort_selectors_desc(sels: Seq<SelectorV>) -> Seq<SelectorV>
    decreases sels.len(),
{
    if sels.len() == 0 {
        Seq::empty()
    } else {
        insert_selector_desc(sort_selectors_desc(sels.drop_last()), sels.last())
    }
}

/// Specificity ordering: a selector with an id outranks any selector
/// without one, and among selectors without ids, one with at least one
/// class outranks one with neither id nor classes (whatever its tag).
pub proof fn lemma_specificity_ordering(
    a: SimpleSelectorV,
    b: SimpleSelectorV,
    c: SimpleSelectorV,
)
    requires
        a.id is Some,
        b.id is None,
        b.class.len() > 0,
        c.id is None,
        c.class.len() == 0,
    ensures
        spec_lt(spec_specificity(SelectorV::Simple(b)), spec_specificity(SelectorV::Simple(a))),
        spec_lt(spec_specificity(SelectorV::Simple(c)), spec_specificity(SelectorV::Simple(b))),
{
}


/// Non-strict descending order of a selector list by specificity.
pub open spec fn sorted_desc(s: Seq<SelectorV>) -> bool {
    forall|i: int, j: int|
        0 <= i < j < s.len() ==> !spec_lt(spec_specificity(s[i]), spec_specificity(s[j]))
}

proof fn lemma_insert_desc_props(sorted: Seq<SelectorV>, x: SelectorV)
    requires
        sorted_desc(sorted),
    ensures
        sorted_desc(insert_selector_desc(sorted, x)),
        insert_selector_desc(sorted, x).contains(x),
        forall|y: SelectorV| #[trigger]
            insert_selector_desc(sorted, x).contains(y) ==> (sorted.contains(y) || y == x),
        forall|y: SelectorV| #[trigger] sorted.contains(y) ==> insert_selector_desc(
            sorted,
            x,
        ).contains(y),
    decreases sorted.len(),
{
    let r = insert_selector_desc(sorted, x);
    if sorted.len() == 0 {
        assert(r == seq![x]);
        assert(r[0] == x);
        assert(r.contains(x));
        assert forall|y: SelectorV| #[trigger] r.contains(y) implies (sorted.contains(y) || y
            == x) by {
            let i = choose|i: int| 0 <= i < r.len() && r[i] == y;
            assert(r[i] == x);
        }
    } else if !spec_lt(spec_specificity(sorted[0]), spec_specificity(x)) {
        let rest = sorted.drop_first();
        assert(sorted_desc(rest)) by {
            assert forall|i: int, j: int| 0 <= i < j < rest.len() implies !spec_lt(
                spec_specificity(rest[i]),
                spec_specificity(rest[j]),
            ) by {
                assert(rest[i] == sorted[i + 1]);
                assert(rest[j] == sorted[j + 1]);
            }
        }
        lemma_insert_desc_props(rest, x);
        let ri = insert_selector_desc(rest, x);
        assert(r == seq![sorted[0]] + ri);
        assert forall|k: int| 0 <= k < ri.len() implies !spec_lt(
            spec_specificity(sorted[0]),
            spec_specificity(ri[k]),
        ) by {
            assert(ri.contains(ri[k]));
            if ri[k] == x {
            } else {
                assert(rest.contains(ri[k]));
                let m = choose|m: int| 0 <= m < rest.len() && rest[m] == ri[k];
                assert(rest[m] == sorted[m + 1]);
            }
        }
        assert(sorted_desc(r)) by {
            assert forall|i: int, j: int| 0 <= i < j < r.len() implies !spec_lt(
                spec_specificity(r[i]),
                spec_specificity(r[j]),
            ) by {
                if i == 0 {
                    assert(r[j] == ri[j - 1]);
                } else {
                    assert(r[i] == ri[i - 1]);
                    assert(r[j] == ri[j - 1]);
                }
            }
        }
        assert(ri.contains(x));
        let ix = choose|i: int| 0 <= i < ri.len() && ri[i] == x;
        assert(r[ix + 1] == x);
        assert(r.contains(x));
        assert forall|y: SelectorV| #[trigger] r.contains(y) implies (sorted.contains(y) || y
            == x) by {
            let i = choose|i: int| 0 <= i < r.len() && r[i] == y;
            if i == 0 {
                assert(sorted[0] == y);
                assert(sorted.contains(y));
            } else {
                assert(ri[i - 1] == y);
                assert(ri.contains(y));
                if y != x {
                    assert(rest.contains(y));
                    let m = choose|m: int| 0 <= m < rest.len() && rest[m] == y;
                    assert(sorted[m + 1] == y);
                    assert(sorted.contains(y));
                }
            }
        }
        assert forall|y: SelectorV| #[trigger] sorted.contains(y) implies r.contains(y) by {
            let i = choose|i: int| 0 <= i < sorted.len() && sorted[i] == y;
            if i == 0 {
                assert(r[0] == y);
            } else {
                assert(rest[i - 1] == y);
                assert(rest.contains(y));
                assert(ri.contains(y));
                let m = choose|m: int| 0 <= m < ri.len() && ri[m] == y;
                assert(r[m + 1] == y);
            }
        }
    } else {
        assert(r == seq![x] + sorted);
        assert(r[0] == x);
        assert(r.contains(x));
        assert(sorted_desc(r)) by {
            assert forall|i: int, j: int| 0 <= i < j < r.len() implies !spec_lt(
                spec_specificity(r[i]),
                spec_specificity(r[j]),
            ) by {
                if i == 0 {
                    assert(r[j] == sorted[j - 1]);
                    if j > 1 {
                        assert(!spec_lt(spec_specificity(sorted[0]), spec_specificity(
                            sorted[j - 1],
                        )));
                    }
                } else {
                    assert(r[i] == sorted[i - 1]);
                    assert(r[j] == sorted[j - 1]);
                }
            }
        }
        assert forall|y: SelectorV| #[trigger] r.contains(y) implies (sorted.contains(y) || y
            == x) by {
            let i = choose|i: int| 0 <= i < r.len() && r[i] == y;
            if i > 0 {
                assert(sorted[i - 1] == y);
                assert(sorted.contains(y));
            }
        }
        assert forall|y: SelectorV| #[trigger] sorted.contains(y) implies r.contains(y) by {
            let i = choose|i: int| 0 <= i < sorted.len() && sorted[i] == y;
            assert(r[i + 1] == y);
        }
    }
}

/// Ranking a selector list sorts it by descending specificity and
/// keeps exactly its selectors.
pub proof fn lemma_sort_desc_props(s: Seq<SelectorV>)
    ensures
        sorted_desc(sort_selectors_desc(s)),
        forall|y: SelectorV| #[trigger] sort_selectors_desc(s).contains(y) <==> s.contains(y),
    decreases s.len(),
{
    let r = sort_selectors_desc(s);
    if s.len() == 0 {
        assert forall|y: SelectorV| #[trigger] r.contains(y) implies s.contains(y) by {
            let i = choose|i: int| 0 <= i < r.len() && r[i] == y;
        }
        assert forall|y: SelectorV| #[trigger] s.contains(y) implies r.contains(y) by {
            let i = choose|i: int| 0 <= i < s.len() && s[i] == y;
        }
    } else {
        let d = s.drop_last();
        lemma_sort_desc_props(d);
        lemma_insert_desc_props(sort_selectors_desc(d), s.last());
        assert(r == insert_selector_desc(sort_selectors_desc(d), s.last()));
        assert forall|y: SelectorV| #[trigger] r.contains(y) implies s.contains(y) by {
            if y == s.last() {
                assert(s[s.len() - 1] == y);
            } else {
                assert(sort_selectors_desc(d).contains(y));
                assert(d.contains(y));
                let i = choose|i: int| 0 <= i < d.len() && d[i] == y;
                assert(s[i] == y);
            }
        }
        assert forall|y: SelectorV| #[trigger] s.contains(y) implies r.contains(y) by {
            let i = choose|i: int| 0 <= i < s.len() && s[i] == y;
            if i < s.len() - 1 {
                assert(d[i] == y);
                assert(d.contains(y));
                assert(sort_selectors_desc(d).contains(y));
            } else {
                assert(y == s.last());
            }
        }
    }
}

/// A stylesheet identifier: the maximal run of identifier characters.
pub open spec fn ident_at(s: Seq<char>, pos: int) -> (Seq<char>, int) {
    let e = scan::take_end(s, pos, CharClass::StyleName);
    (s.subrange(pos, e), e)
}

/// A simple selector's fragments from `pos` on, folded into `acc`:
/// `#id`, `.class`, the universal `*`, or a tag name, ending at the
/// first character that begins none of them.
pub open spec fn simple_selector_at(s: Seq<char>, pos: int, acc: SimpleSelectorV) -> (
    SimpleSelectorV,
    int,
)
    decreases s.len() - pos,
{
    if pos >= s.len() {
        (acc, pos)
    } else if s[pos] == '#' {
        let (id, p1) = ident_at(s, pos + 1);
        if pos < p1 <= s.len() {
            simple_selector_at(s, p1, SimpleSelectorV { id: Some(id), ..acc })
        } else {
            (acc, pos)
        }
    } else if s[pos] == '.' {
        let (cls, p1) = ident_at(s, pos + 1);
        if pos < p1 <= s.len() {
            simple_selector_at(s, p1, SimpleSelectorV { class: acc.class.push(cls), ..acc })
        } else {
            (acc, pos)
        }
    } else if s[pos] == '*' {
        simple_selector_at(s, pos + 1, acc)
    } else if scan::is_style_name_char(s[pos]) {
        let (tag, p1) = ident_at(s, pos);
        if pos < p1 <= s.len() {
            simple_selector_at(s, p1, SimpleSelectorV { tag_name: Some(tag), ..acc })
        } else {
            (acc, pos)
        }
    } else {
        (acc, pos)
    }
}

/// The empty simple selector: no constraint on any axis.
pub open spec fn empty_selector() -> SimpleSelectorV {
    SimpleSelectorV { tag_name: None, id: None, class: Seq::empty() }
}

/// A comma-separated selector list, in source order (not yet ranked),
/// ending just before the `{` of the declaration block.
pub open spec fn selectors_at(s: Seq<char>, pos: int) -> Result<(Seq<SelectorV>, int), ParseError>
    decreases s.len() - pos,
{
    let (ss, p1) = simple_selector_at(s, pos, empty_selector());
    if !(pos <= p1 <= s.len()) {
        Err(ParseError::UnexpectedChar)
    } else {
        let p2 = scan::take_end(s, p1, CharClass::Space);
        if !(p1 <= p2 <= s.len()) {
            Err(ParseError::UnexpectedChar)
        } else if p2 >= s.len() {
            Err(ParseError::TruncatedInput)
        } else if s[p2] == ',' {
            let p3 = scan::take_end(s, p2 + 1, CharClass::Space);
            if p2 + 1 <= p3 <= s.len() {
                match selectors_at(s, p3) {
                    Err(e) => Err(e),
                    Ok((rest, p4)) => Ok((seq![SelectorV::Simple(ss)] + rest, p4)),
                }
            } else {
                Err(ParseError::UnexpectedChar)
            }
        } else if s[p2] == '{' {
            Ok((seq![SelectorV::Simple(ss)], p2))
        } else {
            Err(ParseError::UnexpectedChar)
        }
    }
}

/// Whether an identifier names the single supported unit, compared
/// without regard to ASCII case.
pub open spec fn is_px_ident(u: Seq<char>) -> bool {
    u.len() == 2 && (u[0] == 'p' || u[0] == 'P') && (u[1] == 'x' || u[1] == 'X')
}

/// The number of dot characters in a numeric literal.
pub open spec fn num_dots(n: Seq<char>) -> int
    decreases n.len(),
{
    if n.len() == 0 {
        0
    } else {
        num_dots(n.drop_last()) + if n.last() == '.' {
            1int
        } else {
            0int
        }
    }
}

/// A numeric literal is well formed when it is nonempty and has at
/// most one dot.
pub open spec fn valid_number(n: Seq<char>) -> bool {
    n.len() > 0 && num_dots(n) <= 1
}

/// A unit identifier; only `px` (in any case) is known.
pub open spec fn unit_at(s: Seq<char>, pos: int) -> Result<(Unit, int), ParseError> {
    let (u, p1) = ident_at(s, pos);
    if is_px_ident(u) {
        Ok((Unit::Px, p1))
    } else {
        Err(ParseError::UnknownUnit)
    }
}

/// A length: a numeric literal followed immediately by its unit.
pub open spec fn length_at(s: Seq<char>, pos: int) -> Result<(ValueV, int), ParseError> {
    let e = scan::take_end(s, pos, CharClass::Numeric);
    let num = s.subrange(pos, e);
    if !valid_number(num) {
        Err(ParseError::MalformedNumber)
    } else {
        match unit_at(s, e) {
            Err(err) => Err(err),
            Ok((u, p2)) => Ok((ValueV::Length(num, u), p2)),
        }
    }
}

pub open spec fn is_hex_digit(c: char) -> bool {
    scan::is_digit(c) || (97 <= c as u32 && c as u32 <= 102) || (65 <= c as u32 && c as u32 <= 70)
}

pub open spec fn hex_val(c: char) -> int {
    if scan::is_digit(c) {
        c as u32 - 48
    } else if 97 <= c as u32 && c as u32 <= 102 {
        c as u32 - 87
    } else {
        c as u32 - 55
    }
}

/// Two hexadecimal digits read as one byte.
pub open spec fn hex_pair_at(s: Seq<char>, pos: int) -> Result<(int, int), ParseError> {
    if pos + 2 > s.len() {
        Err(ParseError::TruncatedInput)
    } else if !is_hex_digit(s[pos]) || !is_hex_digit(s[pos + 1]) {
        Err(ParseError::UnexpectedChar)
    } else {
        Ok((hex_val(s[pos]) * 16 + hex_val(s[pos + 1]), pos + 2))
    }
}

/// A `#rrggbb` color; the alpha channel is fixed at 255.
pub open spec fn color_at(s: Seq<char>, pos: int) -> Result<(ValueV, int), ParseError> {
    match crate::parser::expect_at(s, pos, '#') {
        Err(e) => Err(e),
        Ok(p1) => match hex_pair_at(s, p1) {
            Err(e) => Err(e),
            Ok((r, p2)) => match hex_pair_at(s, p2) {
                Err(e) => Err(e),
                Ok((g, p3)) => match hex_pair_at(s, p3) {
                    Err(e) => Err(e),
                    Ok((b, p4)) => Ok(
                        (
                            ValueV::ColorValue(
                                Color { r: r as u8, g: g as u8, b: b as u8, a: 255 },
                            ),
                            p4,
                        ),
                    ),
                },
            },
        },
    }
}

/// A value: a length after a digit, a color after `#`, otherwise an
/// identifier — a color when it is a known color name, else a keyword.
pub open spec fn value_at(s: Seq<char>, pos: int) -> Result<(ValueV, int), ParseError> {
    if pos >= s.len() {
        Err(ParseError::TruncatedInput)
    } else if scan::is_digit(s[pos]) {
        length_at(s, pos)
    } else if s[pos] == '#' {
        color_at(s, pos)
    } else {
        let (id, p1) = ident_at(s, pos);
        if id == "red"@ {
            Ok((ValueV::ColorValue(Color { r: 255, g: 0, b: 0, a: 255 }), p1))
        } else {
            Ok((ValueV::Keyword(id), p1))
        }
    }
}

/// One declaration: an identifier, `:`, a value and a required `;`,
/// with whitespace allowed around the separators.
pub open spec fn declaration_at(s: Seq<char>, pos: int) -> Result<(DeclarationV, int), ParseError> {
    let (name, p1) = ident_at(s, pos);
    let p2 = scan::take_end(s, p1, CharClass::Space);
    match crate::parser::expect_at(s, p2, ':') {
        Err(e) => Err(e),
        Ok(p3) => {
            let p4 = scan::take_end(s, p3, CharClass::Space);
            match value_at(s, p4) {
                Err(e) => Err(e),
                Ok((v, p5)) => {
                    let p6 = scan::take_end(s, p5, CharClass::Space);
                    match crate::parser::expect_at(s, p6, ';') {
                        Err(e) => Err(e),
                        Ok(p7) => Ok((DeclarationV { name, value: v }, p7)),
                    }
                },
            }
        },
    }
}

/// The declarations inside a block, after its `{`, up to and including
/// the closing `}`.
pub open spec fn decls_tail_at(s: Seq<char>, pos: int) -> Result<(Seq<DeclarationV>, int), ParseError>
    decreases s.len() - pos,
{
    if pos >= s.len() {
        Err(ParseError::TruncatedInput)
    } else if scan::is_space(s[pos]) {
        decls_tail_at(s, pos + 1)
    } else if s[pos] == '}' {
        Ok((Seq::empty(), pos + 1))
    } else {
        match declaration_at(s, pos) {
            Err(e) => Err(e),
            Ok((d, p2)) => {
                if pos < p2 <= s.len() {
                    match decls_tail_at(s, p2) {
                        Err(e) => Err(e),
                        Ok((rest, p3)) => Ok((seq![d] + rest, p3)),
                    }
                } else {
                    Err(ParseError::UnexpectedChar)
                }
            },
        }
    }
}

/// Skipping whitespace does not change what the declaration list yields.
proof fn lemma_decls_skip_space(s: Seq<char>, pos: int)
    requires
        0 <= pos <= s.len(),
    ensures
        decls_tail_at(s, pos) == decls_tail_at(s, scan::take_end(s, pos, CharClass::Space)),
    decreases s.len() - pos,
{
    if pos < s.len() && scan::is_space(s[pos]) {
        lemma_decls_skip_space(s, pos + 1);
    }
}

/// A declaration block: `{`, declarations, `}`.
pub open spec fn declarations_at(s: Seq<char>, pos: int) -> Result<
    (Seq<DeclarationV>, int),
    ParseError,
> {
    match crate::parser::expect_at(s, pos, '{') {
        Err(e) => Err(e),
        Ok(p1) => decls_tail_at(s, p1),
    }
}

/// One rule: its selector list, ranked by descending specificity
/// immediately after parsing, and its declaration block.
pub open spec fn rule_at(s: Seq<char>, pos: int) -> Result<(RuleV, int), ParseError> {
    match selectors_at(s, pos) {
        Err(e) => Err(e),
        Ok((sels, p1)) => match declarations_at(s, p1) {
            Err(e) => Err(e),
            Ok((decls, p2)) => Ok(
                (RuleV { selectors: sort_selectors_desc(sels), declarations: decls }, p2),
            ),
        },
    }
}

/// The rule list of a whole stylesheet: rules separated by whitespace,
/// up to end of input.
pub open spec fn rules_at(s: Seq<char>, pos: int) -> Result<(Seq<RuleV>, int), ParseError>
    decreases s.len() - pos,
{
    if pos >= s.len() {
        Ok((Seq::empty(), pos))
    } else if scan::is_space(s[pos]) {
        rules_at(s, pos + 1)
    } else {
        match rule_at(s, pos) {
            Err(e) => Err(e),
            Ok((r, p2)) => {
                if pos < p2 <= s.len() {
                    match rules_at(s, p2) {
                        Err(e) => Err(e),
                        Ok((rest, p3)) => Ok((seq![r] + rest, p3)),
                    }
                } else {
                    Err(ParseError::UnexpectedChar)
                }
            },
        }
    }
}

/// Skipping whitespace does not change what the rule list yields.
proof fn lemma_rules_skip_space(s: Seq<char>, pos: int)
    requires
        0 <= pos <= s.len(),
    ensures
        rules_at(s, pos) == rules_at(s, scan::take_end(s, pos, CharClass::Space)),
    decreases s.len() - pos,
{
    if pos < s.len() && scan::is_space(s[pos]) {
        lemma_rules_skip_space(s, pos + 1);
    }
}

/// A whole stylesheet.
pub open spec fn stylesheet_spec(s: Seq<char>) -> Result<StylesheetV, ParseError> {
    match rules_at(s, 0) {
        Err(e) => Err(e),
        Ok((rs, _)) => Ok(StylesheetV { rules: rs }),
    }
}

/// Insert `x` into a vector sorted by descending specificity, after
/// every element that does not rank strictly below it.
fn insert_selector(out: &mut Vec<Selector>, x: Selector)
    ensures
        selectors_view(final(out)@) == insert_selector_desc(selectors_view(old(out)@), x@),
{
    let xs = x.specificity();
    let ghost sv0 = selectors_view(old(out)@);
    let ghost xv = x@;
    proof {
        assert(sv0.skip(0) =~= sv0);
        assert(sv0.take(0) =~= Seq::<SelectorV>::empty());
        assert(sv0.take(0) + insert_selector_desc(sv0.skip(0), xv) =~= insert_selector_desc(
            sv0,
            xv,
        ));
    }
    let mut j: usize = 0;
    loop
        invariant
            out@ == old(out)@,
            sv0 == selectors_view(out@),
            j <= out@.len(),
            lift_specificity(xs) == spec_specificity(xv),
            xv == x@,
            insert_selector_desc(sv0, xv) == sv0.take(j as int) + insert_selector_desc(
                sv0.skip(j as int),
                xv,
            ),
        ensures
            out@ == old(out)@,
            j <= out@.len(),
            xv == x@,
            insert_selector_desc(sv0, xv) == sv0.take(j as int) + seq![xv] + sv0.skip(j as int),
        decreases out@.len() - j,
    {
        if j >= out.len() {
            proof {
                assert(sv0.skip(j as int) =~= Seq::<SelectorV>::empty());
                assert(insert_selector_desc(sv0.skip(j as int), xv) == seq![xv]);
                assert(sv0.take(j as int) + seq![xv] + sv0.skip(j as int) =~= sv0.take(j as int)
                    + seq![xv]);
            }
            break;
        }
        let js = out[j].specificity();
        if specificity_lt(js, xs) {
            proof {
                assert(sv0.skip(j as int)[0] == sv0[j as int]);
                assert(insert_selector_desc(sv0.skip(j as int), xv) == seq![xv] + sv0.skip(
                    j as int,
                ));
                assert(sv0.take(j as int) + (seq![xv] + sv0.skip(j as int)) =~= sv0.take(j as int)
                    + seq![xv] + sv0.skip(j as int));
            }
            break;
        }
        proof {
            assert(sv0.skip(j as int)[0] == sv0[j as int]);
            assert(sv0.skip(j as int).drop_first() =~= sv0.skip(j as int + 1));
            assert(sv0.take(j as int) + (seq![sv0[j as int]] + insert_selector_desc(
                sv0.skip(j as int + 1),
                xv,
            )) =~= sv0.take(j as int + 1) + insert_selector_desc(sv0.skip(j as int + 1), xv));
        }
        j = j + 1;
    }
    out.insert(j, x);
    proof {
        assert(selectors_view(out@) =~= sv0.take(j as int) + seq![xv] + sv0.skip(j as int));
    }
}

/// Stable sort of a selector list by descending specificity.
fn sort_selectors(input: Vec<Selector>) -> (r: Vec<Selector>)
    ensures
        selectors_view(r@) == sort_selectors_desc(selectors_view(input@)),
{
    let ghost orig = input@;
    let mut rest = input;
    let mut out: Vec<Selector> = Vec::new();
    let ghost mut k: int = 0;
    proof {
        assert(orig.take(0) =~= Seq::<Selector>::empty());
        assert(selectors_view(orig.take(0)) =~= Seq::<SelectorV>::empty());
        assert(rest@ =~= orig.skip(0));
    }
    loop
        invariant
            0 <= k <= orig.len(),
            rest@ == orig.skip(k),
            selectors_view(out@) == sort_selectors_desc(selectors_view(orig.take(k))),
        ensures
            selectors_view(out@) == sort_selectors_desc(selectors_view(orig)),
        decreases orig.len() - k,
    {
        if rest.len() == 0 {
            proof {
                assert(orig.take(k) =~= orig);
            }
            break;
        }
        let x = rest.remove(0);
        proof {
            assert(x == orig[k]);
            assert(rest@ =~= orig.skip(k + 1));
        }
        insert_selector(&mut out, x);
        proof {
            assert(orig.take(k + 1).drop_last() =~= orig.take(k));
            assert(orig.take(k + 1).last() == orig[k]);
            assert(selectors_view(orig.take(k + 1)).drop_last() =~= selectors_view(orig.take(k)));
            assert(selectors_view(orig.take(k + 1)).last() == orig[k]@);
            assert(selectors_view(orig.take(k + 1)).len() > 0);
            k = k + 1;
        }
    }
    out
}

/// Whether a character may stand in a stylesheet identifier.
fn valid_identifier_char(c: char) -> (b: bool)
    ensures
        b == scan::is_style_name_char(c),
{
    scan::class_check(CharClass::StyleName, c)
}

/// The number of dot characters in a numeric literal.
fn count_dots(n: &String) -> (r: usize)
    ensures
        r as int == num_dots(n@),
{
    let len = n.as_str().unicode_len();
    let mut i: usize = 0;
    let mut cnt: usize = 0;
    while i < len
        invariant
            i <= len,
            len == n@.len(),
            cnt <= i,
            cnt as int == num_dots(n@.take(i as int)),
        decreases len - i,
    {
        let c = n.as_str().get_char(i);
        i = i + 1;
        if c == '.' {
            cnt = cnt + 1;
        }
        proof {
            assert(n@.take(i as int).drop_last() =~= n@.take(i as int - 1));
            assert(n@.take(i as int).last() == n@[i as int - 1]);
        }
    }
    proof {
        assert(n@.take(len as int) =~= n@);
    }
    cnt
}

/// The value of one hexadecimal digit, if the character is one.
fn hex_digit_val(c: char) -> (r: Option<u8>)
    ensures
        match r {
            Some(v) => is_hex_digit(c) && v as int == hex_val(c),
            None => !is_hex_digit(c),
        },
{
    let u = c as u32;
    if 48 <= u && u <= 57 {
        Some((u - 48) as u8)
    } else if 97 <= u && u <= 102 {
        Some((u - 87) as u8)
    } else if 65 <= u && u <= 70 {
        Some((u - 55) as u8)
    } else {
        None
    }
}

/// The stylesheet parser: a cursor into the source text.
struct Parser {
    cur: scan::Cursor,
}

impl Parser {
    spec fn s(&self) -> Seq<char> {
        self.cur.s()
    }

    spec fn pos(&self) -> int {
        self.cur.pos as int
    }

    spec fn wf(&self) -> bool {
        self.cur.wf()
    }

    /// Consume one required literal character.
    fn expect(&mut self, c: char) -> (r: Result<(), ParseError>)
        requires
            old(self).wf(),
        ensures
            final(self).wf(),
            final(self).s() == old(self).s(),
            old(self).pos() <= final(self).pos(),
            match r {
                Ok(_) => crate::parser::expect_at(old(self).s(), old(self).pos(), c) == Ok::<
                    int,
                    ParseError,
                >(final(self).pos()) && final(self).pos() == old(self).pos() + 1,
                Err(e) => crate::parser::expect_at(old(self).s(), old(self).pos(), c) == Err::<
                    int,
                    ParseError,
                >(e),
            },
    {
        if self.cur.eof() {
            return Err(ParseError::TruncatedInput);
        }
        let ch = self.cur.consume_char();
        if ch != c {
            return Err(ParseError::UnexpectedChar);
        }
        Ok(())
    }

    /// Consume a stylesheet identifier.
    fn parse_identifier(&mut self) -> (r: String)
        requires
            old(self).wf(),
        ensures
            final(self).wf(),
            final(self).s() == old(self).s(),
            old(self).pos() <= final(self).pos(),
            (r@, final(self).pos()) == ident_at(old(self).s(), old(self).pos()),
    {
        self.cur.consume_while(CharClass::StyleName)
    }

    /// Consume the fragments of one simple selector.
    fn parse_simple_selector(&mut self) -> (r: SimpleSelector)
        requires
            old(self).wf(),
        ensures
            final(self).wf(),
            final(self).s() == old(self).s(),
            old(self).pos() <= final(self).pos(),
            (r@, final(self).pos()) == simple_selector_at(
                old(self).s(),
                old(self).pos(),
                empty_selector(),
            ),
    {
        let ghost s = old(self).s();
        let ghost p0 = old(self).pos();
        let mut selector = SimpleSelector { tag_name: None, id: None, class: Vec::new() };
        proof {
            assert(scan::views_of(Seq::<String>::empty()) =~= Seq::<Seq<char>>::empty());
            assert(selector@ =~= empty_selector());
        }
        loop
            invariant
                self.wf(),
                s == old(self).s(),
                p0 == old(self).pos(),
                self.s() == s,
                p0 <= self.pos(),
                simple_selector_at(s, p0, empty_selector()) == simple_selector_at(
                    s,
                    self.pos(),
                    selector@,
                ),
            ensures
                self.wf(),
                s == old(self).s(),
                p0 == old(self).pos(),
                self.s() == s,
                p0 <= self.pos(),
                (selector@, self.pos()) == simple_selector_at(s, p0, empty_selector()),
            decreases s.len() - self.pos(),
        {
            if self.cur.eof() {
                break;
            }
            let ghost ph = self.pos();
            let ghost acc = selector@;
            let c = self.cur.next_char();
            if c == '#' {
                let _sharp = self.cur.consume_char();
                let id = self.parse_identifier();
                proof {
                    scan::lemma_take_end(s, ph + 1, CharClass::StyleName);
                }
                selector.id = Some(id);
                proof {
                    assert(selector@ =~= (SimpleSelectorV { id: Some(id@), ..acc }));
                }
            } else if c == '.' {
                let _dot = self.cur.consume_char();
                let ghost prev_classes = selector.class@;
                let cls = self.parse_identifier();
                proof {
                    scan::lemma_take_end(s, ph + 1, CharClass::StyleName);
                }
                selector.class.push(cls);
                proof {
                    assert(scan::views_of(selector.class@) =~= scan::views_of(prev_classes).push(
                        cls@,
                    ));
                    assert(selector@ =~= (SimpleSelectorV { class: acc.class.push(cls@), ..acc }));
                }
            } else if c == '*' {
                let _star = self.cur.consume_char();
            } else if valid_identifier_char(c) {
                let t = self.parse_identifier();
                proof {
                    scan::lemma_take_end(s, ph + 1, CharClass::StyleName);
                    assert(scan::take_end(s, ph, CharClass::StyleName) == scan::take_end(
                        s,
                        ph + 1,
                        CharClass::StyleName,
                    ));
                }
                selector.tag_name = Some(t);
                proof {
                    assert(selector@ =~= (SimpleSelectorV { tag_name: Some(t@), ..acc }));
                }
            } else {
                break;
            }
        }
        selector
    }

    /// Consume a comma-separated selector list ending before `{`, and
    /// rank it by descending specificity.
    fn parse_selectors(&mut self) -> (r: Result<Vec<Selector>, ParseError>)
        requires
            old(self).wf(),
        ensures
            final(self).wf(),
            final(self).s() == old(self).s(),
            old(self).pos() <= final(self).pos(),
            match r {
                Ok(v) => selectors_at(old(self).s(), old(self).pos()) is Ok && selectors_view(v@)
                    == sort_selectors_desc(
                    selectors_at(old(self).s(), old(self).pos())->Ok_0.0,
                ) && final(self).pos() == selectors_at(old(self).s(), old(self).pos())->Ok_0.1,
                Err(e) => selectors_at(old(self).s(), old(self).pos()) == Err::<
                    (Seq<SelectorV>, int),
                    ParseError,
                >(e),
            },
    {
        let ghost s = old(self).s();
        let ghost p0 = old(self).pos();
        let mut selectors: Vec<Selector> = Vec::new();
        proof {
            assert(selectors_view(Seq::<Selector>::empty()) =~= Seq::<SelectorV>::empty());
        }
        loop
            invariant_except_break
                selectors_at(s, p0) == (match selectors_at(s, self.pos()) {
                    Ok((rest, q)) => Ok::<(Seq<SelectorV>, int), ParseError>(
                        (selectors_view(selectors@) + rest, q),
                    ),
                    Err(e) => Err::<(Seq<SelectorV>, int), ParseError>(e),
                }),
            invariant
                self.wf(),
                s == old(self).s(),
                p0 == old(self).pos(),
                self.s() == s,
                p0 <= self.pos(),
            ensures
                self.wf(),
                s == old(self).s(),
                p0 == old(self).pos(),
                self.s() == s,
                p0 <= self.pos(),
                selectors_at(s, p0) == Ok::<(Seq<SelectorV>, int), ParseError>(
                    (selectors_view(selectors@), self.pos()),
                ),
            decreases s.len() - self.pos(),
        {
            let ghost ph = self.pos();
            let ss = self.parse_simple_selector();
            let ghost prev = selectors@;
            selectors.push(Selector::Simple(ss));
            proof {
                assert(selectors_view(selectors@) =~= selectors_view(prev) + seq![
                    selectors@.last()@,
                ]);
            }
            self.cur.skip_whitespace();
            if self.cur.eof() {
                return Err(ParseError::TruncatedInput);
            }
            let c = self.cur.next_char();
            if c == ',' {
                let _comma = self.cur.consume_char();
                self.cur.skip_whitespace();
                proof {
                    let r2 = selectors_at(s, self.pos());
                    if r2 is Ok {
                        let rest = r2->Ok_0.0;
                        assert((selectors_view(prev) + seq![selectors@.last()@]) + rest
                            =~= selectors_view(prev) + (seq![selectors@.last()@] + rest));
                    }
                }
            } else if c == '{' {
                proof {
                    assert(selectors_view(prev) + seq![selectors@.last()@] =~= selectors_view(
                        selectors@,
                    ));
                }
                break;
            } else {
                return Err(ParseError::UnexpectedChar);
            }
        }
        let sorted = sort_selectors(selectors);
        Ok(sorted)
    }

    /// Consume a value: a length, a color, or an identifier read as a
    /// color name or keyword.
    fn parse_value(&mut self) -> (r: Result<Value, ParseError>)
        requires
            old(self).wf(),
        ensures
            final(self).wf(),
            final(self).s() == old(self).s(),
            old(self).pos() <= final(self).pos(),
            match r {
                Ok(v) => value_at(old(self).s(), old(self).pos()) == Ok::<(ValueV, int), ParseError>(
                    (v@, final(self).pos()),
                ),
                Err(e) => value_at(old(self).s(), old(self).pos()) == Err::<
                    (ValueV, int),
                    ParseError,
                >(e),
            },
    {
        if self.cur.eof() {
            return Err(ParseError::TruncatedInput);
        }
        let c = self.cur.next_char();
        let u = c as u32;
        if 48 <= u && u <= 57 {
            self.parse_length()
        } else if c == '#' {
            self.parse_color()
        } else {
            let id = self.parse_identifier();
            if scan::str_eq(id.as_str(), "red") {
                Ok(Value::ColorValue(Color { r: 255, g: 0, b: 0, a: 255 }))
            } else {
                Ok(Value::Keyword(id))
            }
        }
    }

    /// Consume a length value: a numeric literal and its unit.
    fn parse_length(&mut self) -> (r: Result<Value, ParseError>)
        requires
            old(self).wf(),
        ensures
            final(self).wf(),
            final(self).s() == old(self).s(),
            old(self).pos() <= final(self).pos(),
            match r {
                Ok(v) => length_at(old(self).s(), old(self).pos()) == Ok::<
                    (ValueV, int),
                    ParseError,
                >((v@, final(self).pos())),
                Err(e) => length_at(old(self).s(), old(self).pos()) == Err::<
                    (ValueV, int),
                    ParseError,
                >(e),
            },
    {
        let num = self.cur.consume_while(CharClass::Numeric);
        if num.as_str().unicode_len() == 0 {
            return Err(ParseError::MalformedNumber);
        }
        let dots = count_dots(&num);
        if dots > 1 {
            return Err(ParseError::MalformedNumber);
        }
        match self.parse_unit() {
            Err(e) => Err(e),
            Ok(u) => Ok(Value::Length(num, u)),
        }
    }

    /// Consume the unit of a length.
    fn parse_unit(&mut self) -> (r: Result<Unit, ParseError>)
        requires
            old(self).wf(),
        ensures
            final(self).wf(),
            final(self).s() == old(self).s(),
            old(self).pos() <= final(self).pos(),
            match r {
                Ok(un) => unit_at(old(self).s(), old(self).pos()) == Ok::<(Unit, int), ParseError>(
                    (un, final(self).pos()),
                ),
                Err(e) => unit_at(old(self).s(), old(self).pos()) == Err::<(Unit, int), ParseError>(
                    e,
                ),
            },
    {
        let u = self.parse_identifier();
        let ul = u.as_str().unicode_len();
        if ul == 2 {
            let c0 = u.as_str().get_char(0);
            let c1 = u.as_str().get_char(1);
            if (c0 == 'p' || c0 == 'P') && (c1 == 'x' || c1 == 'X') {
                return Ok(Unit::Px);
            }
        }
        Err(ParseError::UnknownUnit)
    }

    /// Consume two hexadecimal digits as one byte.
    fn parse_hex_pair(&mut self) -> (r: Result<u8, ParseError>)
        requires
            old(self).wf(),
        ensures
            final(self).wf(),
            final(self).s() == old(self).s(),
            old(self).pos() <= final(self).pos(),
            match r {
                Ok(b) => hex_pair_at(old(self).s(), old(self).pos()) == Ok::<(int, int), ParseError>(
                    (b as int, final(self).pos()),
                ),
                Err(e) => hex_pair_at(old(self).s(), old(self).pos()) == Err::<
                    (int, int),
                    ParseError,
                >(e),
            },
    {
        if self.cur.eof() {
            return Err(ParseError::TruncatedInput);
        }
        let c1 = self.cur.consume_char();
        if self.cur.eof() {
            return Err(ParseError::TruncatedInput);
        }
        let c2 = self.cur.consume_char();
        let v1 = match hex_digit_val(c1) {
            None => {
                return Err(ParseError::UnexpectedChar);
            },
            Some(v) => v,
        };
        let v2 = match hex_digit_val(c2) {
            None => {
                return Err(ParseError::UnexpectedChar);
            },
            Some(v) => v,
        };
        Ok(v1 * 16 + v2)
    }

    /// Consume a `#rrggbb` color value.
    fn parse_color(&mut self) -> (r: Result<Value, ParseError>)
        requires
            old(self).wf(),
        ensures
            final(self).wf(),
            final(self).s() == old(self).s(),
            old(self).pos() <= final(self).pos(),
            match r {
                Ok(v) => color_at(old(self).s(), old(self).pos()) == Ok::<(ValueV, int), ParseError>(
                    (v@, final(self).pos()),
                ),
                Err(e) => color_at(old(self).s(), old(self).pos()) == Err::<
                    (ValueV, int),
                    ParseError,
                >(e),
            },
    {
        match self.expect('#') {
            Err(e) => {
                return Err(e);
            },
            Ok(_) => {},
        }
        let r = match self.parse_hex_pair() {
            Err(e) => {
                return Err(e);
            },
            Ok(v) => v,
        };
        let g = match self.parse_hex_pair() {
            Err(e) => {
                return Err(e);
            },
            Ok(v) => v,
        };
        let b = match self.parse_hex_pair() {
            Err(e) => {
                return Err(e);
            },
            Ok(v) => v,
        };
        Ok(Value::ColorValue(Color { r, g, b, a: 255 }))
    }

    /// Consume one declaration: identifier, `:`, value, `;`.
    fn parse_declaration(&mut self) -> (r: Result<Declaration, ParseError>)
        requires
            old(self).wf(),
        ensures
            final(self).wf(),
            final(self).s() == old(self).s(),
            old(self).pos() <= final(self).pos(),
            match r {
                Ok(d) => declaration_at(old(self).s(), old(self).pos()) == Ok::<
                    (DeclarationV, int),
                    ParseError,
                >((d@, final(self).pos())) && old(self).pos() < final(self).pos(),
                Err(e) => declaration_at(old(self).s(), old(self).pos()) == Err::<
                    (DeclarationV, int),
                    ParseError,
                >(e),
            },
    {
        let name = self.parse_identifier();
        self.cur.skip_whitespace();
        match self.expect(':') {
            Err(e) => {
                return Err(e);
            },
            Ok(_) => {},
        }
        self.cur.skip_whitespace();
        let value = match self.parse_value() {
            Err(e) => {
                return Err(e);
            },
            Ok(v) => v,
        };
        self.cur.skip_whitespace();
        match self.expect(';') {
            Err(e) => {
                return Err(e);
            },
            Ok(_) => {},
        }
        Ok(Declaration { name, value })
    }

    /// Consume a declaration block: `{`, declarations, `}`.
    fn parse_declarations(&mut self) -> (r: Result<Vec<Declaration>, ParseError>)
        requires
            old(self).wf(),
        ensures
            final(self).wf(),
            final(self).s() == old(self).s(),
            old(self).pos() <= final(self).pos(),
            match r {
                Ok(ds) => declarations_at(old(self).s(), old(self).pos()) == Ok::<
                    (Seq<DeclarationV>, int),
                    ParseError,
                >((declarations_view(ds@), final(self).pos())) && old(self).pos()
                    < final(self).pos(),
                Err(e) => declarations_at(old(self).s(), old(self).pos()) == Err::<
                    (Seq<DeclarationV>, int),
                    ParseError,
                >(e),
            },
    {
        let ghost s = old(self).s();
        let ghost p0 = old(self).pos();
        match self.expect('{') {
            Err(e) => {
                return Err(e);
            },
            Ok(_) => {},
        }
        let ghost p1 = self.pos();
        let mut declarations: Vec<Declaration> = Vec::new();
        proof {
            assert(declarations_view(Seq::<Declaration>::empty()) =~= Seq::<DeclarationV>::empty());
        }
        loop
            invariant_except_break
                decls_tail_at(s, p1) == (match decls_tail_at(s, self.pos()) {
                    Ok((rest, q)) => Ok::<(Seq<DeclarationV>, int), ParseError>(
                        (declarations_view(declarations@) + rest, q),
                    ),
                    Err(e) => Err::<(Seq<DeclarationV>, int), ParseError>(e),
                }),
            invariant
                self.wf(),
                s == old(self).s(),
                p0 == old(self).pos(),
                self.s() == s,
                p0 < p1 <= self.pos(),
                declarations_at(s, p0) == decls_tail_at(s, p1),
            ensures
                self.wf(),
                s == old(self).s(),
                p0 == old(self).pos(),
                self.s() == s,
                p0 < p1 <= self.pos(),
                declarations_at(s, p0) == decls_tail_at(s, p1),
                decls_tail_at(s, p1) == Ok::<(Seq<DeclarationV>, int), ParseError>(
                    (declarations_view(declarations@), self.pos()),
                ),
            decreases s.len() - self.pos(),
        {
            let ghost pprev = self.pos();
            self.cur.skip_whitespace();
            proof {
                lemma_decls_skip_space(s, pprev);
                scan::lemma_take_end(s, pprev, CharClass::Space);
            }
            if self.cur.eof() {
                return Err(ParseError::TruncatedInput);
            }
            let c = self.cur.next_char();
            if c == '}' {
                let _close = self.cur.consume_char();
                proof {
                    assert(declarations_view(declarations@) + Seq::<DeclarationV>::empty()
                        =~= declarations_view(declarations@));
                }
                break;
            }
            match self.parse_declaration() {
                Err(e) => {
                    return Err(e);
                },
                Ok(d) => {
                    let ghost prev = declarations@;
                    declarations.push(d);
                    proof {
                        assert(declarations_view(declarations@) =~= declarations_view(prev) + seq![
                            declarations@.last()@,
                        ]);
                        let r2 = decls_tail_at(s, self.pos());
                        if r2 is Ok {
                            let rest = r2->Ok_0.0;
                            assert((declarations_view(prev) + seq![declarations@.last()@]) + rest
                                =~= declarations_view(prev) + (seq![declarations@.last()@] + rest));
                        }
                    }
                },
            }
        }
        Ok(declarations)
    }

    /// Consume one rule: its selector list and declaration block.
    fn parse_rule(&mut self) -> (r: Result<Rule, ParseError>)
        requires
            old(self).wf(),
        ensures
            final(self).wf(),
            final(self).s() == old(self).s(),
            old(self).pos() <= final(self).pos(),
            match r {
                Ok(rl) => rule_at(old(self).s(), old(self).pos()) == Ok::<(RuleV, int), ParseError>(
                    (rl@, final(self).pos()),
                ) && old(self).pos() < final(self).pos(),
                Err(e) => rule_at(old(self).s(), old(self).pos()) == Err::<(RuleV, int), ParseError>(
                    e,
                ),
            },
    {
        let selectors = match self.parse_selectors() {
            Err(e) => {
                return Err(e);
            },
            Ok(v) => v,
        };
        let declarations = match self.parse_declarations() {
            Err(e) => {
                return Err(e);
            },
            Ok(v) => v,
        };
        Ok(Rule { selectors, declarations })
    }

    /// Consume the whole rule list, up to end of input.
    fn parse_rules(&mut self) -> (r: Result<Vec<Rule>, ParseError>)
        requires
            old(self).wf(),
        ensures
            final(self).wf(),
            final(self).s() == old(self).s(),
            old(self).pos() <= final(self).pos(),
            match r {
                Ok(rs) => rules_at(old(self).s(), old(self).pos()) == Ok::<
                    (Seq<RuleV>, int),
                    ParseError,
                >((rules_view(rs@), final(self).pos())),
                Err(e) => rules_at(old(self).s(), old(self).pos()) == Err::<
                    (Seq<RuleV>, int),
                    ParseError,
                >(e),
            },
    {
        let ghost s = old(self).s();
        let ghost p0 = old(self).pos();
        let mut rules: Vec<Rule> = Vec::new();
        proof {
            assert(rules_view(Seq::<Rule>::empty()) =~= Seq::<RuleV>::empty());
        }
        loop
            invariant_except_break
                rules_at(s, p0) == (match rules_at(s, self.pos()) {
                    Ok((rest, q)) => Ok::<(Seq<RuleV>, int), ParseError>(
                        (rules_view(rules@) + rest, q),
                    ),
                    Err(e) => Err::<(Seq<RuleV>, int), ParseError>(e),
                }),
            invariant
                self.wf(),
                s == old(self).s(),
                p0 == old(self).pos(),
                self.s() == s,
                p0 <= self.pos(),
            ensures
                self.wf(),
                s == old(self).s(),
                p0 == old(self).pos(),
                self.s() == s,
                p0 <= self.pos(),
                rules_at(s, p0) == Ok::<(Seq<RuleV>, int), ParseError>(
                    (rules_view(rules@), self.pos()),
                ),
            decreases s.len() - self.pos(),
        {
            let ghost pprev = self.pos();
            self.cur.skip_whitespace();
            proof {
                lemma_rules_skip_space(s, pprev);
                scan::lemma_take_end(s, pprev, CharClass::Space);
            }
            if self.cur.eof() {
                proof {
                    assert(rules_view(rules@) + Seq::<RuleV>::empty() =~= rules_view(rules@));
                }
                break;
            }
            match self.parse_rule() {
                Err(e) => {
                    return Err(e);
                },
                Ok(rl) => {
                    let ghost prev = rules@;
                    rules.push(rl);
                    proof {
                        assert(rules_view(rules@) =~= rules_view(prev) + seq![rules@.last()@]);
                        let r2 = rules_at(s, self.pos());
                        if r2 is Ok {
                            let rest = r2->Ok_0.0;
                            assert((rules_view(prev) + seq![rules@.last()@]) + rest =~= rules_view(
                                prev,
                            ) + (seq![rules@.last()@] + rest));
                        }
                    }
                },
            }
        }
        Ok(rules)
    }
}

/// Parse a stylesheet and return its ordered rule sequence, or the
/// failure the first structural violation produces.
pub fn parse(source: String) -> (r: Result<Stylesheet, ParseError>)
    ensures
        match r {
            Ok(sheet) => stylesheet_spec(source@) == Ok::<StylesheetV, ParseError>(sheet@),
            Err(e) => stylesheet_spec(source@) == Err::<StylesheetV, ParseError>(e),
        },
{
    let mut parser = Parser { cur: scan::Cursor::new(source) };
    match parser.parse_rules() {
        Err(e) => Err(e),
        Ok(rules) => Ok(Stylesheet { rules }),
    }
}

} // verus!
