//! The cascade resolver: selector matching, specificity ranking, and
//! the precedence-ordered merge of declarations into one resolved
//! property mapping per node.

use crate::css::{
    lift_specificity, spec_lt, spec_specificity, DeclarationV, Rule, RuleV, Selector, SelectorV,
    SimpleSelector, SimpleSelectorV, Specificity, Stylesheet, StylesheetV, Value, ValueV,
};
use crate::dom::{elem_classes, ElementData, ElementDataV, Node, NodeTypeV, NodeV, NodeType};
use crate::scan;
use vstd::prelude::*;
use vstd::string::*;

verus! {

/// Map from property names to values; a later insertion of a name
/// overwrites the earlier one in the view.
#[derive(Debug, PartialEq)]
pub struct PropertyMap {
    entries: Vec<(String, Value)>,
}

/// The mapping that a sequence of name/value entries denotes: the last
/// entry for a name wins.
pub open spec fn props_map(s: Seq<(String, Value)>) -> Map<Seq<char>, ValueV>
    decreases s.len(),
{
    if s.len() == 0 {
        Map::empty()
    } else {
        props_map(s.drop_last()).insert(s.last().0@, s.last().1@)
    }
}

proof fn lemma_props_map_contains(s: Seq<(String, Value)>, k: Seq<char>)
    ensures
        props_map(s).contains_key(k) <==> exists|i: int| 0 <= i < s.len() && s[i].0@ == k,
    decreases s.len(),
{
    if s.len() > 0 {
        lemma_props_map_contains(s.drop_last(), k);
        if props_map(s).contains_key(k) && s.last().0@ != k {
            let i = choose|i: int| 0 <= i < s.drop_last().len() && s.drop_last()[i].0@ == k;
            assert(s[i].0@ == k);
        }
        if exists|i: int| 0 <= i < s.len() && s[i].0@ == k {
            let i = choose|i: int| 0 <= i < s.len() && s[i].0@ == k;
            if i < s.len() - 1 {
                assert(s.drop_last()[i].0@ == k);
            }
        }
    }
}

proof fn lemma_props_map_get(s: Seq<(String, Value)>, i: int)
    requires
        0 <= i < s.len(),
        forall|j: int| i < j < s.len() ==> s[j].0@ != s[i].0@,
    ensures
        props_map(s).contains_key(s[i].0@),
        props_map(s)[s[i].0@] == s[i].1@,
    decreases s.len(),
{
    if i == s.len() - 1 {
    } else {
        let d = s.drop_last();
        assert(forall|j: int| i < j < d.len() ==> d[j].0@ != d[i].0@);
        lemma_props_map_get(d, i);
    }
}

impl View for PropertyMap {
    type V = Map<Seq<char>, ValueV>;

    closed spec fn view(&self) -> Map<Seq<char>, ValueV> {
        props_map(self.entries@)
    }
}

impl PropertyMap {
    pub fn new() -> (r: PropertyMap)
        ensures
            r@ == Map::<Seq<char>, ValueV>::empty(),
    {
        PropertyMap { entries: Vec::new() }
    }

    /// Bind `name` to `value`, overwriting any earlier binding of `name`.
    pub fn insert(&mut self, name: String, value: Value)
        ensures
            final(self)@ == old(self)@.insert(name@, value@),
    {
        let ghost prev = self.entries@;
        self.entries.push((name, value));
        proof {
            assert(self.entries@.drop_last() =~= prev);
        }
    }

    /// The value bound to `name`, if any.
    pub fn get(&self, name: &str) -> (r: Option<&Value>)
        ensures
            match r {
                Some(v) => self@.contains_key(name@) && v@ == self@[name@],
                None => !self@.contains_key(name@),
            },
    {
        let n = self.entries.len();
        let mut i: usize = n;
        while i > 0
            invariant
                n == self.entries@.len(),
                i <= n,
                forall|j: int| i <= j < n ==> self.entries@[j].0@ != name@,
            decreases i,
        {
            i = i - 1;
            if scan::str_eq(self.entries[i].0.as_str(), name) {
                proof {
                    lemma_props_map_get(self.entries@, i as int);
                }
                return Some(&self.entries[i].1);
            }
        }
        proof {
            lemma_props_map_contains(self.entries@, name@);
        }
        None
    }
}

/// How an element is displayed, as the "display" property resolves.
#[derive(Debug, PartialEq, Eq, Structural, Clone, Copy)]
pub enum Display {
    Inline,
    Block,
    NoDisplay,
}

/// Whether a simple selector matches an element: the tag name and id
/// are unconstrained or equal, and every required class is among the
/// element's classes.
pub open spec fn simple_matches(e: ElementDataV, ss: SimpleSelectorV) -> bool {
    (match ss.tag_name {
        Some(t) => e.tag_name == t,
        None => true,
    }) && (match ss.id {
        Some(i) => e.attributes.contains_key("id"@) && e.attributes["id"@] == i,
        None => true,
    }) && (forall|k: int| 0 <= k < ss.class.len() ==> elem_classes(e).contains(ss.class[k]))
}

/// Whether a selector matches an element.
pub open spec fn sel_matches(e: ElementDataV, sel: SelectorV) -> bool {
    match sel {
        SelectorV::Simple(ss) => simple_matches(e, ss),
    }
}

fn matches_simple_selector(elem: &ElementData, selector: &SimpleSelector) -> (r: bool)
    ensures
        r == simple_matches(elem@, selector@),
{
    match &selector.tag_name {
        Some(t) => {
            if !scan::str_eq(t.as_str(), elem.tag_name.as_str()) {
                return false;
            }
        },
        None => {},
    }
    match &selector.id {
        Some(id) => match elem.id() {
            Some(eid) => {
                if !scan::str_eq(id.as_str(), eid.as_str()) {
                    return false;
                }
            },
            None => {
                return false;
            },
        },
        None => {},
    }
    let elem_classes_list = elem.classes();
    let mut k: usize = 0;
    while k < selector.class.len()
        invariant
            k <= selector.class@.len(),
            scan::views_of(elem_classes_list@) == elem_classes(elem@),
            forall|j: int| 0 <= j < k ==> elem_classes(elem@).contains(selector@.class[j]),
        decreases selector.class@.len() - k,
    {
        let wanted = &selector.class[k];
        let mut l: usize = 0;
        let mut found = false;
        while l < elem_classes_list.len()
            invariant
                l <= elem_classes_list@.len(),
                scan::views_of(elem_classes_list@) == elem_classes(elem@),
                k < selector.class@.len(),
                wanted@ == selector@.class[k as int],
                !found ==> forall|j: int|
                    0 <= j < l ==> elem_classes(elem@)[j] != selector@.class[k as int],
                found ==> elem_classes(elem@).contains(selector@.class[k as int]),
            decreases elem_classes_list@.len() - l,
        {
            if scan::str_eq(elem_classes_list[l].as_str(), wanted.as_str()) {
                proof {
                    assert(elem_classes(elem@)[l as int] == selector@.class[k as int]);
                }
                found = true;
            }
            l = l + 1;
        }
        if !found {
            proof {
                assert(forall|j: int|
                    0 <= j < elem_classes(elem@).len() ==> elem_classes(elem@)[j]
                        != selector@.class[k as int]);
            }
            return false;
        }
        k = k + 1;
    }
    true
}

fn matches(elem: &ElementData, selector: &Selector) -> (r: bool)
    ensures
        r == sel_matches(elem@, selector@),
{
    let Selector::Simple(simple_selector) = selector;
    matches_simple_selector(elem, simple_selector)
}

/// The specificity of a rule's first matching selector, if any, in the
/// rule's stored (descending-specificity) order.
pub open spec fn first_match(e: ElementDataV, sels: Seq<SelectorV>) -> Option<(int, int, int)>
    decreases sels.len(),
{
    if sels.len() == 0 {
        None
    } else if sel_matches(e, sels[0]) {
        Some(spec_specificity(sels[0]))
    } else {
        first_match(e, sels.drop_first())
    }
}

fn match_rule(elem: &ElementData, rule: &Rule) -> (r: Option<Specificity>)
    ensures
        match r {
            Some(sp) => first_match(elem@, rule@.selectors) == Some(lift_specificity(sp)),
            None => first_match(elem@, rule@.selectors) is None,
        },
{
    let ghost sels = rule@.selectors;
    proof {
        assert(sels.skip(0) =~= sels);
    }
    let mut j: usize = 0;
    loop
        invariant
            j <= rule.selectors@.len(),
            sels == rule@.selectors,
            first_match(elem@, sels) == first_match(elem@, sels.skip(j as int)),
        ensures
            match first_match(elem@, sels.skip(j as int)) {
                Some(sp) => j < rule.selectors@.len(),
                None => true,
            },
            first_match(elem@, sels) == first_match(elem@, sels.skip(j as int)),
            j < rule.selectors@.len() ==> sel_matches(elem@, sels[j as int]) && first_match(
                elem@,
                sels.skip(j as int),
            ) == Some(spec_specificity(sels[j as int])),
            j >= rule.selectors@.len() ==> first_match(elem@, sels.skip(j as int)) is None,
        decreases rule.selectors@.len() - j,
    {
        if j >= rule.selectors.len() {
            proof {
                assert(sels.skip(j as int) =~= Seq::<SelectorV>::empty());
            }
            break;
        }
        proof {
            assert(sels.skip(j as int)[0] == sels[j as int]);
        }
        if matches(elem, &rule.selectors[j]) {
            break;
        }
        proof {
            assert(sels.skip(j as int).drop_first() =~= sels.skip(j as int + 1));
        }
        j = j + 1;
    }
    if j < rule.selectors.len() {
        Some(rule.selectors[j].specificity())
    } else {
        None
    }
}


/// On a selector list ranked by descending specificity, the first
/// matching selector is a best match: some selector of the list
/// matches with exactly the returned specificity, and no matching
/// selector of the list ranks above it.
pub proof fn lemma_first_match_is_best(e: ElementDataV, sels: Seq<SelectorV>)
    requires
        crate::css::sorted_desc(sels),
    ensures
        (first_match(e, sels) is Some) <==> exists|i: int|
            0 <= i < sels.len() && sel_matches(e, sels[i]),
        first_match(e, sels) is Some ==> exists|i: int|
            0 <= i < sels.len() && sel_matches(e, sels[i]) && spec_specificity(sels[i])
                == first_match(e, sels)->Some_0,
        forall|i: int|
            0 <= i < sels.len() && sel_matches(e, sels[i]) && first_match(e, sels) is Some
                ==> !spec_lt(first_match(e, sels)->Some_0, spec_specificity(sels[i])),
    decreases sels.len(),
{
    if sels.len() == 0 {
    } else if sel_matches(e, sels[0]) {
        assert(first_match(e, sels) == Some(spec_specificity(sels[0])));
    } else {
        let rest = sels.drop_first();
        assert(crate::css::sorted_desc(rest)) by {
            assert forall|i: int, j: int| 0 <= i < j < rest.len() implies !crate::css::spec_lt(
                spec_specificity(rest[i]),
                spec_specificity(rest[j]),
            ) by {
                assert(rest[i] == sels[i + 1]);
                assert(rest[j] == sels[j + 1]);
            }
        }
        lemma_first_match_is_best(e, rest);
        assert(first_match(e, sels) == first_match(e, rest));
        if exists|i: int| 0 <= i < sels.len() && sel_matches(e, sels[i]) {
            let i = choose|i: int| 0 <= i < sels.len() && sel_matches(e, sels[i]);
            assert(i > 0);
            assert(rest[i - 1] == sels[i]);
            assert(exists|k: int| 0 <= k < rest.len() && sel_matches(e, rest[k]));
        }
        if first_match(e, rest) is Some {
            let k = choose|k: int|
                0 <= k < rest.len() && sel_matches(e, rest[k]) && spec_specificity(rest[k])
                    == first_match(e, rest)->Some_0;
            assert(sels[k + 1] == rest[k]);
            assert forall|i: int|
                0 <= i < sels.len() && sel_matches(e, sels[i]) implies !spec_lt(
                first_match(e, sels)->Some_0,
                spec_specificity(sels[i]),
            ) by {
                assert(i > 0);
                assert(rest[i - 1] == sels[i]);
            }
        }
    }
}

/// The Match step of the cascade records, for a rule whose selectors
/// were ranked at parse time, the maximum specificity over all of the
/// rule's matching selectors: ranking loses and invents no selector,
/// so the first match over the ranked list is a best match over the
/// list as parsed.
pub proof fn lemma_ranked_first_match_is_best(e: ElementDataV, raw: Seq<SelectorV>)
    ensures
        ({
            let ranked = crate::css::sort_selectors_desc(raw);
            let fm = first_match(e, ranked);
            &&& ((fm is Some) <==> exists|i: int| 0 <= i < raw.len() && sel_matches(e, raw[i]))
            &&& (fm is Some ==> exists|i: int|
                0 <= i < raw.len() && sel_matches(e, raw[i]) && spec_specificity(raw[i])
                    == fm->Some_0)
            &&& (forall|i: int|
                0 <= i < raw.len() && sel_matches(e, raw[i]) && fm is Some ==> !spec_lt(
                    fm->Some_0,
                    spec_specificity(raw[i]),
                ))
        }),
{
    let ranked = crate::css::sort_selectors_desc(raw);
    let fm = first_match(e, ranked);
    crate::css::lemma_sort_desc_props(raw);
    lemma_first_match_is_best(e, ranked);
    if exists|i: int| 0 <= i < raw.len() && sel_matches(e, raw[i]) {
        let i = choose|i: int| 0 <= i < raw.len() && sel_matches(e, raw[i]);
        assert(raw.contains(raw[i]));
        assert(ranked.contains(raw[i]));
        let k = choose|k: int| 0 <= k < ranked.len() && ranked[k] == raw[i];
        assert(exists|k: int| 0 <= k < ranked.len() && sel_matches(e, ranked[k]));
    }
    if fm is Some {
        let k = choose|k: int|
            0 <= k < ranked.len() && sel_matches(e, ranked[k]) && spec_specificity(ranked[k])
                == fm->Some_0;
        assert(ranked.contains(ranked[k]));
        assert(raw.contains(ranked[k]));
        let i = choose|i: int| 0 <= i < raw.len() && raw[i] == ranked[k];
        assert(exists|i: int|
            0 <= i < raw.len() && sel_matches(e, raw[i]) && spec_specificity(raw[i])
                == fm->Some_0);
        assert forall|i: int| 0 <= i < raw.len() && sel_matches(e, raw[i]) implies !spec_lt(
            fm->Some_0,
            spec_specificity(raw[i]),
        ) by {
            assert(raw.contains(raw[i]));
            assert(ranked.contains(raw[i]));
            let m = choose|m: int| 0 <= m < ranked.len() && ranked[m] == raw[i];
        }
    }
}

/// The matched-rule pairs of a stylesheet against an element, from rule
/// `i` on: each matching rule's best specificity with the rule's index.
pub open spec fn matching_from(e: ElementDataV, rules: Seq<RuleV>, i: int) -> Seq<
    ((int, int, int), int),
>
    decreases rules.len() - i,
{
    if !(0 <= i < rules.len()) {
        Seq::empty()
    } else {
        match first_match(e, rules[i].selectors) {
            Some(sp) => seq![(sp, i)] + matching_from(e, rules, i + 1),
            None => matching_from(e, rules, i + 1),
        }
    }
}

/// The model of an executable matched-rule pair.
pub open spec fn pairs_view(s: Seq<(Specificity, usize)>) -> Seq<((int, int, int), int)> {
    s.map_values(|p: (Specificity, usize)| (lift_specificity(p.0), p.1 as int))
}

fn matching_rules(elem: &ElementData, stylesheet: &Stylesheet) -> (r: Vec<(Specificity, usize)>)
    ensures
        pairs_view(r@) == matching_from(elem@, stylesheet@.rules, 0),
{
    let ghost rv = stylesheet@.rules;
    let mut out: Vec<(Specificity, usize)> = Vec::new();
    let mut i: usize = 0;
    proof {
        assert(pairs_view(Seq::<(Specificity, usize)>::empty()) =~= Seq::<
            ((int, int, int), int),
        >::empty());
    }
    loop
        invariant
            i <= stylesheet.rules@.len(),
            rv == stylesheet@.rules,
            matching_from(elem@, rv, 0) == pairs_view(out@) + matching_from(elem@, rv, i as int),
        ensures
            matching_from(elem@, rv, 0) == pairs_view(out@),
        decreases stylesheet.rules@.len() - i,
    {
        if i >= stylesheet.rules.len() {
            proof {
                assert(matching_from(elem@, rv, i as int) =~= Seq::<((int, int, int), int)>::empty());
                assert(pairs_view(out@) + Seq::<((int, int, int), int)>::empty() =~= pairs_view(
                    out@,
                ));
            }
            break;
        }
        proof {
            assert(rv[i as int] == stylesheet.rules@[i as int]@);
        }
        match match_rule(elem, &stylesheet.rules[i]) {
            Some(sp) => {
                let ghost prev = out@;
                out.push((sp, i));
                proof {
                    assert(pairs_view(out@) =~= pairs_view(prev) + seq![
                        (lift_specificity(sp), i as int),
                    ]);
                    assert((pairs_view(prev) + seq![(lift_specificity(sp), i as int)])
                        + matching_from(elem@, rv, i as int + 1) =~= pairs_view(prev) + (seq![
                        (lift_specificity(sp), i as int),
                    ] + matching_from(elem@, rv, i as int + 1)));
                }
            },
            None => {},
        }
        i = i + 1;
    }
    out
}

/// Ascending order on (specificity, source index) pairs: the order the
/// cascade merges in.
pub open spec fn pair_le(a: ((int, int, int), int), b: ((int, int, int), int)) -> bool {
    spec_lt(a.0, b.0) || (a.0 == b.0 && a.1 <= b.1)
}

/// Insert `x` into an ascending sequence, after every element that
/// ranks at or below it (a stable insertion).
pub open spec fn insert_pair_asc(sorted: Seq<((int, int, int), int)>, x: ((int, int, int), int)) -> Seq<
    ((int, int, int), int),
>
    decreases sorted.len(),
{
    if sorted.len() == 0 {
        seq![x]
    } else if pair_le(sorted[0], x) {
        seq![sorted[0]] + insert_pair_asc(sorted.drop_first(), x)
    } else {
        seq![x] + sorted
    }
}

/// Stable sort of matched-rule pairs, ascending by (specificity, index).
pub open spec fn sort_pairs_asc(s: Seq<((int, int, int), int)>) -> Seq<((int, int, int), int)>
    decreases s.len(),
{
    if s.len() == 0 {
        Seq::empty()
    } else {
        insert_pair_asc(sort_pairs_asc(s.drop_last()), s.last())
    }
}

fn pair_le_exec(a: (Specificity, usize), b: (Specificity, usize)) -> (r: bool)
    ensures
        r == pair_le((lift_specificity(a.0), a.1 as int), (lift_specificity(b.0), b.1 as int)),
{
    let (x, y) = (a.0, b.0);
    if x.0 < y.0 || (x.0 == y.0 && (x.1 < y.1 || (x.1 == y.1 && x.2 < y.2))) {
        true
    } else if x.0 == y.0 && x.1 == y.1 && x.2 == y.2 {
        a.1 <= b.1
    } else {
        false
    }
}

fn insert_pair(out: &mut Vec<(Specificity, usize)>, x: (Specificity, usize))
    ensures
        pairs_view(final(out)@) == insert_pair_asc(
            pairs_view(old(out)@),
            (lift_specificity(x.0), x.1 as int),
        ),
{
    let ghost sv0 = pairs_view(old(out)@);
    let ghost xv = (lift_specificity(x.0), x.1 as int);
    proof {
        assert(sv0.skip(0) =~= sv0);
        assert(sv0.take(0) =~= Seq::<((int, int, int), int)>::empty());
        assert(sv0.take(0) + insert_pair_asc(sv0.skip(0), xv) =~= insert_pair_asc(sv0, xv));
    }
    let mut j: usize = 0;
    loop
        invariant
            out@ == old(out)@,
            sv0 == pairs_view(out@),
            j <= out@.len(),
            xv == (lift_specificity(x.0), x.1 as int),
            insert_pair_asc(sv0, xv) == sv0.take(j as int) + insert_pair_asc(
                sv0.skip(j as int),
                xv,
            ),
        ensures
            out@ == old(out)@,
            j <= out@.len(),
            insert_pair_asc(sv0, xv) == sv0.take(j as int) + seq![xv] + sv0.skip(j as int),
        decreases out@.len() - j,
    {
        if j >= out.len() {
            proof {
                assert(sv0.skip(j as int) =~= Seq::<((int, int, int), int)>::empty());
                assert(insert_pair_asc(sv0.skip(j as int), xv) == seq![xv]);
                assert(sv0.take(j as int) + seq![xv] + sv0.skip(j as int) =~= sv0.take(j as int)
                    + seq![xv]);
            }
            break;
        }
        let e = out[j];
        proof {
            assert(sv0.skip(j as int)[0] == sv0[j as int]);
        }
        if !pair_le_exec(e, x) {
            proof {
                assert(insert_pair_asc(sv0.skip(j as int), xv) == seq![xv] + sv0.skip(j as int));
                assert(sv0.take(j as int) + (seq![xv] + sv0.skip(j as int)) =~= sv0.take(j as int)
                    + seq![xv] + sv0.skip(j as int));
            }
            break;
        }
        proof {
            assert(sv0.skip(j as int).drop_first() =~= sv0.skip(j as int + 1));
            assert(sv0.take(j as int) + (seq![sv0[j as int]] + insert_pair_asc(
                sv0.skip(j as int + 1),
                xv,
            )) =~= sv0.take(j as int + 1) + insert_pair_asc(sv0.skip(j as int + 1), xv));
        }
        j = j + 1;
    }
    out.insert(j, x);
    proof {
        assert(pairs_view(out@) =~= sv0.take(j as int) + seq![xv] + sv0.skip(j as int));
    }
}

fn sort_pairs(input: &Vec<(Specificity, usize)>) -> (r: Vec<(Specificity, usize)>)
    ensures
        pairs_view(r@) == sort_pairs_asc(pairs_view(input@)),
{
    let ghost orig = pairs_view(input@);
    let mut out: Vec<(Specificity, usize)> = Vec::new();
    let mut i: usize = 0;
    proof {
        assert(orig.take(0) =~= Seq::<((int, int, int), int)>::empty());
        assert(sort_pairs_asc(orig.take(0)) =~= Seq::<((int, int, int), int)>::empty());
        assert(pairs_view(out@) =~= Seq::<((int, int, int), int)>::empty());
    }
    loop
        invariant
            i <= input@.len(),
            orig == pairs_view(input@),
            pairs_view(out@) == sort_pairs_asc(orig.take(i as int)),
        ensures
            pairs_view(out@) == sort_pairs_asc(orig),
        decreases input@.len() - i,
    {
        if i >= input.len() {
            proof {
                assert(orig.take(i as int) =~= orig);
            }
            break;
        }
        let x = input[i];
        proof {
            assert(orig[i as int] == (lift_specificity(x.0), x.1 as int));
        }
        insert_pair(&mut out, x);
        proof {
            assert(orig.take(i as int + 1).drop_last() =~= orig.take(i as int));
            assert(orig.take(i as int + 1).last() == orig[i as int]);
            assert(orig.take(i as int + 1).len() > 0);
        }
        i = i + 1;
    }
    out
}

/// Fold a rule's declarations into the mapping, in order: each
/// declaration overwrites any earlier binding of its name.
pub open spec fn merge_decls(decls: Seq<DeclarationV>, m: Map<Seq<char>, ValueV>) -> Map<
    Seq<char>,
    ValueV,
>
    decreases decls.len(),
{
    if decls.len() == 0 {
        m
    } else {
        merge_decls(decls.drop_first(), m.insert(decls[0].name, decls[0].value))
    }
}

/// Fold the declarations of the ranked rules into the mapping, in
/// ascending rank order.
pub open spec fn merge_pairs(
    pairs: Seq<((int, int, int), int)>,
    rules: Seq<RuleV>,
    m: Map<Seq<char>, ValueV>,
) -> Map<Seq<char>, ValueV>
    decreases pairs.len(),
{
    if pairs.len() == 0 {
        m
    } else {
        let i = pairs[0].1;
        let m2 = if 0 <= i < rules.len() {
            merge_decls(rules[i].declarations, m)
        } else {
            m
        };
        merge_pairs(pairs.drop_first(), rules, m2)
    }
}

/// The resolved property mapping of an element under a stylesheet: the
/// declarations of every matching rule, merged in ascending order of
/// (specificity, source position), later insertions winning.
pub open spec fn specified_values_spec(e: ElementDataV, sheet: StylesheetV) -> Map<
    Seq<char>,
    ValueV,
> {
    merge_pairs(sort_pairs_asc(matching_from(e, sheet.rules, 0)), sheet.rules, Map::empty())
}

fn specified_values(elem: &ElementData, stylesheet: &Stylesheet) -> (r: PropertyMap)
    ensures
        r@ == specified_values_spec(elem@, stylesheet@),
{
    let ghost rv = stylesheet@.rules;
    let pairs = matching_rules(elem, stylesheet);
    let sorted = sort_pairs(&pairs);
    let ghost pv = pairs_view(sorted@);
    let mut values = PropertyMap::new();
    let mut k: usize = 0;
    proof {
        assert(pv.skip(0) =~= pv);
    }
    loop
        invariant
            k <= sorted@.len(),
            pv == pairs_view(sorted@),
            rv == stylesheet@.rules,
            merge_pairs(pv, rv, Map::empty()) == merge_pairs(pv.skip(k as int), rv, values@),
        ensures
            merge_pairs(pv, rv, Map::empty()) == values@,
        decreases sorted@.len() - k,
    {
        if k >= sorted.len() {
            proof {
                assert(pv.skip(k as int) =~= Seq::<((int, int, int), int)>::empty());
            }
            break;
        }
        proof {
            assert(pv.skip(k as int)[0] == pv[k as int]);
            assert(pv.skip(k as int).drop_first() =~= pv.skip(k as int + 1));
        }
        let idx = sorted[k].1;
        if idx < stylesheet.rules.len() {
            let rule = &stylesheet.rules[idx];
            let ghost dv = rule@.declarations;
            let ghost m_enter = values@;
            let mut d: usize = 0;
            proof {
                assert(dv.skip(0) =~= dv);
            }
            loop
                invariant
                    d <= rule.declarations@.len(),
                    dv == rule@.declarations,
                    merge_decls(dv, m_enter) == merge_decls(dv.skip(d as int), values@),
                ensures
                    merge_decls(dv, m_enter) == values@,
                decreases rule.declarations@.len() - d,
            {
                if d >= rule.declarations.len() {
                    proof {
                        assert(dv.skip(d as int) =~= Seq::<DeclarationV>::empty());
                    }
                    break;
                }
                proof {
                    assert(dv.skip(d as int)[0] == dv[d as int]);
                    assert(dv.skip(d as int).drop_first() =~= dv.skip(d as int + 1));
                    assert(dv[d as int] == rule.declarations@[d as int]@);
                }
                let declaration = &rule.declarations[d];
                values.insert(declaration.name.clone(), declaration.value.duplicate());
                d = d + 1;
            }
        }
        k = k + 1;
    }
    values
}

/// The model of a styled node: the node it wraps, its resolved
/// property mapping, and its styled children mirroring the node's
/// children 1:1.
#[verifier::ext_equal]
pub ghost struct StyledNodeV {
    pub node: NodeV,
    pub specified_values: Map<Seq<char>, ValueV>,
    pub children: Seq<StyledNodeV>,
}

/// The styled tree a markup tree and a stylesheet determine: elements
/// carry their resolved mapping, text and comments an empty one.
pub open spec fn style_tree_spec(n: NodeV, sheet: StylesheetV) -> StyledNodeV
    decreases n,
{
    StyledNodeV {
        node: n,
        specified_values: match n.node_type {
            NodeTypeV::Element(e) => specified_values_spec(e, sheet),
            _ => Map::empty(),
        },
        children: styled_children_spec(n.children, sheet),
    }
}

pub open spec fn styled_children_spec(cs: Seq<NodeV>, sheet: StylesheetV) -> Seq<StyledNodeV>
    decreases cs,
{
    if cs.len() == 0 {
        Seq::empty()
    } else {
        seq![style_tree_spec(cs[0], sheet)] + styled_children_spec(cs.drop_first(), sheet)
    }
}

proof fn lemma_styled_children_spec_props(cs: Seq<NodeV>, sheet: StylesheetV)
    ensures
        styled_children_spec(cs, sheet).len() == cs.len(),
        forall|i: int|
            0 <= i < cs.len() ==> styled_children_spec(cs, sheet)[i] == style_tree_spec(
                cs[i],
                sheet,
            ),
    decreases cs.len(),
{
    if cs.len() > 0 {
        lemma_styled_children_spec_props(cs.drop_first(), sheet);
    }
}

proof fn lemma_styled_children_push(cs: Seq<NodeV>, c: NodeV, sheet: StylesheetV)
    ensures
        styled_children_spec(cs.push(c), sheet) == styled_children_spec(cs, sheet) + seq![
            style_tree_spec(c, sheet),
        ],
{
    lemma_styled_children_spec_props(cs.push(c), sheet);
    lemma_styled_children_spec_props(cs, sheet);
    assert(styled_children_spec(cs.push(c), sheet) =~= styled_children_spec(cs, sheet) + seq![
        style_tree_spec(c, sheet),
    ]);
}

/// A node paired with its resolved style data; it borrows the markup
/// node it describes.
pub struct StyledNode<'a> {
    pub node: &'a Node,
    specified_values: PropertyMap,
    pub children: Vec<StyledNode<'a>>,
}

pub open spec fn styled_children_view(s: Seq<StyledNode>) -> Seq<StyledNodeV>
    decreases s,
{
    if s.len() == 0 {
        Seq::empty()
    } else {
        seq![s[0]@] + styled_children_view(s.drop_first())
    }
}

impl<'a> View for StyledNode<'a> {
    type V = StyledNodeV;

    closed spec fn view(&self) -> StyledNodeV
        decreases self,
    {
        StyledNodeV {
            node: (*self.node)@,
            specified_values: self.specified_values@,
            children: styled_children_view(self.children@),
        }
    }
}

proof fn lemma_styled_children_view_props(s: Seq<StyledNode>)
    ensures
        styled_children_view(s).len() == s.len(),
        forall|i: int| 0 <= i < s.len() ==> styled_children_view(s)[i] == s[i]@,
    decreases s.len(),
{
    if s.len() > 0 {
        lemma_styled_children_view_props(s.drop_first());
        assert(styled_children_view(s) == seq![s[0]@] + styled_children_view(s.drop_first()));
        assert forall|i: int| 0 <= i < s.len() implies styled_children_view(s)[i] == s[i]@ by {
            if i > 0 {
                assert(s.drop_first()[i - 1] == s[i]);
            }
        }
    }
}

proof fn lemma_styled_view_push(s: Seq<StyledNode>, x: StyledNode)
    ensures
        styled_children_view(s.push(x)) == styled_children_view(s) + seq![x@],
{
    lemma_styled_children_view_props(s.push(x));
    lemma_styled_children_view_props(s);
    assert(styled_children_view(s.push(x)) =~= styled_children_view(s) + seq![x@]);
}

/// The mapped value of a name, then of a fallback name, then a default.
pub open spec fn lookup_spec(
    m: Map<Seq<char>, ValueV>,
    name: Seq<char>,
    fallback: Seq<char>,
    default: ValueV,
) -> ValueV {
    if m.contains_key(name) {
        m[name]
    } else if m.contains_key(fallback) {
        m[fallback]
    } else {
        default
    }
}

/// How a property mapping resolves the "display" property: the keyword
/// "block" or "none" selects that mode, and anything else — another
/// keyword, a non-keyword value, or no binding at all — is Inline.
pub open spec fn display_spec(m: Map<Seq<char>, ValueV>) -> Display {
    if m.contains_key("display"@) {
        match m["display"@] {
            ValueV::Keyword(s) => {
                if s == "block"@ {
                    Display::Block
                } else if s == "none"@ {
                    Display::NoDisplay
                } else {
                    Display::Inline
                }
            },
            _ => Display::Inline,
        }
    } else {
        Display::Inline
    }
}

impl<'a> StyledNode<'a> {
    /// The resolved value of a property, if one is bound.
    pub fn value(&self, name: &str) -> (r: Option<Value>)
        ensures
            match r {
                Some(v) => self@.specified_values.contains_key(name@) && v@
                    == self@.specified_values[name@],
                None => !self@.specified_values.contains_key(name@),
            },
    {
        match self.specified_values.get(name) {
            Some(v) => Some(v.duplicate()),
            None => None,
        }
    }

    /// The value of `name`, else of `fallback_name`, else the default.
    pub fn lookup(&self, name: &str, fallback_name: &str, default: &Value) -> (r: Value)
        ensures
            r@ == lookup_spec(self@.specified_values, name@, fallback_name@, default@),
    {
        match self.value(name) {
            Some(v) => v,
            None => match self.value(fallback_name) {
                Some(v) => v,
                None => default.duplicate(),
            },
        }
    }

    /// The display mode the node's "display" property resolves to.
    pub fn display(&self) -> (r: Display)
        ensures
            r == display_spec(self@.specified_values),
    {
        match self.value("display") {
            Some(v) => match v {
                Value::Keyword(s) => {
                    if scan::str_eq(s.as_str(), "block") {
                        Display::Block
                    } else if scan::str_eq(s.as_str(), "none") {
                        Display::NoDisplay
                    } else {
                        Display::Inline
                    }
                },
                _ => Display::Inline,
            },
            None => Display::Inline,
        }
    }
}

/// Apply a stylesheet to an entire markup tree, returning a styled tree
/// of identical shape.
pub fn style_tree<'a>(root: &'a Node, stylesheet: &'a Stylesheet) -> (r: StyledNode<'a>)
    ensures
        r@ == style_tree_spec(root@, stylesheet@),
    decreases *root,
{
    let specified = match &root.node_type {
        NodeType::Element(ed) => specified_values(ed, stylesheet),
        NodeType::Text(_) => PropertyMap::new(),
        NodeType::Comment(_) => PropertyMap::new(),
    };
    let mut children: Vec<StyledNode<'a>> = Vec::new();
    let mut k: usize = 0;
    proof {
        crate::dom::lemma_nodes_view(root.children@);
        assert(styled_children_view(children@) =~= Seq::<StyledNodeV>::empty());
        assert(root@.children.take(0) =~= Seq::<NodeV>::empty());
        assert(styled_children_spec(root@.children.take(0), stylesheet@) =~= Seq::<
            StyledNodeV,
        >::empty());
    }
    while k < root.children.len()
        invariant
            k <= root.children@.len(),
            root@.children == crate::dom::nodes_view(root.children@),
            root@.children.len() == root.children@.len(),
            forall|i: int|
                0 <= i < root.children@.len() ==> root@.children[i] == crate::dom::node_view(
                    root.children@[i],
                ),
            styled_children_view(children@) == styled_children_spec(
                root@.children.take(k as int),
                stylesheet@,
            ),
        decreases root.children@.len() - k,
    {
        let child = style_tree(&root.children[k], stylesheet);
        let ghost prev = children@;
        children.push(child);
        proof {
            lemma_styled_view_push(prev, children@.last());
            lemma_styled_children_push(
                root@.children.take(k as int),
                root@.children[k as int],
                stylesheet@,
            );
            assert(root@.children.take(k as int).push(root@.children[k as int])
                =~= root@.children.take(k as int + 1));
        }
        k = k + 1;
    }
    proof {
        assert(root@.children.take(root.children@.len() as int) =~= root@.children);
    }
    let r = StyledNode { node: root, specified_values: specified, children };
    proof {
        assert(r@ =~= style_tree_spec(root@, stylesheet@));
    }
    r
}


/// Whether some declaration in the list binds `p`.
pub open spec fn declares(decls: Seq<DeclarationV>, p: Seq<char>) -> bool {
    exists|i: int| 0 <= i < decls.len() && decls[i].name == p
}

/// The value carried by the last declaration of `p` in the list.
pub open spec fn winning_value(decls: Seq<DeclarationV>, p: Seq<char>) -> ValueV
    decreases decls.len(),
{
    if decls.len() == 0 {
        arbitrary()
    } else if declares(decls.drop_first(), p) {
        winning_value(decls.drop_first(), p)
    } else if decls[0].name == p {
        decls[0].value
    } else {
        arbitrary()
    }
}

proof fn lemma_declares_unfold(decls: Seq<DeclarationV>, p: Seq<char>)
    requires
        decls.len() > 0,
    ensures
        declares(decls, p) <==> (decls[0].name == p || declares(decls.drop_first(), p)),
{
    if declares(decls, p) {
        let i = choose|i: int| 0 <= i < decls.len() && decls[i].name == p;
        if i > 0 {
            assert(decls.drop_first()[i - 1].name == p);
        }
    }
    if declares(decls.drop_first(), p) {
        let i = choose|i: int| 0 <= i < decls.drop_first().len() && decls.drop_first()[i].name
            == p;
        assert(decls[i + 1].name == p);
    }
    if decls[0].name == p {
        assert(0 <= 0 < decls.len() && decls[0].name == p);
    }
}

/// What merging a declaration list into a mapping yields, name by
/// name: a declared name is bound to its last declared value, and
/// every other binding of the mapping is kept.
proof fn lemma_merge_decls(decls: Seq<DeclarationV>, m: Map<Seq<char>, ValueV>, p: Seq<char>)
    ensures
        merge_decls(decls, m).contains_key(p) <==> (m.contains_key(p) || declares(decls, p)),
        declares(decls, p) ==> merge_decls(decls, m)[p] == winning_value(decls, p),
        !declares(decls, p) && m.contains_key(p) ==> merge_decls(decls, m)[p] == m[p],
    decreases decls.len(),
{
    if decls.len() > 0 {
        lemma_declares_unfold(decls, p);
        let m2 = m.insert(decls[0].name, decls[0].value);
        lemma_merge_decls(decls.drop_first(), m2, p);
    }
}

/// Cascade tie-break: in a stylesheet of two rules that both match the
/// element with equal specificity, the later rule's last declaration
/// of a property is the one the resolved mapping carries.
pub proof fn lemma_cascade_tie_break(e: ElementDataV, r1: RuleV, r2: RuleV, p: Seq<char>)
    requires
        first_match(e, r1.selectors) is Some,
        first_match(e, r2.selectors) == first_match(e, r1.selectors),
        declares(r2.declarations, p),
    ensures
        specified_values_spec(e, StylesheetV { rules: seq![r1, r2] }).contains_key(p),
        specified_values_spec(e, StylesheetV { rules: seq![r1, r2] })[p] == winning_value(
            r2.declarations,
            p,
        ),
{
    reveal_with_fuel(matching_from, 4);
    reveal_with_fuel(merge_pairs, 4);
    let rules = seq![r1, r2];
    let sp = first_match(e, r1.selectors)->Some_0;
    let pr = seq![(sp, 0int), (sp, 1int)];
    assert(rules[0] == r1);
    assert(rules[1] == r2);
    assert(matching_from(e, rules, 2) =~= Seq::<((int, int, int), int)>::empty());
    assert(matching_from(e, rules, 1) =~= seq![(sp, 1int)]);
    assert(matching_from(e, rules, 0) =~= pr);
    lemma_sort_two(sp, sp, pr);
    let m1 = merge_decls(r1.declarations, Map::empty());
    assert(merge_pairs(pr, rules, Map::empty()) == merge_pairs(pr.drop_first(), rules, m1));
    assert(pr.drop_first() =~= seq![(sp, 1int)]);
    let m2 = merge_decls(r2.declarations, m1);
    assert(seq![(sp, 1int)].drop_first() =~= Seq::<((int, int, int), int)>::empty());
    assert(merge_pairs(seq![(sp, 1int)], rules, m1) == m2);
    lemma_merge_decls(r2.declarations, m1, p);
}

/// Sorting a two-element matched list whose first specificity is not
/// above the second leaves it in place.
proof fn lemma_sort_two(a: (int, int, int), b: (int, int, int), pr: Seq<((int, int, int), int)>)
    requires
        pr == seq![(a, 0int), (b, 1int)],
        pair_le((a, 0int), (b, 1int)),
    ensures
        sort_pairs_asc(pr) == pr,
{
    reveal_with_fuel(sort_pairs_asc, 4);
    reveal_with_fuel(insert_pair_asc, 4);
    assert(pr.drop_last() =~= seq![(a, 0int)]);
    assert(seq![(a, 0int)].drop_last() =~= Seq::<((int, int, int), int)>::empty());
    assert(sort_pairs_asc(seq![(a, 0int)]) == insert_pair_asc(
        sort_pairs_asc(Seq::empty()),
        (a, 0int),
    ));
    assert(sort_pairs_asc(Seq::<((int, int, int), int)>::empty()) == Seq::<
        ((int, int, int), int),
    >::empty());
    assert(sort_pairs_asc(seq![(a, 0int)]) == seq![(a, 0int)]);
    assert(pr.last() == (b, 1int));
    assert(sort_pairs_asc(pr) == insert_pair_asc(seq![(a, 0int)], (b, 1int)));
    assert(seq![(a, 0int)][0] == (a, 0int));
    assert(seq![(a, 0int)].drop_first() =~= Seq::<((int, int, int), int)>::empty());
    assert(insert_pair_asc(Seq::<((int, int, int), int)>::empty(), (b, 1int)) == seq![(b, 1int)]);
    assert(insert_pair_asc(seq![(a, 0int)], (b, 1int)) =~= pr);
}

/// Sorting a two-element matched list whose first specificity is above
/// the second swaps the two.
proof fn lemma_sort_two_swap(a: (int, int, int), b: (int, int, int), pr: Seq<((int, int, int), int)>)
    requires
        pr == seq![(a, 0int), (b, 1int)],
        !pair_le((a, 0int), (b, 1int)),
    ensures
        sort_pairs_asc(pr) == seq![(b, 1int), (a, 0int)],
{
    reveal_with_fuel(sort_pairs_asc, 4);
    reveal_with_fuel(insert_pair_asc, 4);
    assert(pr.drop_last() =~= seq![(a, 0int)]);
    assert(seq![(a, 0int)].drop_last() =~= Seq::<((int, int, int), int)>::empty());
    assert(sort_pairs_asc(seq![(a, 0int)]) == seq![(a, 0int)]);
    assert(pr.last() == (b, 1int));
    assert(sort_pairs_asc(pr) == insert_pair_asc(seq![(a, 0int)], (b, 1int)));
    assert(seq![(a, 0int)][0] == (a, 0int));
    assert(insert_pair_asc(seq![(a, 0int)], (b, 1int)) =~= seq![(b, 1int), (a, 0int)]);
}

/// Cascade precedence: of two rules that both match the element, the
/// one whose matched selector has strictly higher specificity supplies
/// the value of a property it declares, whichever of the two orders
/// the stylesheet lists them in.
pub proof fn lemma_cascade_precedence(e: ElementDataV, lo: RuleV, hi: RuleV, p: Seq<char>)
    requires
        first_match(e, lo.selectors) is Some,
        first_match(e, hi.selectors) is Some,
        spec_lt(first_match(e, lo.selectors)->Some_0, first_match(e, hi.selectors)->Some_0),
        declares(hi.declarations, p),
    ensures
        specified_values_spec(e, StylesheetV { rules: seq![lo, hi] }).contains_key(p),
        specified_values_spec(e, StylesheetV { rules: seq![lo, hi] })[p] == winning_value(
            hi.declarations,
            p,
        ),
        specified_values_spec(e, StylesheetV { rules: seq![hi, lo] }).contains_key(p),
        specified_values_spec(e, StylesheetV { rules: seq![hi, lo] })[p] == winning_value(
            hi.declarations,
            p,
        ),
{
    reveal_with_fuel(matching_from, 4);
    reveal_with_fuel(merge_pairs, 4);
    let a = first_match(e, lo.selectors)->Some_0;
    let b = first_match(e, hi.selectors)->Some_0;
    let rules1 = seq![lo, hi];
    let pr1 = seq![(a, 0int), (b, 1int)];
    assert(rules1[0] == lo);
    assert(rules1[1] == hi);
    assert(matching_from(e, rules1, 2) =~= Seq::<((int, int, int), int)>::empty());
    assert(matching_from(e, rules1, 1) =~= seq![(b, 1int)]);
    assert(matching_from(e, rules1, 0) =~= pr1);
    lemma_sort_two(a, b, pr1);
    let m1 = merge_decls(lo.declarations, Map::empty());
    assert(pr1.drop_first() =~= seq![(b, 1int)]);
    assert(seq![(b, 1int)].drop_first() =~= Seq::<((int, int, int), int)>::empty());
    assert(merge_pairs(pr1, rules1, Map::empty()) == merge_decls(hi.declarations, m1));
    lemma_merge_decls(hi.declarations, m1, p);

    let rules2 = seq![hi, lo];
    let pr2 = seq![(b, 0int), (a, 1int)];
    assert(rules2[0] == hi);
    assert(rules2[1] == lo);
    assert(matching_from(e, rules2, 2) =~= Seq::<((int, int, int), int)>::empty());
    assert(matching_from(e, rules2, 1) =~= seq![(a, 1int)]);
    assert(matching_from(e, rules2, 0) =~= pr2);
    lemma_sort_two_swap(b, a, pr2);
    let sorted2 = seq![(a, 1int), (b, 0int)];
    let n1 = merge_decls(lo.declarations, Map::empty());
    assert(sorted2.drop_first() =~= seq![(b, 0int)]);
    assert(seq![(b, 0int)].drop_first() =~= Seq::<((int, int, int), int)>::empty());
    assert(merge_pairs(sorted2, rules2, Map::empty()) == merge_decls(hi.declarations, n1));
    lemma_merge_decls(hi.declarations, n1, p);
}

/// display() defaulting: "block" and "none" select their modes; an
/// absent binding, a non-keyword value, or the unrecognized keyword
/// "foo" resolve to Inline.
pub proof fn lemma_display_defaulting(m: Map<Seq<char>, ValueV>)
    ensures
        !m.contains_key("display"@) ==> display_spec(m) == Display::Inline,
        m.contains_key("display"@) && m["display"@] == ValueV::Keyword("block"@)
            ==> display_spec(m) == Display::Block,
        m.contains_key("display"@) && m["display"@] == ValueV::Keyword("none"@) ==> display_spec(
            m,
        ) == Display::NoDisplay,
        m.contains_key("display"@) && !(m["display"@] is Keyword) ==> display_spec(m)
            == Display::Inline,
        m.contains_key("display"@) && m["display"@] == ValueV::Keyword("foo"@) ==> display_spec(m)
            == Display::Inline,
{
    reveal_strlit("block");
    reveal_strlit("none");
    reveal_strlit("foo");
    assert("none"@.len() == 4);
    assert("none"@ != "block"@);
    assert("foo"@.len() == 3);
    assert("block"@.len() == 5);
    assert("foo"@ != "block"@);
    assert("foo"@ != "none"@);
}

} // verus!
