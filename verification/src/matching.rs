//! What a simple selector matches in a document, node by node.
use crate::chars::spec_lower_seq;
use crate::dom::{map_find, Document, NodeKind, INodeType};
use crate::html::rendered;
use crate::load::map_view;
use crate::nth::{opt_int, spec_allowed_indexs};
use crate::pattern::MatchedV;
use crate::rule::{
    header_alias, input_alias, spec_attr_test, spec_contains_text, spec_made, spec_nth_parsed, submit_alias,
    AttrTest, MatcherKind, RuleKind,
};
use crate::selector::{spec_optimize_group, Combinator, SelectorSegment, SpecSeg};
use crate::rule::Rule;
use crate::utils::{spec_class_list, spec_contains_chars, spec_equal_ignore_case};
use vstd::prelude::*;

verus! {

/// An attribute test as plain values.
pub enum AT {
    Exists,
    Never,
    Prefix(Seq<char>),
    Suffix(Seq<char>),
    Contains(Seq<char>),
    DashMatch(Seq<char>),
    Word(Seq<char>),
    NotEqual(Seq<char>),
    Equal(Seq<char>),
}

/// A simple selector as plain values.
pub enum MK {
    All,
    Id(Seq<char>),
    Class(Seq<char>),
    Name(Seq<char>),
    Attr(Seq<char>, AT),
    Root,
    Empty,
    OnlyChild,
    OnlyOfType,
    NthChild { asc: bool, n: Option<int>, index: Option<int> },
    NthOfType { asc: bool, n: Option<int>, index: Option<int> },
    Not(Seq<char>),
    Has(Seq<char>),
    Contains(Option<Seq<char>>),
    Checked,
    Alias(Seq<char>),
}

pub open spec fn at_view(t: AttrTest) -> AT {
    match t {
        AttrTest::Exists => AT::Exists,
        AttrTest::Never => AT::Never,
        AttrTest::Prefix(v) => AT::Prefix(v@),
        AttrTest::Suffix(v) => AT::Suffix(v@),
        AttrTest::Contains(v) => AT::Contains(v@),
        AttrTest::DashMatch(v) => AT::DashMatch(v@),
        AttrTest::Word(v) => AT::Word(v@),
        AttrTest::NotEqual(v) => AT::NotEqual(v@),
        AttrTest::Equal(v) => AT::Equal(v@),
    }
}

pub open spec fn mk_view(k: MatcherKind) -> MK {
    match k {
        MatcherKind::All => MK::All,
        MatcherKind::Id(v) => MK::Id(v@),
        MatcherKind::Class(v) => MK::Class(v@),
        MatcherKind::Name(v) => MK::Name(v@),
        MatcherKind::Attr(key, t) => MK::Attr(key@, at_view(t)),
        MatcherKind::Root => MK::Root,
        MatcherKind::Empty => MK::Empty,
        MatcherKind::OnlyChild => MK::OnlyChild,
        MatcherKind::OnlyOfType => MK::OnlyOfType,
        MatcherKind::NthChild { asc, n, index } => MK::NthChild { asc, n: opt_int(n), index: opt_int(index) },
        MatcherKind::NthOfType { asc, n, index } => MK::NthOfType { asc, n: opt_int(n), index: opt_int(index) },
        MatcherKind::Not(v) => MK::Not(v@),
        MatcherKind::Has(v) => MK::Has(v@),
        MatcherKind::Contains(o) => MK::Contains(
            match o {
                Some(v) => Some(v@),
                None => None,
            },
        ),
        MatcherKind::Checked => MK::Checked,
        MatcherKind::Alias(v) => MK::Alias(v@),
    }
}

/// A segment of a selector as plain values.
pub open spec fn seg_view(s: SelectorSegment) -> (MK, Combinator) {
    (mk_view(s.0.kind), s.1)
}

pub open spec fn compound_view(c: Seq<SelectorSegment>) -> Seq<(MK, Combinator)> {
    c.map_values(|s: SelectorSegment| seg_view(s))
}

pub open spec fn compounds_view(q: Seq<Vec<SelectorSegment>>) -> Seq<Seq<(MK, Combinator)>> {
    q.map_values(|c: Vec<SelectorSegment>| compound_view(c@))
}

/// The value of an attribute, as `get_attribute` reports it: its text, or
/// `None` for an attribute without a value.
pub type AttrVal = Option<(Option<Seq<char>>, Option<char>)>;

/// The attribute test holds of the attribute's value (`None`: no such
/// attribute).
pub open spec fn at_holds(t: AT, val: AttrVal) -> bool {
    let text = match val {
        Some((Some(v), _)) => Some(v),
        _ => None,
    };
    match t {
        AT::Exists => val is Some,
        AT::Never => false,
        AT::Prefix(s) => text matches Some(v) && s.is_prefix_of(v),
        AT::Suffix(s) => text matches Some(v) && s.len() <= v.len() && v.skip(v.len() - s.len()) == s,
        AT::Contains(s) => text matches Some(v) && spec_contains_chars(v, s),
        AT::DashMatch(s) => match text {
            Some(v) => v == s || (s + seq!['-']).is_prefix_of(v),
            None => s.len() == 0,
        },
        AT::Word(s) => text matches Some(v) && spec_class_list(v).contains(s),
        AT::NotEqual(s) => match text {
            Some(v) => v != s,
            None => s.len() != 0,
        },
        AT::Equal(s) => match text {
            Some(v) => v == s,
            None => s.len() == 0,
        },
    }
}

/// `tag` is the lowercase name `name`.
pub open spec fn is_tag(d: &Document, x: int, name: Seq<char>) -> bool {
    d.spec_tag_names(x) == name
}

/// The element children of `p` before position `index`.
pub open spec fn elems_before(d: &Document, p: int, index: int) -> Seq<usize> {
    d@[p].children.take(index).filter(|c: usize| d.kind_of(c as int) == NodeKind::Tag)
}

/// The element children of `p` after position `index`.
pub open spec fn elems_after(d: &Document, p: int, index: int) -> Seq<usize> {
    d@[p].children.skip(index + 1).filter(|c: usize| d.kind_of(c as int) == NodeKind::Tag)
}

/// The elements among `s` with the lowercase tag name `name`.
pub open spec fn named(d: &Document, s: Seq<usize>, name: Seq<char>) -> Seq<usize> {
    s.filter(|c: usize| d.spec_tag_names(c as int) == name)
}

/// The position that `an+b` counts for node `x` among its parent's element
/// children: from the first, or from the last.
pub open spec fn nth_pos(d: &Document, x: int, asc: bool) -> int {
    let p = d@[x].parent.unwrap() as int;
    if asc {
        elems_before(d, p, d@[x].index as int).len() as int
    } else {
        elems_after(d, p, d@[x].index as int).len() as int
    }
}

/// The position that `an+b` counts for node `x` among the element children
/// of its parent with its tag name.
pub open spec fn nth_type_pos(d: &Document, x: int, asc: bool) -> int {
    let p = d@[x].parent.unwrap() as int;
    let name = d.spec_tag_names(x);
    if asc {
        named(d, elems_before(d, p, d@[x].index as int), name).len() as int
    } else {
        named(d, elems_after(d, p, d@[x].index as int), name).len() as int
    }
}

/// `e` is an `option` with `selected`, or has one among its descendants,
/// searched through elements that are not options, down to `fuel` levels.
pub open spec fn selected_below(d: &Document, e: int, fuel: nat) -> bool
    decreases fuel,
{
    if is_tag(d, e, "option"@) {
        d.attr_result(e, "selected"@) is Some
    } else if fuel == 0 {
        false
    } else {
        exists|k: int|
            0 <= k < d.elem_children(e).len() && selected_below(d, #[trigger] d.elem_children(e)[k] as int, (fuel - 1) as nat)
    }
}

/// The previous and next element siblings of `x`.
pub open spec fn prev_sibs(d: &Document, x: int) -> Seq<usize> {
    match d@[x].parent {
        Some(p) => elems_before(d, p as int, d@[x].index as int),
        None => Seq::empty(),
    }
}

pub open spec fn next_sibs(d: &Document, x: int) -> Seq<usize> {
    match d@[x].parent {
        Some(p) => elems_after(d, p as int, d@[x].index as int),
        None => Seq::empty(),
    }
}

/// `:checked`: a checkbox or radio input with `checked`; an option with
/// `selected`; or, in a single `select`, the first option when no option
/// before it is there and no later sibling is or holds a selected option.
pub open spec fn checked(d: &Document, x: int) -> bool {
    if is_tag(d, x, "input"@) {
        match d.attr_result(x, "type"@) {
            Some((Some(t), _)) => (spec_lower_seq(t) == "checkbox"@ || spec_lower_seq(t) == "radio"@) && d.attr_result(
                x,
                "checked"@,
            ) is Some,
            _ => false,
        }
    } else if is_tag(d, x, "option"@) {
        if d.attr_result(x, "selected"@) is Some {
            true
        } else {
            match d@[x].parent {
                Some(p) => is_tag(d, p as int, "select"@) && d.attr_result(p as int, "multiple"@) is None && (forall|
                    k: int,
                |
                    0 <= k < prev_sibs(d, x).len() ==> !is_tag(d, #[trigger] prev_sibs(d, x)[k] as int, "option"@))
                    && (forall|k: int|
                    0 <= k < next_sibs(d, x).len() ==> !selected_below(
                        d,
                        #[trigger] next_sibs(d, x)[k] as int,
                        d.fuel(),
                    )),
                None => false,
            }
        }
    } else {
        false
    }
}

/// The text that `:contains` searches: the node's text, entities decoded.
pub open spec fn node_text(d: &Document, x: int) -> Seq<char> {
    rendered(
        d.render_tree(x),
        Document::text_options(),
        d.kind_of(x) == NodeKind::Tag || d.kind_of(x) == NodeKind::Comment,
    )
}

/// What a simple selector that reads only the node and its neighbours
/// matches (the others are `:not`, `:has` and the aliases).
pub open spec fn local_match(d: &Document, x: int, m: MK) -> bool {
    match m {
        MK::All => true,
        MK::Id(v) => map_find(map_view(d.ids@), v) == Some(x as usize),
        MK::Class(v) => match d.attr_result(x, "class"@) {
            Some((Some(val), _)) => spec_class_list(val).contains(v),
            _ => false,
        },
        MK::Name(v) => spec_equal_ignore_case(d.spec_tag_names(x), v),
        MK::Attr(k, t) => at_holds(t, d.attr_result(x, k)),
        MK::Root => is_tag(d, x, "html"@) && (match d@[x].parent {
            Some(p) => d.spec_node_type(p as int) == INodeType::Document,
            None => false,
        }),
        MK::Empty => forall|k: int|
            0 <= k < d@[x].children.len() ==> d.kind_of(#[trigger] d@[x].children[k] as int) == NodeKind::Comment,
        MK::OnlyChild => match d@[x].parent {
            Some(p) => d.elem_children(p as int).len() == 1,
            None => false,
        },
        MK::OnlyOfType => match d@[x].parent {
            Some(p) => named(d, d.elem_children(p as int), d.spec_tag_names(x)).len() == 1,
            None => false,
        },
        MK::NthChild { asc, n, index } => match d@[x].parent {
            Some(p) => spec_allowed_indexs(n, index, d.elem_children(p as int).len() as int).contains(
                nth_pos(d, x, asc),
            ),
            None => false,
        },
        MK::NthOfType { asc, n, index } => match d@[x].parent {
            Some(p) => spec_allowed_indexs(n, index, d.elem_children(p as int).len() as int).contains(
                nth_type_pos(d, x, asc),
            ),
            None => false,
        },
        MK::Contains(o) => match o {
            None => true,
            Some(t) => spec_contains_chars(node_text(d, x), t),
        },
        MK::Checked => checked(d, x),
        _ => false,
    }
}


/// The attribute test that the captures of an attribute selector's value
/// expression make (see `spec_attr_test`).
pub open spec fn made_at(groups: Seq<Option<Seq<char>>>) -> AT {
    let g = |i: int| if 0 <= i < groups.len() { groups[i] } else { None };
    let mode: Seq<char> = match g(0) {
        Some(m) => m,
        None => Seq::empty(),
    };
    let value = if g(1) is Some {
        g(1)
    } else if g(2) is Some {
        g(2)
    } else {
        g(3)
    };
    match value {
        None => AT::Exists,
        Some(v) => if v.len() == 0 && !(mode.len() == 0 || mode == seq!['!'] || mode == seq!['|']) {
            AT::Never
        } else if mode == seq!['^'] {
            AT::Prefix(v)
        } else if mode == seq!['$'] {
            AT::Suffix(v)
        } else if mode == seq!['*'] {
            AT::Contains(v)
        } else if mode == seq!['|'] {
            AT::DashMatch(v)
        } else if mode == seq!['~'] {
            AT::Word(v)
        } else if mode == seq!['!'] {
            AT::NotEqual(v)
        } else {
            AT::Equal(v)
        },
    }
}

pub open spec fn opt_number(s: Option<Seq<char>>) -> Option<int> {
    match s {
        Some(v) => Some(crate::nth::spec_number_value(v)),
        None => None,
    }
}

/// The simple selector that a rule of kind `kind` makes of what its
/// patterns matched (see `spec_made`).
pub open spec fn made_mk(kind: RuleKind, data: Seq<MatchedV>) -> MK {
    match kind {
        RuleKind::All => MK::All,
        RuleKind::Id => MK::Id(data[1].chars),
        RuleKind::Class => MK::Class(data[1].chars),
        RuleKind::Name => MK::Name(data[0].chars),
        RuleKind::Attr => MK::Attr(data[2].chars, made_at(data[4].groups)),
        RuleKind::Root => MK::Root,
        RuleKind::Empty => MK::Empty,
        RuleKind::FirstChild => MK::NthChild { asc: true, n: None, index: Some(1) },
        RuleKind::LastChild => MK::NthChild { asc: false, n: None, index: Some(1) },
        RuleKind::OnlyChild => MK::OnlyChild,
        RuleKind::NthChild => MK::NthChild { asc: true, n: opt_number(data[2].n), index: opt_number(data[2].index) },
        RuleKind::NthLastChild => MK::NthChild {
            asc: false,
            n: opt_number(data[2].n),
            index: opt_number(data[2].index),
        },
        RuleKind::FirstOfType => MK::NthOfType { asc: true, n: None, index: Some(1) },
        RuleKind::LastOfType => MK::NthOfType { asc: false, n: None, index: Some(1) },
        RuleKind::NthOfType => MK::NthOfType { asc: true, n: opt_number(data[2].n), index: opt_number(data[2].index) },
        RuleKind::NthLastOfType => MK::NthOfType {
            asc: false,
            n: opt_number(data[2].n),
            index: opt_number(data[2].index),
        },
        RuleKind::OnlyOfType => MK::OnlyOfType,
        RuleKind::Not => MK::Not(data[2].chars),
        RuleKind::Has => MK::Has(data[2].chars),
        RuleKind::Contains => MK::Contains(
            if data[2].chars.len() == 0 {
                None
            } else {
                Some(spec_contains_text(data[2].chars))
            },
        ),
        RuleKind::Checked => MK::Checked,
        RuleKind::Header => MK::Alias(header_alias()),
        RuleKind::Input => MK::Alias(input_alias()),
        RuleKind::Submit => MK::Alias(submit_alias()),
    }
}

proof fn lemma_made_at(t: AttrTest, groups: Seq<Option<Seq<char>>>)
    requires
        spec_attr_test(t, groups),
    ensures
        at_view(t) == made_at(groups),
{
}

/// The matcher a rule makes is the one `made_mk` names.
pub proof fn lemma_made_mk(kind: RuleKind, data: Seq<MatchedV>, k: MatcherKind)
    requires
        spec_made(kind, data, k),
    ensures
        mk_view(k) == made_mk(kind, data),
{
    match kind {
        RuleKind::Attr => {
            if let MatcherKind::Attr(key, t) = k {
                lemma_made_at(t, data[4].groups);
            }
        },
        _ => {},
    }
}

/// A segment of a parsed selector as plain values.
pub open spec fn spec_seg_mk(rules: Seq<Rule>, s: SpecSeg) -> (MK, Combinator) {
    (made_mk(rules[s.0].kind, s.1), s.2)
}

pub open spec fn spec_compounds_mk(rules: Seq<Rule>, q: Seq<Seq<SpecSeg>>) -> Seq<Seq<(MK, Combinator)>> {
    q.map_values(|c: Seq<SpecSeg>| c.map_values(|s: SpecSeg| spec_seg_mk(rules, s)))
}

/// The queries of a selector text parsed without the lookup optimization;
/// `None` when it does not parse.
pub open spec fn nested_queries(d: &Document, text: Seq<char>) -> Option<Seq<Seq<Seq<(MK, Combinator)>>>> {
    if text.len() >= usize::MAX {
        None
    } else {
        match crate::selector::spec_parse(d.rules@, d.splitter@, text) {
        Err(_) => None,
        Ok(groups) => Some(
            Seq::new(
                groups.len(),
                |g: int| spec_compounds_mk(d.rules@, spec_optimize_group(d.rules@, groups[g], false).1),
            ),
        ),
        }
    }
}

/// The element descendants of the nodes `cs` and the nodes themselves, in
/// document order, down to `fuel` levels.
pub open spec fn desc_of(d: &Document, cs: Seq<usize>, fuel: nat) -> Seq<usize>
    decreases fuel, cs.len(),
{
    if cs.len() == 0 || fuel == 0 {
        Seq::empty()
    } else {
        desc_of(d, cs.drop_last(), fuel) + seq![cs.last()] + desc_of(
            d,
            d.elem_children(cs.last() as int),
            (fuel - 1) as nat,
        )
    }
}

/// The element descendants of `x` in document order.
pub open spec fn descendants(d: &Document, x: int) -> Seq<usize> {
    desc_of(d, d.elem_children(x), d.fuel())
}

/// The combinator that walks back over `c`; none for those without one.
pub open spec fn lookup_comb(c: Combinator) -> Option<Combinator> {
    if c.spec_reversible() {
        Some(c.spec_reverse())
    } else {
        None
    }
}

/// The combinator that walks back from a compound; none for an empty one.
pub open spec fn head_comb(c: Seq<(MK, Combinator)>) -> Option<Combinator> {
    if c.len() > 0 {
        lookup_comb(c[0].1)
    } else {
        None
    }
}

/// The ancestors of `x` below the root, nearest first, up to `fuel` levels.
pub open spec fn ancestors_below_root(d: &Document, x: int, fuel: nat) -> Seq<usize>
    decreases fuel,
{
    match d@[x].parent {
        Some(p) => if fuel == 0 || d.kind_of(p as int) == NodeKind::Root {
            Seq::empty()
        } else {
            seq![p] + ancestors_below_root(d, p as int, (fuel - 1) as nat)
        },
        None => Seq::empty(),
    }
}

/// The nodes that a walk back from `x` over `rc` reaches: the parent or
/// the ancestors below the root, the previous sibling or all of them, or
/// `x` itself.
pub open spec fn cands(d: &Document, rc: Combinator, x: int) -> Seq<usize> {
    match rc {
        Combinator::Parent => match d@[x].parent {
            Some(p) => if d.kind_of(p as int) == NodeKind::Root {
                Seq::empty()
            } else {
                seq![p]
            },
            None => Seq::empty(),
        },
        Combinator::ParentAll => ancestors_below_root(d, x, d.fuel()),
        Combinator::Prev => if prev_sibs(d, x).len() > 0 {
            seq![prev_sibs(d, x).last()]
        } else {
            Seq::empty()
        },
        Combinator::PrevAll => prev_sibs(d, x),
        Combinator::Chain => seq![x as usize],
        _ => Seq::empty(),
    }
}

/// The last walk back reaches a node of `e`: its parent, an ancestor, its
/// previous sibling, a previous sibling, or itself.
pub open spec fn final_ok(d: &Document, e: Seq<usize>, x: int, rc: Combinator) -> bool {
    match rc {
        Combinator::Parent => d@[x].parent matches Some(p) && e.contains(p),
        Combinator::ParentAll => exists|k: nat|
            1 <= k <= d.fuel() && (#[trigger] d.ancestor(x, k) matches Some(a) && e.contains(a)),
        Combinator::Prev => prev_sibs(d, x).len() > 0 && e.contains(prev_sibs(d, x).last()),
        Combinator::PrevAll => exists|k: int| 0 <= k < prev_sibs(d, x).len() && e.contains(#[trigger] prev_sibs(d, x)[k]),
        Combinator::Chain => e.contains(x as usize),
        _ => false,
    }
}

/// The node matches every simple selector of the compound.
pub open spec fn compound_ok(d: &Document, x: int, c: Seq<(MK, Combinator)>, depth: nat) -> bool
    decreases depth, 1int, c.len(),
{
    if c.len() == 0 {
        true
    } else {
        compound_ok(d, x, c.drop_last(), depth) && mk_match(d, x, c.last().0, depth)
    }
}

/// Walking back from `x` over `rc`, then over each compound of `lookup`
/// from the last, through nodes that match it, reaches `e`.
pub open spec fn lookup_ok(
    d: &Document,
    e: Seq<usize>,
    x: int,
    rc: Option<Combinator>,
    lookup: Seq<Seq<(MK, Combinator)>>,
    depth: nat,
) -> bool
    decreases depth, 2int, lookup.len(),
{
    match rc {
        None => false,
        Some(rc) => if lookup.len() == 0 {
            final_ok(d, e, x, rc)
        } else {
            let c = lookup.last();
            exists|k: int|
                0 <= k < cands(d, rc, x).len() && compound_ok(d, #[trigger] cands(d, rc, x)[k] as int, c, depth)
                    && lookup_ok(d, e, cands(d, rc, x)[k] as int, head_comb(c), lookup.drop_last(), depth)
        },
    }
}

/// The node passes a query as a filter: it matches the last compound, and
/// the compounds before lead back to the root.
pub open spec fn query_filter(d: &Document, x: int, q: Seq<Seq<(MK, Combinator)>>, depth: nat) -> bool
    decreases depth, 3int, 0int,
{
    q.len() > 0 && compound_ok(d, x, q.last(), depth) && (q.len() == 1 || lookup_ok(
        d,
        seq![0usize],
        x,
        head_comb(q.last()),
        q.drop_last(),
        depth,
    ))
}

/// The node passes one of the queries as a filter.
pub open spec fn sel_filter(d: &Document, x: int, qs: Seq<Seq<Seq<(MK, Combinator)>>>, depth: nat) -> bool
    decreases depth, 4int, qs.len(),
{
    qs.len() > 0 && (sel_filter(d, x, qs.drop_last(), depth) || query_filter(d, x, qs.last(), depth))
}

/// What a simple selector matches; nested selectors look `depth` levels
/// deep.
pub open spec fn mk_match(d: &Document, x: int, m: MK, depth: nat) -> bool
    decreases depth, 0int, 0int,
{
    match m {
        MK::Not(s) => depth > 0 && match nested_queries(d, s) {
            Some(qs) => !sel_filter(d, x, qs, (depth - 1) as nat),
            None => false,
        },
        MK::Has(s) => depth > 0 && match nested_queries(d, s) {
            Some(qs) => exists|k: int|
                0 <= k < descendants(d, x).len() && sel_filter(
                    d,
                    #[trigger] descendants(d, x)[k] as int,
                    qs,
                    (depth - 1) as nat,
                ),
            None => false,
        },
        MK::Alias(s) => depth > 0 && match nested_queries(d, s) {
            Some(qs) => sel_filter(d, x, qs, (depth - 1) as nat),
            None => false,
        },
        _ => local_match(d, x, m),
    }
}


/// `s` begins `v`.
pub fn starts_with(v: &[char], s: &[char]) -> (r: bool)
    ensures
        r == s@.is_prefix_of(v@),
{
    if s.len() > v.len() {
        return false;
    }
    let mut i: usize = 0;
    while i < s.len()
        invariant
            s@.len() <= v@.len(),
            i <= s@.len(),
            forall|j: int| 0 <= j < i ==> s@[j] == v@[j],
        decreases s.len() - i,
    {
        if s[i] != v[i] {
            return false;
        }
        i += 1;
    }
    true
}

/// `s` ends `v`.
pub fn ends_with(v: &[char], s: &[char]) -> (r: bool)
    ensures
        r == (s@.len() <= v@.len() && v@.skip(v@.len() - s@.len()) == s@),
{
    if s.len() > v.len() {
        return false;
    }
    let vl = v.len();
    let off = vl - s.len();
    let mut i: usize = 0;
    while i < s.len()
        invariant
            vl == v@.len(),
            s@.len() <= v@.len(),
            off == v@.len() - s@.len(),
            i <= s@.len(),
            forall|j: int| 0 <= j < i ==> s@[j] == v@[off + j],
        decreases s.len() - i,
    {
        if s[i] != v[off + i] {
            assert(v@.skip(off as int)[i as int] == v@[off + i]);
            return false;
        }
        i += 1;
    }
    assert(v@.skip(off as int) =~= s@);
    true
}

/// The attribute test holds of the value found (see `at_holds`).
fn at_test(t: &AttrTest, val: &Option<(Option<Vec<char>>, Option<char>)>) -> (r: bool)
    ensures
        r == at_holds(at_view(*t), crate::dom::found_view(*val)),
{
    let text: Option<&Vec<char>> = match val {
        Some((Some(v), _)) => Some(v),
        _ => None,
    };
    match t {
        AttrTest::Exists => val.is_some(),
        AttrTest::Never => false,
        AttrTest::Prefix(s) => match text {
            Some(v) => starts_with(v.as_slice(), s.as_slice()),
            None => false,
        },
        AttrTest::Suffix(s) => match text {
            Some(v) => ends_with(v.as_slice(), s.as_slice()),
            None => false,
        },
        AttrTest::Contains(s) => match text {
            Some(v) => crate::utils::contains_chars(v.as_slice(), s.as_slice()),
            None => false,
        },
        AttrTest::DashMatch(s) => match text {
            Some(v) => {
                if crate::chars::chars_eq(v.as_slice(), s.as_slice()) {
                    true
                } else {
                    let mut sd = crate::chars::copy_chars(s.as_slice());
                    sd.push('-');
                    starts_with(v.as_slice(), sd.as_slice())
                }
            },
            None => s.len() == 0,
        },
        AttrTest::Word(s) => match text {
            Some(v) => {
                let list = crate::utils::get_class_list_chars(v.as_slice());
                list_contains(&list, s.as_slice())
            },
            None => false,
        },
        AttrTest::NotEqual(s) => match text {
            Some(v) => !crate::chars::chars_eq(v.as_slice(), s.as_slice()),
            None => s.len() != 0,
        },
        AttrTest::Equal(s) => match text {
            Some(v) => crate::chars::chars_eq(v.as_slice(), s.as_slice()),
            None => s.len() == 0,
        },
    }
}

/// `s` is one of the words of `list`.
pub fn list_contains(list: &Vec<Vec<char>>, s: &[char]) -> (r: bool)
    ensures
        r == crate::chars::vv(list@).contains(s@),
{
    let mut i: usize = 0;
    while i < list.len()
        invariant
            i <= list@.len(),
            forall|j: int| 0 <= j < i ==> crate::chars::vv(list@)[j] != s@,
        decreases list.len() - i,
    {
        assert(crate::chars::vv(list@)[i as int] == list@[i as int]@);
        if crate::chars::chars_eq(list[i].as_slice(), s) {
            assert(crate::chars::vv(list@)[i as int] == s@);
            return true;
        }
        i += 1;
    }
    false
}

/// `x` is one of the positions.
fn has_pos(v: &Vec<usize>, x: usize) -> (r: bool)
    ensures
        r == crate::nth::usizes(v@).contains(x as int),
{
    let mut i: usize = 0;
    while i < v.len()
        invariant
            i <= v@.len(),
            forall|j: int| 0 <= j < i ==> crate::nth::usizes(v@)[j] != x as int,
        decreases v.len() - i,
    {
        if v[i] == x {
            assert(crate::nth::usizes(v@)[i as int] == x as int);
            return true;
        }
        i += 1;
    }
    false
}

/// The element children of `p` before (`after` false) or after position
/// `index`.
fn elems_around(d: &Document, p: usize, index: usize, after: bool) -> (r: Vec<usize>)
    requires
        d.wf(),
        d.valid(p as int),
        index < d@[p as int].children.len(),
    ensures
        after ==> r@ == elems_after(d, p as int, index as int),
        !after ==> r@ == elems_before(d, p as int, index as int),
        forall|k: int| 0 <= k < r@.len() ==> d.is_elem(#[trigger] r@[k] as int),
{
    let ghost cs = d@[p as int].children;
    let ghost f = |c: usize| d.kind_of(c as int) == NodeKind::Tag;
    let ghost src = if after {
        cs.skip(index + 1)
    } else {
        cs.take(index as int)
    };
    let nc = d.nodes[p].children.len();
    assert(index < nc);
    let start: usize = if after {
        index + 1
    } else {
        0
    };
    let end: usize = if after {
        d.nodes[p].children.len()
    } else {
        index
    };
    let mut r: Vec<usize> = Vec::new();
    let mut k: usize = start;
    assert(d@[p as int] == d.nodes@[p as int]@);
    assert(cs.subrange(start as int, start as int).filter(f) =~= Seq::<usize>::empty()) by {
        reveal(Seq::filter);
    }
    while k < end
        invariant
            d.wf(),
            d.valid(p as int),
            cs == d@[p as int].children,
            cs == d.nodes@[p as int].children@,
            f == (|c: usize| d.kind_of(c as int) == NodeKind::Tag),
            start <= k <= end,
            end <= cs.len(),
            r@ == cs.subrange(start as int, k as int).filter(f),
            forall|j: int| 0 <= j < r@.len() ==> d.is_elem(#[trigger] r@[j] as int),
        decreases end - k,
    {
        let c = d.nodes[p].children[k];
        assert(d.valid(c as int));
        proof {
            assert(cs.subrange(start as int, k + 1).drop_last() =~= cs.subrange(start as int, k as int));
            reveal(Seq::filter);
        }
        if d.nodes[c].kind == NodeKind::Tag {
            r.push(c);
        }
        k += 1;
    }
    assert(cs.subrange(start as int, end as int) =~= src);
    r
}

/// The elements of `s` whose lowercase tag name is `name`.
fn count_named(d: &Document, s: &Vec<usize>, name: &Vec<char>) -> (r: usize)
    requires
        d.wf(),
        forall|k: int| 0 <= k < s@.len() ==> d.valid(#[trigger] s@[k] as int),
    ensures
        r == named(d, s@, name@).len(),
{
    let ghost f = |c: usize| d.spec_tag_names(c as int) == name@;
    let mut n: usize = 0;
    let mut k: usize = 0;
    assert(s@.take(0).filter(f) =~= Seq::<usize>::empty()) by {
        reveal(Seq::filter);
    }
    while k < s.len()
        invariant
            d.wf(),
            forall|j: int| 0 <= j < s@.len() ==> d.valid(#[trigger] s@[j] as int),
            f == (|c: usize| d.spec_tag_names(c as int) == name@),
            k <= s@.len(),
            n == s@.take(k as int).filter(f).len(),
            n <= k,
        decreases s.len() - k,
    {
        let x = s[k];
        assert(d.valid(x as int));
        let t = d.tag_names(x);
        proof {
            assert(s@.take(k + 1).drop_last() =~= s@.take(k as int));
            reveal(Seq::filter);
        }
        if crate::chars::chars_eq(t.as_slice(), name.as_slice()) {
            n += 1;
        }
        k += 1;
    }
    assert(s@.take(k as int) =~= s@);
    n
}


/// The node's lowercase tag name is `name`.
fn tag_is(d: &Document, x: usize, name: &str) -> (r: bool)
    requires
        d.valid(x as int),
    ensures
        r == is_tag(d, x as int, name@),
{
    let t = d.tag_names(x);
    let n = crate::chars::str_chars(name);
    crate::chars::chars_eq(t.as_slice(), n.as_slice())
}

/// See `selected_below`.
fn selected_below_exec(d: &Document, e: usize, fuel: usize) -> (r: bool)
    requires
        d.wf(),
        d.valid(e as int),
    ensures
        r == selected_below(d, e as int, fuel as nat),
    decreases fuel,
{
    if tag_is(d, e, "option") {
        let n = crate::chars::str_chars("selected");
        return d.attr_of(e, n.as_slice()).is_some();
    }
    if fuel == 0 {
        return false;
    }
    let cs = d.children(e);
    let mut k: usize = 0;
    while k < cs.len()
        invariant
            d.wf(),
            d.valid(e as int),
            fuel > 0,
            cs@ == d.elem_children(e as int),
            k <= cs@.len(),
            forall|j: int| 0 <= j < k ==> !selected_below(d, #[trigger] cs@[j] as int, (fuel - 1) as nat),
            forall|j: int| 0 <= j < cs@.len() ==> d.is_elem(#[trigger] cs@[j] as int),
            !is_tag(d, e as int, "option"@),
        decreases cs.len() - k,
    {
        let c = cs[k];
        assert(d.is_elem(cs@[k as int] as int));
        if selected_below_exec(d, c, fuel - 1) {
            assert(d.elem_children(e as int)[k as int] == c);
            return true;
        }
        k += 1;
    }
    false
}

/// See `checked`.
fn checked_exec(d: &Document, x: usize) -> (r: bool)
    requires
        d.wf(),
        d.valid(x as int),
    ensures
        r == checked(d, x as int),
{
    proof {
        reveal_strlit("input");
        reveal_strlit("option");
        reveal_strlit("select");
        reveal_strlit("checkbox");
        reveal_strlit("radio");
    }
    if tag_is(d, x, "input") {
        let tn = crate::chars::str_chars("type");
        match d.attr_of(x, tn.as_slice()) {
            Some((Some(t), _)) => {
                let lt = crate::chars::lower_chars(t.as_slice());
                let cb = crate::chars::str_chars("checkbox");
                let ra = crate::chars::str_chars("radio");
                if crate::chars::chars_eq(lt.as_slice(), cb.as_slice()) || crate::chars::chars_eq(
                    lt.as_slice(),
                    ra.as_slice(),
                ) {
                    let ck = crate::chars::str_chars("checked");
                    return d.attr_of(x, ck.as_slice()).is_some();
                }
                return false;
            },
            _ => {
                return false;
            },
        }
    }
    if !tag_is(d, x, "option") {
        return false;
    }
    let sel = crate::chars::str_chars("selected");
    if d.attr_of(x, sel.as_slice()).is_some() {
        return true;
    }
    let p = match d.nodes[x].parent {
        Some(p) => p,
        None => {
            return false;
        },
    };
    assert(d.valid(p as int));
    let mul = crate::chars::str_chars("multiple");
    if !tag_is(d, p, "select") || d.attr_of(p, mul.as_slice()).is_some() {
        return false;
    }
    let index = d.nodes[x].index;
    assert(d@[x as int] == d.nodes@[x as int]@);
    let prevs = elems_around(d, p, index, false);
    assert(prevs@ == prev_sibs(d, x as int));
    let nexts = elems_around(d, p, index, true);
    assert(nexts@ == next_sibs(d, x as int));
    no_option_in(d, &prevs) && none_selected(d, &nexts)
}

fn no_option_in(d: &Document, v: &Vec<usize>) -> (r: bool)
    requires
        d.wf(),
        forall|j: int| 0 <= j < v@.len() ==> d.is_elem(#[trigger] v@[j] as int),
    ensures
        r == (forall|k: int| 0 <= k < v@.len() ==> !is_tag(d, #[trigger] v@[k] as int, "option"@)),
{
    let mut k: usize = 0;
    while k < v.len()
        invariant
            d.wf(),
            forall|j: int| 0 <= j < v@.len() ==> d.is_elem(#[trigger] v@[j] as int),
            k <= v@.len(),
            forall|j: int| 0 <= j < k ==> !is_tag(d, #[trigger] v@[j] as int, "option"@),
        decreases v.len() - k,
    {
        if tag_is(d, v[k], "option") {
            return false;
        }
        k += 1;
    }
    true
}

fn none_selected(d: &Document, v: &Vec<usize>) -> (r: bool)
    requires
        d.wf(),
        forall|j: int| 0 <= j < v@.len() ==> d.is_elem(#[trigger] v@[j] as int),
    ensures
        r == (forall|k: int| 0 <= k < v@.len() ==> !selected_below(d, #[trigger] v@[k] as int, d.fuel())),
{
    let fuel = d.nodes.len();
    let mut k: usize = 0;
    while k < v.len()
        invariant
            d.wf(),
            fuel == d.fuel(),
            forall|j: int| 0 <= j < v@.len() ==> d.is_elem(#[trigger] v@[j] as int),
            k <= v@.len(),
            forall|j: int| 0 <= j < k ==> !selected_below(d, #[trigger] v@[j] as int, fuel as nat),
        decreases v.len() - k,
    {
        assert(d.is_elem(v@[k as int] as int));
        if selected_below_exec(d, v[k], fuel) {
            return false;
        }
        k += 1;
    }
    true
}

/// Every child node is a comment.
fn all_comments(d: &Document, x: usize) -> (r: bool)
    requires
        d.wf(),
        d.valid(x as int),
    ensures
        r == (forall|k: int|
            0 <= k < d@[x as int].children.len() ==> d.kind_of(#[trigger] d@[x as int].children[k] as int)
                == NodeKind::Comment),
{
    assert(d@[x as int] == d.nodes@[x as int]@);
    let n = d.nodes[x].children.len();
    let mut k: usize = 0;
    while k < n
        invariant
            d.wf(),
            d.valid(x as int),
            n == d@[x as int].children.len(),
            d@[x as int] == d.nodes@[x as int]@,
            k <= n,
            forall|j: int| 0 <= j < k ==> d.kind_of(#[trigger] d@[x as int].children[j] as int) == NodeKind::Comment,
        decreases n - k,
    {
        let c = d.nodes[x].children[k];
        assert(d.valid(c as int));
        if d.nodes[c].kind != NodeKind::Comment {
            assert(d@[x as int].children[k as int] == c);
            return false;
        }
        k += 1;
    }
    true
}

/// What a simple selector that reads only the node and its neighbours
/// matches (see `local_match`).
pub fn local_match_exec(d: &Document, x: usize, m: &MatcherKind) -> (r: bool)
    requires
        d.wf(),
        d.valid(x as int),
    ensures
        r == local_match(d, x as int, mk_view(*m)),
{
    assert(d@[x as int] == d.nodes@[x as int]@);
    match m {
        MatcherKind::All => true,
        MatcherKind::Id(v) => match crate::load::map_lookup(&d.ids, v.as_slice()) {
            Some(i) => i == x,
            None => false,
        },
        MatcherKind::Class(v) => {
            let cn = crate::chars::str_chars("class");
            match d.attr_of(x, cn.as_slice()) {
                Some((Some(val), _)) => {
                    let list = crate::utils::get_class_list_chars(val.as_slice());
                    list_contains(&list, v.as_slice())
                },
                _ => false,
            }
        },
        MatcherKind::Name(v) => {
            let t = d.tag_names(x);
            crate::utils::is_equal_chars_ignore_case(t.as_slice(), v.as_slice())
        },
        MatcherKind::Attr(k, t) => {
            let val = d.attr_of(x, k.as_slice());
            at_test(t, &val)
        },
        MatcherKind::Root => {
            if !tag_is(d, x, "html") {
                return false;
            }
            match d.nodes[x].parent {
                Some(p) => d.node_type(p) == INodeType::Document,
                None => false,
            }
        },
        MatcherKind::Empty => all_comments(d, x),
        MatcherKind::OnlyChild => match d.nodes[x].parent {
            Some(p) => d.children(p).len() == 1,
            None => false,
        },
        MatcherKind::OnlyOfType => match d.nodes[x].parent {
            Some(p) => {
                let cs = d.children(p);
                assert forall|k: int| 0 <= k < cs@.len() implies d.valid(#[trigger] cs@[k] as int) by {
                    assert(d.is_elem(cs@[k] as int));
                }
                let t = d.tag_names(x);
                count_named(d, &cs, &t) == 1
            },
            None => false,
        },
        MatcherKind::NthChild { asc, n, index } => match d.nodes[x].parent {
            Some(p) => {
                let total = d.children(p).len();
                let around = elems_around(d, p, d.nodes[x].index, !*asc);
                let pos = around.len();
                let allowed = crate::nth::allowed_indexs(*n, *index, total);
                has_pos(&allowed, pos)
            },
            None => false,
        },
        MatcherKind::NthOfType { asc, n, index } => match d.nodes[x].parent {
            Some(p) => {
                let total = d.children(p).len();
                let around = elems_around(d, p, d.nodes[x].index, !*asc);
                let t = d.tag_names(x);
                let pos = count_named(d, &around, &t);
                let allowed = crate::nth::allowed_indexs(*n, *index, total);
                has_pos(&allowed, pos)
            },
            None => false,
        },
        MatcherKind::Contains(o) => match o {
            None => true,
            Some(t) => {
                let text = d.text_contents(x);
                crate::utils::contains_chars(text.as_slice(), t.as_slice())
            },
        },
        MatcherKind::Checked => checked_exec(d, x),
        _ => false,
    }
}


/// `x` is one of `e`.
pub fn vec_contains(e: &[usize], x: usize) -> (r: bool)
    ensures
        r == e@.contains(x),
{
    let mut i: usize = 0;
    while i < e.len()
        invariant
            i <= e@.len(),
            forall|j: int| 0 <= j < i ==> e@[j] != x,
        decreases e.len() - i,
    {
        if e[i] == x {
            return true;
        }
        i += 1;
    }
    false
}

proof fn lemma_ancestor_none(d: &Document, x: int, j: nat, k: nat)
    requires
        d.ancestor(x, j) is None,
        j <= k,
    ensures
        d.ancestor(x, k) is None,
    decreases k - j,
{
    if j < k {
        lemma_ancestor_none(d, x, j, (k - 1) as nat);
    }
}

/// See `ancestors_below_root`.
pub fn ancestors_exec(d: &Document, x: usize, fuel: usize) -> (r: Vec<usize>)
    requires
        d.wf(),
        d.valid(x as int),
    ensures
        r@ == ancestors_below_root(d, x as int, fuel as nat),
        forall|k: int| 0 <= k < r@.len() ==> d.valid(#[trigger] r@[k] as int),
    decreases fuel,
{
    assert(d@[x as int] == d.nodes@[x as int]@);
    match d.nodes[x].parent {
        Some(p) => {
            if fuel == 0 || d.nodes[p].kind == NodeKind::Root {
                Vec::new()
            } else {
                let mut rest = ancestors_exec(d, p, fuel - 1);
                let mut r: Vec<usize> = Vec::new();
                r.push(p);
                r.append(&mut rest);
                r
            }
        },
        None => Vec::new(),
    }
}

/// The previous element siblings of `x` (see `prev_sibs`).
pub fn prev_sibs_exec(d: &Document, x: usize) -> (r: Vec<usize>)
    requires
        d.wf(),
        d.valid(x as int),
    ensures
        r@ == prev_sibs(d, x as int),
        forall|k: int| 0 <= k < r@.len() ==> d.is_elem(#[trigger] r@[k] as int),
{
    assert(d@[x as int] == d.nodes@[x as int]@);
    match d.nodes[x].parent {
        Some(p) => elems_around(d, p, d.nodes[x].index, false),
        None => Vec::new(),
    }
}

/// The next element siblings of `x` (see `next_sibs`).
pub fn next_sibs_exec(d: &Document, x: usize) -> (r: Vec<usize>)
    requires
        d.wf(),
        d.valid(x as int),
    ensures
        r@ == next_sibs(d, x as int),
        forall|k: int| 0 <= k < r@.len() ==> d.is_elem(#[trigger] r@[k] as int),
{
    assert(d@[x as int] == d.nodes@[x as int]@);
    match d.nodes[x].parent {
        Some(p) => elems_around(d, p, d.nodes[x].index, true),
        None => Vec::new(),
    }
}

/// See `cands`.
fn cands_exec(d: &Document, rc: Combinator, x: usize) -> (r: Vec<usize>)
    requires
        d.wf(),
        d.valid(x as int),
    ensures
        r@ == cands(d, rc, x as int),
        forall|k: int| 0 <= k < r@.len() ==> d.valid(#[trigger] r@[k] as int),
{
    assert(d@[x as int] == d.nodes@[x as int]@);
    match rc {
        Combinator::Parent => match d.nodes[x].parent {
            Some(p) => {
                if d.nodes[p].kind == NodeKind::Root {
                    Vec::new()
                } else {
                    let mut r: Vec<usize> = Vec::new();
                    r.push(p);
                    assert(r@ =~= seq![p]);
                    r
                }
            },
            None => Vec::new(),
        },
        Combinator::ParentAll => ancestors_exec(d, x, d.nodes.len()),
        Combinator::Prev => {
            let ps = prev_sibs_exec(d, x);
            if ps.len() > 0 {
                let mut r: Vec<usize> = Vec::new();
                r.push(ps[ps.len() - 1]);
                assert(r@ =~= seq![ps@.last()]);
                assert(d.is_elem(ps@[ps@.len() - 1] as int));
                r
            } else {
                Vec::new()
            }
        },
        Combinator::PrevAll => {
            let ps = prev_sibs_exec(d, x);
            assert forall|k: int| 0 <= k < ps@.len() implies d.valid(#[trigger] ps@[k] as int) by {
                assert(d.is_elem(ps@[k] as int));
            }
            ps
        },
        Combinator::Chain => {
            let mut r: Vec<usize> = Vec::new();
            r.push(x);
            assert(r@ =~= seq![x]);
            r
        },
        _ => Vec::new(),
    }
}

/// Some proper ancestor of `x` is one of `e`.
fn ancestor_in(d: &Document, e: &[usize], x: usize) -> (r: bool)
    requires
        d.wf(),
        d.valid(x as int),
    ensures
        r == (exists|k: nat| 1 <= k <= d.fuel() && (#[trigger] d.ancestor(x as int, k) matches Some(a) && e@.contains(a))),
{
    let fuel = d.nodes.len();
    let mut cur = x;
    let mut k: usize = 0;
    assert(d.ancestor(x as int, 0) == Some(x));
    while k < fuel
        invariant
            d.wf(),
            fuel == d.fuel(),
            k <= fuel,
            d.valid(cur as int),
            d.ancestor(x as int, k as nat) == Some(cur),
            forall|j: nat| 1 <= j <= k ==> !(#[trigger] d.ancestor(x as int, j) matches Some(a) && e@.contains(a)),
        decreases fuel - k,
    {
        match d.nodes[cur].parent {
            None => {
                assert(d.ancestor(x as int, (k + 1) as nat) is None);
                assert forall|j: nat| 1 <= j <= fuel implies !(#[trigger] d.ancestor(x as int, j) matches Some(a)
                    && e@.contains(a)) by {
                    if j > k {
                        lemma_ancestor_none(d, x as int, (k + 1) as nat, j);
                    }
                }
                return false;
            },
            Some(p) => {
                k += 1;
                assert(d.ancestor(x as int, k as nat) == Some(p));
                if vec_contains(e, p) {
                    return true;
                }
                cur = p;
            },
        }
    }
    false
}

/// Some item of `v` is one of `e`.
fn any_in(e: &[usize], v: &Vec<usize>) -> (r: bool)
    ensures
        r == (exists|k: int| 0 <= k < v@.len() && e@.contains(#[trigger] v@[k])),
{
    let mut k: usize = 0;
    while k < v.len()
        invariant
            k <= v@.len(),
            forall|j: int| 0 <= j < k ==> !e@.contains(#[trigger] v@[j]),
        decreases v.len() - k,
    {
        if vec_contains(e, v[k]) {
            return true;
        }
        k += 1;
    }
    false
}

/// See `final_ok`.
pub(crate) fn final_ok_exec(d: &Document, e: &[usize], x: usize, rc: Combinator) -> (r: bool)
    requires
        d.wf(),
        d.valid(x as int),
    ensures
        r == final_ok(d, e@, x as int, rc),
{
    assert(d@[x as int] == d.nodes@[x as int]@);
    match rc {
        Combinator::Parent => match d.nodes[x].parent {
            Some(p) => vec_contains(e, p),
            None => false,
        },
        Combinator::ParentAll => ancestor_in(d, e, x),
        Combinator::Prev => {
            let ps = prev_sibs_exec(d, x);
            ps.len() > 0 && vec_contains(e, ps[ps.len() - 1])
        },
        Combinator::PrevAll => {
            let ps = prev_sibs_exec(d, x);
            any_in(e, &ps)
        },
        Combinator::Chain => vec_contains(e, x),
        _ => false,
    }
}

/// See `desc_of`.
pub fn desc_of_exec(d: &Document, cs: &[usize], fuel: usize) -> (r: Vec<usize>)
    requires
        d.wf(),
        forall|k: int| 0 <= k < cs@.len() ==> d.is_elem(#[trigger] cs@[k] as int),
    ensures
        r@ == desc_of(d, cs@, fuel as nat),
        forall|k: int| 0 <= k < r@.len() ==> d.is_elem(#[trigger] r@[k] as int),
    decreases fuel, cs@.len(),
{
    if cs.len() == 0 || fuel == 0 {
        return Vec::new();
    }
    let n = cs.len();
    let (init, last) = cs.split_at(n - 1);
    assert(init@ =~= cs@.drop_last());
    assert(last@[0] == cs@.last());
    let mut r = desc_of_exec(d, init, fuel);
    let x = last[0];
    assert(d.is_elem(cs@[n - 1] as int));
    r.push(x);
    let kids = d.children(x);
    let mut sub = desc_of_exec(d, kids.as_slice(), fuel - 1);
    r.append(&mut sub);
    r
}

/// The element descendants of `x` in document order (see `descendants`).
pub fn descendants_exec(d: &Document, x: usize) -> (r: Vec<usize>)
    requires
        d.wf(),
        d.valid(x as int),
    ensures
        r@ == descendants(d, x as int),
        forall|k: int| 0 <= k < r@.len() ==> d.is_elem(#[trigger] r@[k] as int),
{
    let kids = d.children(x);
    desc_of_exec(d, kids.as_slice(), d.nodes.len())
}


/// The queries of the processes of a selector, as plain values.
pub open spec fn procs_view(ps: Seq<crate::selector::QueryProcess>) -> Seq<Seq<Seq<(MK, Combinator)>>> {
    ps.map_values(|p: crate::selector::QueryProcess| compounds_view(p.query@))
}

proof fn lemma_compounds_view(rules: Seq<Rule>, q: Seq<Vec<SelectorSegment>>, s: Seq<Seq<SpecSeg>>)
    requires
        crate::selector::compounds_made(rules, q, s),
    ensures
        compounds_view(q) == spec_compounds_mk(rules, s),
{
    assert forall|c: int| 0 <= c < q.len() implies #[trigger] compounds_view(q)[c] == spec_compounds_mk(rules, s)[c] by {
        assert(crate::selector::compound_made(rules, q[c]@, s[c]));
        assert forall|k: int| 0 <= k < q[c]@.len() implies #[trigger] compound_view(q[c]@)[k] == s[c].map_values(
            |x: SpecSeg| spec_seg_mk(rules, x),
        )[k] by {
            assert(crate::selector::seg_made(rules, q[c]@[k], s[c][k]));
            lemma_made_mk(rules[s[c][k].0].kind, s[c][k].1, q[c]@[k].0.kind);
        }
        assert(compound_view(q[c]@) =~= s[c].map_values(|x: SpecSeg| spec_seg_mk(rules, x)));
    }
    assert(compounds_view(q) =~= spec_compounds_mk(rules, s));
}

/// The queries of a selector made of parsed groups without the lookup
/// optimization, as plain values.
pub proof fn lemma_selector_view(rules: Seq<Rule>, sel: crate::selector::Selector, groups: Seq<Seq<Seq<SpecSeg>>>)
    requires
        crate::selector::selector_made(rules, sel, groups, false),
    ensures
        procs_view(sel.process@) == Seq::new(
            groups.len(),
            |g: int| spec_compounds_mk(rules, spec_optimize_group(rules, groups[g], false).1),
        ),
{
    assert forall|g: int| 0 <= g < groups.len() implies #[trigger] procs_view(sel.process@)[g] == spec_compounds_mk(
        rules,
        spec_optimize_group(rules, groups[g], false).1,
    ) by {
        assert(crate::selector::process_made(rules, sel.process@[g], spec_optimize_group(rules, groups[g], false)));
        lemma_compounds_view(rules, sel.process@[g].query@, spec_optimize_group(rules, groups[g], false).1);
    }
    assert(procs_view(sel.process@) =~= Seq::new(
        groups.len(),
        |g: int| spec_compounds_mk(rules, spec_optimize_group(rules, groups[g], false).1),
    ));
}

/// The selector of a nested selector text, parsed with the document's rules
/// without the lookup optimization.
fn nested_selector(d: &Document, v: &Vec<char>) -> (r: Option<crate::selector::Selector>)
    requires
        d.wf(),
    ensures
        r is Some <==> nested_queries(d, v@) is Some,
        r matches Some(sel) ==> procs_view(sel.process@) == nested_queries(d, v@).unwrap(),
{
    if v.len() >= usize::MAX {
        return None;
    }
    let text = crate::chars::chars_to_string(v.as_slice());
    proof {
        crate::selector::lemma_rules_prios(d.rules@);
    }
    match crate::selector::Selector::parse_with(text.as_str(), d.rules.as_slice(), d.splitter.as_slice(), false) {
        Ok(sel) => {
            proof {
                lemma_selector_view(
                    d.rules@,
                    sel,
                    crate::selector::spec_parse(d.rules@, d.splitter@, v@).unwrap(),
                );
            }
            Some(sel)
        },
        Err(_) => None,
    }
}

/// See `head_comb`.
pub fn head_comb_exec(c: &Vec<SelectorSegment>) -> (r: Option<Combinator>)
    ensures
        r == head_comb(compound_view(c@)),
{
    if c.len() == 0 {
        return None;
    }
    let comb = c[0].1;
    if comb == Combinator::ChildrenAll || comb == Combinator::Children || comb == Combinator::NextAll
        || comb == Combinator::Next || comb == Combinator::Chain {
        Some(comb.reverse())
    } else {
        None
    }
}

/// See `mk_match`.
pub fn mk_match_exec(d: &Document, x: usize, m: &MatcherKind, depth: usize) -> (r: bool)
    requires
        d.wf(),
        d.valid(x as int),
    ensures
        r == mk_match(d, x as int, mk_view(*m), depth as nat),
    decreases depth, 0nat, 0nat,
{
    match m {
        MatcherKind::Not(v) => {
            if depth == 0 {
                return false;
            }
            match nested_selector(d, v) {
                Some(sel) => !sel_filter_exec(d, x, sel.process.as_slice(), depth - 1),
                None => false,
            }
        },
        MatcherKind::Has(v) => {
            if depth == 0 {
                return false;
            }
            match nested_selector(d, v) {
                Some(sel) => {
                    let ds = descendants_exec(d, x);
                    any_filter(d, &ds, sel.process.as_slice(), depth - 1)
                },
                None => false,
            }
        },
        MatcherKind::Alias(v) => {
            if depth == 0 {
                return false;
            }
            match nested_selector(d, v) {
                Some(sel) => sel_filter_exec(d, x, sel.process.as_slice(), depth - 1),
                None => false,
            }
        },
        _ => local_match_exec(d, x, m),
    }
}

/// Some node of `ds` passes one of the queries as a filter.
pub(crate) fn any_filter(d: &Document, ds: &Vec<usize>, ps: &[crate::selector::QueryProcess], depth: usize) -> (r: bool)
    requires
        d.wf(),
        forall|j: int| 0 <= j < ds@.len() ==> d.is_elem(#[trigger] ds@[j] as int),
    ensures
        r == (exists|k: int| 0 <= k < ds@.len() && sel_filter(d, #[trigger] ds@[k] as int, procs_view(ps@), depth as nat)),
    decreases depth, 5nat, 0nat,
{
    let mut k: usize = 0;
    while k < ds.len()
        invariant
            d.wf(),
            forall|j: int| 0 <= j < ds@.len() ==> d.is_elem(#[trigger] ds@[j] as int),
            k <= ds@.len(),
            forall|j: int| 0 <= j < k ==> !sel_filter(d, #[trigger] ds@[j] as int, procs_view(ps@), depth as nat),
        decreases ds.len() - k,
    {
        assert(d.is_elem(ds@[k as int] as int));
        if sel_filter_exec(d, ds[k], ps, depth) {
            return true;
        }
        k += 1;
    }
    false
}

/// See `compound_ok`.
pub fn compound_ok_exec(d: &Document, x: usize, c: &[SelectorSegment], depth: usize) -> (r: bool)
    requires
        d.wf(),
        d.valid(x as int),
    ensures
        r == compound_ok(d, x as int, compound_view(c@), depth as nat),
    decreases depth, 1nat, c@.len(),
{
    if c.len() == 0 {
        return false || true;
    }
    let n = c.len();
    let (init, last) = c.split_at(n - 1);
    assert(compound_view(init@) =~= compound_view(c@).drop_last());
    assert(last@[0] == c@[n - 1]);
    compound_ok_exec(d, x, init, depth) && mk_match_exec(d, x, &last[0].0.kind, depth)
}

/// See `lookup_ok`.
pub fn lookup_ok_exec(
    d: &Document,
    e: &[usize],
    x: usize,
    rc: Option<Combinator>,
    lookup: &[Vec<SelectorSegment>],
    depth: usize,
) -> (r: bool)
    requires
        d.wf(),
        d.valid(x as int),
    ensures
        r == lookup_ok(d, e@, x as int, rc, compounds_view(lookup@), depth as nat),
    decreases depth, 2nat, lookup@.len(),
{
    let rcv = match rc {
        None => {
            return false;
        },
        Some(c) => c,
    };
    if lookup.len() == 0 {
        return final_ok_exec(d, e, x, rcv);
    }
    let n = lookup.len();
    let (init, last) = lookup.split_at(n - 1);
    let c = &last[0];
    assert(compounds_view(init@) =~= compounds_view(lookup@).drop_last());
    assert(compound_view(c@) == compounds_view(lookup@).last());
    let hc = head_comb_exec(c);
    let cs = cands_exec(d, rcv, x);
    let mut k: usize = 0;
    while k < cs.len()
        invariant
            d.wf(),
            d.valid(x as int),
            init@.len() < lookup@.len(),
            rc == Some(rcv),
            lookup@.len() > 0,
            compound_view(c@) == compounds_view(lookup@).last(),
            compounds_view(init@) == compounds_view(lookup@).drop_last(),
            hc == head_comb(compound_view(c@)),
            cs@ == cands(d, rcv, x as int),
            forall|j: int| 0 <= j < cs@.len() ==> d.valid(#[trigger] cs@[j] as int),
            k <= cs@.len(),
            forall|j: int|
                0 <= j < k ==> !(compound_ok(d, #[trigger] cs@[j] as int, compound_view(c@), depth as nat) && lookup_ok(
                    d,
                    e@,
                    cs@[j] as int,
                    hc,
                    compounds_view(init@),
                    depth as nat,
                )),
        decreases cs.len() - k,
    {
        let y = cs[k];
        assert(d.valid(cs@[k as int] as int));
        if compound_ok_exec(d, y, c.as_slice(), depth) && lookup_ok_exec(d, e, y, hc, init, depth) {
            assert(cands(d, rcv, x as int)[k as int] == y);
            return true;
        }
        k += 1;
    }
    false
}

/// See `query_filter`.
pub fn query_filter_exec(d: &Document, x: usize, q: &[Vec<SelectorSegment>], depth: usize) -> (r: bool)
    requires
        d.wf(),
        d.valid(x as int),
    ensures
        r == query_filter(d, x as int, compounds_view(q@), depth as nat),
    decreases depth, 3nat, 0nat,
{
    if q.len() == 0 {
        return false;
    }
    let n = q.len();
    let last = &q[n - 1];
    assert(compound_view(last@) == compounds_view(q@).last());
    if !compound_ok_exec(d, x, last.as_slice(), depth) {
        return false;
    }
    if n == 1 {
        return true;
    }
    let (init, _) = q.split_at(n - 1);
    assert(compounds_view(init@) =~= compounds_view(q@).drop_last());
    let root: Vec<usize> = vec![0];
    assert(root@ =~= seq![0usize]);
    let hc = head_comb_exec(last);
    lookup_ok_exec(d, root.as_slice(), x, hc, init, depth)
}

/// See `sel_filter`.
pub fn sel_filter_exec(d: &Document, x: usize, ps: &[crate::selector::QueryProcess], depth: usize) -> (r: bool)
    requires
        d.wf(),
        d.valid(x as int),
    ensures
        r == sel_filter(d, x as int, procs_view(ps@), depth as nat),
    decreases depth, 4nat, ps@.len(),
{
    if ps.len() == 0 {
        return false;
    }
    let n = ps.len();
    let (init, last) = ps.split_at(n - 1);
    assert(procs_view(init@) =~= procs_view(ps@).drop_last());
    assert(compounds_view(last@[0].query@) == procs_view(ps@).last());
    sel_filter_exec(d, x, init, depth) || query_filter_exec(d, x, last[0].query.as_slice(), depth)
}

} // verus!
