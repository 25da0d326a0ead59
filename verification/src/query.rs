//! The selector methods of element sets: find, filter, traversal.
use crate::chars::str_chars;
use crate::dom::Document;
use crate::error::{error_message, invalid_selector, selector_error, Error};
use crate::elements::{
    all_valid, filter_all, filter_all_exec, filtered, find_in, find_in_exec, merge, merge_exec, proc_view, procs_views,
    Elements, ProcV,
};
use crate::matching::{
    compound_view, compounds_view, descendants, descendants_exec, lemma_made_mk, sel_filter, spec_compounds_mk,
    procs_view, sel_filter_exec, MK,
};
use crate::rule::Rule;
use crate::selector::{
    all_matcher, compounds_made, process_made, selector_made, spec_led_by, spec_optimize_group, spec_parse,
    spec_process_led, Combinator, QueryProcess, Selector, SelectorSegment, SpecSeg,
};
use vstd::prelude::*;

verus! {

/// A query of a parsed selector as plain values.
pub open spec fn proc_spec(rules: Seq<Rule>, p: (Option<Seq<Seq<SpecSeg>>>, Seq<Seq<SpecSeg>>)) -> ProcV {
    (
        match p.0 {
            Some(s) => Some(spec_compounds_mk(rules, s)),
            None => None,
        },
        spec_compounds_mk(rules, p.1),
    )
}

/// The queries of a selector text parsed with the document's rules, each
/// group optimized (with the lookup optimization when `use_lookup`); `None`
/// when the text does not parse.
pub open spec fn parsed_queries(d: &Document, text: Seq<char>, use_lookup: bool) -> Option<Seq<ProcV>> {
    if text.len() >= usize::MAX {
        None
    } else {
        match spec_parse(d.rules@, d.splitter@, text) {
            Err(_) => None,
            Ok(groups) => Some(
                Seq::new(
                    groups.len(),
                    |g: int| proc_spec(d.rules@, spec_optimize_group(d.rules@, groups[g], use_lookup)),
                ),
            ),
        }
    }
}

proof fn lemma_compounds_view2(rules: Seq<Rule>, q: Seq<Vec<SelectorSegment>>, s: Seq<Seq<SpecSeg>>)
    requires
        compounds_made(rules, q, s),
    ensures
        compounds_view(q) == spec_compounds_mk(rules, s),
{
    assert forall|c: int| 0 <= c < q.len() implies #[trigger] compounds_view(q)[c] == spec_compounds_mk(rules, s)[c] by {
        assert(crate::selector::compound_made(rules, q[c]@, s[c]));
        assert forall|k: int| 0 <= k < q[c]@.len() implies #[trigger] compound_view(q[c]@)[k] == s[c].map_values(
            |x: SpecSeg| crate::matching::spec_seg_mk(rules, x),
        )[k] by {
            assert(crate::selector::seg_made(rules, q[c]@[k], s[c][k]));
            lemma_made_mk(rules[s[c][k].0].kind, s[c][k].1, q[c]@[k].0.kind);
        }
        assert(compound_view(q[c]@) =~= s[c].map_values(|x: SpecSeg| crate::matching::spec_seg_mk(rules, x)));
    }
    assert(compounds_view(q) =~= spec_compounds_mk(rules, s));
}

proof fn lemma_procs_views(rules: Seq<Rule>, sel: Selector, groups: Seq<Seq<Seq<SpecSeg>>>, use_lookup: bool)
    requires
        selector_made(rules, sel, groups, use_lookup),
    ensures
        procs_views(sel.process@) == Seq::new(
            groups.len(),
            |g: int| proc_spec(rules, spec_optimize_group(rules, groups[g], use_lookup)),
        ),
{
    assert forall|g: int| 0 <= g < groups.len() implies #[trigger] procs_views(sel.process@)[g] == proc_spec(
        rules,
        spec_optimize_group(rules, groups[g], use_lookup),
    ) by {
        let p = sel.process@[g];
        let o = spec_optimize_group(rules, groups[g], use_lookup);
        assert(process_made(rules, p, o));
        lemma_compounds_view2(rules, p.query@, o.1);
        match (p.should_in, o.0) {
            (Some(x), Some(y)) => {
                lemma_compounds_view2(rules, x@, y);
            },
            _ => {},
        }
    }
    assert(procs_views(sel.process@) =~= Seq::new(
        groups.len(),
        |g: int| proc_spec(rules, spec_optimize_group(rules, groups[g], use_lookup)),
    ));
}

/// Parses a selector text with the document's rules (see `parsed_queries`).
pub fn parse_queries(d: &Document, text: &str, use_lookup: bool) -> (r: Option<Selector>)
    requires
        d.wf(),
    ensures
        r is Some <==> parsed_queries(d, text@, use_lookup) is Some,
        r matches Some(sel) ==> procs_views(sel.process@) == parsed_queries(d, text@, use_lookup).unwrap(),
{
    match parse_queries_checked(d, text, use_lookup) {
        Ok(sel) => Some(sel),
        Err(_) => None,
    }
}

/// The selector text parsed with the document's rules (see
/// `parsed_queries`), or the error of a text that does not parse (see
/// `selector_error`).
pub fn parse_queries_checked(d: &Document, text: &str, use_lookup: bool) -> (r: Result<Selector, Error>)
    requires
        d.wf(),
    ensures
        r is Ok <==> parsed_queries(d, text@, use_lookup) is Some,
        r matches Ok(sel) ==> procs_views(sel.process@) == parsed_queries(d, text@, use_lookup).unwrap(),
        r matches Err(e) ==> selector_error(e, text@),
{
    let chars = str_chars(text);
    let n = chars.len();
    if n >= usize::MAX {
        return Err(invalid_selector(chars.as_slice(), "Selector too long at index ", n));
    }
    proof {
        crate::selector::lemma_rules_prios(d.rules@);
    }
    match Selector::parse_with(text, d.rules.as_slice(), d.splitter.as_slice(), use_lookup) {
        Ok(sel) => {
            proof {
                lemma_procs_views(d.rules@, sel, spec_parse(d.rules@, d.splitter@, text@).unwrap(), use_lookup);
            }
            Ok(sel)
        },
        Err(e) => Err(e),
    }
}

/// The compounds `q` with the first joined by `comb` in place of the
/// descendant combinator, or led by a `*` joined by `comb`.
pub open spec fn lead_view(q: Seq<Seq<(MK, Combinator)>>, comb: Combinator) -> Seq<Seq<(MK, Combinator)>> {
    if q.len() == 0 {
        q
    } else if q[0].len() > 0 && q[0][0].1 is ChildrenAll {
        q.update(0, q[0].update(0, (q[0][0].0, comb)))
    } else {
        seq![seq![(MK::All, comb)]] + q
    }
}

/// A query led by `comb` (see `lead_view`): its lookup part where it has
/// one, else its compounds.
pub open spec fn lead_proc(p: ProcV, comb: Combinator) -> ProcV {
    match p.0 {
        Some(s) => (Some(lead_view(s, comb)), p.1),
        None => (None, lead_view(p.1, comb)),
    }
}

proof fn lemma_led_view(v: Seq<Vec<SelectorSegment>>, v2: Seq<Vec<SelectorSegment>>, comb: Combinator)
    requires
        spec_led_by(v, v2, comb),
    ensures
        compounds_view(v2) == lead_view(compounds_view(v), comb),
{
    if v.len() == 0 {
    } else if v[0]@.len() > 0 && v[0]@[0].1 is ChildrenAll {
        assert forall|k: int| 0 <= k < v2.len() implies #[trigger] compounds_view(v2)[k] == lead_view(
            compounds_view(v),
            comb,
        )[k] by {
            if k > 0 {
                assert(v2.skip(1)[k - 1] == v.skip(1)[k - 1]);
            } else {
                assert(compound_view(v2[0]@) =~= compound_view(v[0]@).update(0, (compound_view(v[0]@)[0].0, comb)));
            }
        }
        assert(compounds_view(v2) =~= lead_view(compounds_view(v), comb));
    } else {
        assert forall|k: int| 0 <= k < v2.len() implies #[trigger] compounds_view(v2)[k] == lead_view(
            compounds_view(v),
            comb,
        )[k] by {
            if k > 0 {
                assert(v2.skip(1)[k - 1] == v[k - 1]);
            } else {
                assert(compound_view(v2[0]@) =~= seq![(MK::All, comb)]);
            }
        }
        assert(compounds_view(v2) =~= lead_view(compounds_view(v), comb));
    }
}

pub(crate) proof fn lemma_led_procs(ps: Seq<QueryProcess>, ps2: Seq<QueryProcess>, comb: Combinator)
    requires
        ps2.len() == ps.len(),
        forall|i: int| 0 <= i < ps.len() ==> spec_process_led(ps[i], #[trigger] ps2[i], comb),
    ensures
        procs_views(ps2) == procs_views(ps).map_values(|p: ProcV| lead_proc(p, comb)),
{
    assert forall|i: int| 0 <= i < ps.len() implies #[trigger] procs_views(ps2)[i] == procs_views(ps).map_values(
        |p: ProcV| lead_proc(p, comb),
    )[i] by {
        assert(spec_process_led(ps[i], ps2[i], comb));
        match ps[i].should_in {
            Some(s) => {
                lemma_led_view(s@, crate::selector::spec_head(ps2[i]), comb);
            },
            None => {
                lemma_led_view(ps[i].query@, ps2[i].query@, comb);
            },
        }
    }
    assert(procs_views(ps2) =~= procs_views(ps).map_values(|p: ProcV| lead_proc(p, comb)));
}

/// The queries of a selector text led by `comb` (see `lead_proc`): a lone
/// `*` for the empty text.
pub open spec fn comb_queries(d: &Document, text: Seq<char>, comb: Combinator) -> Option<Seq<ProcV>> {
    if text.len() == 0 {
        Some(seq![(None, seq![seq![(MK::All, comb)]])])
    } else {
        match parsed_queries(d, text, false) {
            Some(ps) => Some(ps.map_values(|p: ProcV| lead_proc(p, comb))),
            None => None,
        }
    }
}

/// The nodes that a selector text led by `comb` finds from `e` (see
/// `comb_queries`); none from no nodes or where the text does not parse.
pub open spec fn with_comb(d: &Document, e: Seq<usize>, text: Seq<char>, comb: Combinator) -> Seq<usize> {
    if text.len() > 0 && e.len() == 0 {
        Seq::empty()
    } else {
        match comb_queries(d, text, comb) {
            Some(ps) => find_in(d, e, ps, text.len()),
            None => Seq::empty(),
        }
    }
}

impl Elements {
    /// No elements.
    pub fn new() -> (r: Elements)
        ensures
            r@.len() == 0,
    {
        Elements { nodes: Vec::new() }
    }

    /// The elements given.
    pub fn with_nodes(nodes: Vec<usize>) -> (r: Elements)
        ensures
            r@ == nodes@,
    {
        Elements { nodes }
    }

    /// No elements, with room for `size`.
    pub fn with_capacity(size: usize) -> (r: Elements)
        ensures
            r@.len() == 0,
    {
        Elements { nodes: Vec::with_capacity(size) }
    }

    /// The element at `index`.
    pub fn get(&self, index: usize) -> (r: Option<usize>)
        ensures
            index < self@.len() ==> r == Some(self@[index as int]),
            index >= self@.len() ==> r is None,
    {
        if index < self.nodes.len() {
            Some(self.nodes[index])
        } else {
            None
        }
    }

    /// The elements.
    pub fn get_ref(&self) -> (r: &Vec<usize>)
        ensures
            r@ == self@,
    {
        &self.nodes
    }

    /// The number of elements.
    pub fn length(&self) -> (r: usize)
        ensures
            r == self@.len(),
    {
        self.nodes.len()
    }

    /// There is no element.
    pub fn is_empty(&self) -> (r: bool)
        ensures
            r == (self@.len() == 0),
    {
        self.nodes.len() == 0
    }

    /// A copy of the set.
    pub fn cloned(&self) -> (r: Elements)
        ensures
            r@ == self@,
    {
        Elements { nodes: crate::elements::copy_ids(&self.nodes) }
    }

    /// The descendants of the elements that the selector finds (see
    /// `find_in`), in document order; none where the selector does not
    /// parse.
    pub fn find(&self, d: &Document, selector: &str) -> (r: Elements)
        requires
            d.wf(),
            all_valid(d, self@),
        ensures
            r@ == match parsed_queries(d, selector@, true) {
                Some(ps) => find_in(d, self@, ps, selector@.len() as nat),
                None => Seq::empty(),
            },
            all_valid(d, r@),
    {
        match parse_queries(d, selector, true) {
            Some(sel) => {
                let depth = str_chars(selector).len();
                Elements { nodes: find_in_exec(d, &self.nodes, &sel.process, depth) }
            },
            None => Elements::new(),
        }
    }

    /// The selector text parsed without the lookup optimization, when there
    /// are elements to test.
    fn trigger(&self, d: &Document, selector: &str) -> (r: Option<Selector>)
        requires
            d.wf(),
        ensures
            self@.len() == 0 ==> r is None,
            self@.len() > 0 ==> (r is Some <==> parsed_queries(d, selector@, false) is Some),
            r matches Some(sel) ==> procs_views(sel.process@) == parsed_queries(d, selector@, false).unwrap(),
    {
        if self.nodes.len() == 0 {
            return None;
        }
        parse_queries(d, selector, false)
    }

    /// The elements that pass the selector as a filter (see `filter_all`);
    /// none where it does not parse.
    pub fn filter(&self, d: &Document, selector: &str) -> (r: Elements)
        requires
            d.wf(),
            all_valid(d, self@),
        ensures
            r@ == match parsed_queries(d, selector@, false) {
                Some(ps) => filter_all(d, self@, ps, selector@.len() as nat),
                None => Seq::empty(),
            },
            all_valid(d, r@),
    {
        match self.trigger(d, selector) {
            Some(sel) => {
                let depth = str_chars(selector).len();
                Elements { nodes: filter_all_exec(d, &self.nodes, &sel.process, depth) }
            },
            None => {
                if self.nodes.len() == 0 {
                    assert(filter_all(d, self@, parsed_queries(d, selector@, false).unwrap(), selector@.len() as nat)
                        =~= Seq::<usize>::empty()) by {
                        lemma_filter_all_empty(d, self@, parsed_queries(d, selector@, false).unwrap(), selector@.len() as nat);
                    }
                }
                Elements::new()
            },
        }
    }
}

/// The error that a method named `method` hands to the error handler for
/// the selector text `s` that does not parse: a `MethodOnInvalidSelector`
/// carrying the message of the selector's error (see `selector_error`).
pub open spec fn method_error(e: Error, method: Seq<char>, s: Seq<char>) -> bool {
    match e {
        Error::MethodOnInvalidSelector { method: m, error } => m@ == method && exists|x: Error|
            selector_error(x, s) && error@ == #[trigger] error_message(&x),
        _ => false,
    }
}

impl Elements {
    /// `find`, where a selector that does not parse is also reported: the
    /// handler is given a `MethodOnInvalidSelector` error of `find` (see
    /// `method_error`) and the set that comes back is empty.
    pub fn find_catch<F: Fn(Error)>(&self, d: &Document, selector: &str, handle: F) -> (r: Elements)
        requires
            d.wf(),
            all_valid(d, self@),
            forall|e: Error| call_requires(handle, (e,)),
            self@.len() > 0 || parsed_queries(d, selector@, true) is Some,
        ensures
            r@ == match parsed_queries(d, selector@, true) {
                Some(ps) => find_in(d, self@, ps, selector@.len() as nat),
                None => Seq::empty(),
            },
            all_valid(d, r@),
            parsed_queries(d, selector@, true) is None ==> exists|e: Error|
                call_ensures(handle, (e,), ()) && #[trigger] method_error(e, "find"@, selector@),
    {
        match parse_queries_checked(d, selector, true) {
            Ok(sel) => {
                let depth = str_chars(selector).len();
                Elements { nodes: find_in_exec(d, &self.nodes, &sel.process, depth) }
            },
            Err(x) => {
                let e = Error::MethodOnInvalidSelector { method: String::from_str("find"), error: x.message() };
                assert(method_error(e, "find"@, selector@));
                handle(e);
                Elements::new()
            },
        }
    }

    /// Whether the selector text parses, for a method named `method` that
    /// takes one (`is`, `not`, `has`, `closest`, ...): where it does not
    /// and there are elements, the handler is given a
    /// `MethodOnInvalidSelector` error of that method (see `method_error`).
    pub fn check_selector<F: Fn(Error)>(&self, d: &Document, method: &str, selector: &str, handle: F) -> (r: bool)
        requires
            d.wf(),
            forall|e: Error| call_requires(handle, (e,)),
        ensures
            r == parsed_queries(d, selector@, false) is Some,
            self@.len() > 0 && !r ==> exists|e: Error|
                call_ensures(handle, (e,), ()) && #[trigger] method_error(e, method@, selector@),
    {
        match parse_queries_checked(d, selector, false) {
            Ok(_) => true,
            Err(x) => {
                if self.nodes.len() > 0 {
                    let e = Error::MethodOnInvalidSelector { method: String::from_str(method), error: x.message() };
                    assert(method_error(e, method@, selector@));
                    handle(e);
                }
                false
            },
        }
    }

    /// `filter`, where a selector that does not parse is also reported when
    /// there are elements to test: the handler is given a
    /// `MethodOnInvalidSelector` error of `filter` (see `method_error`) and
    /// the set that comes back is empty.
    pub fn filter_catch<F: Fn(Error)>(&self, d: &Document, selector: &str, handle: F) -> (r: Elements)
        requires
            d.wf(),
            all_valid(d, self@),
            forall|e: Error| call_requires(handle, (e,)),
        ensures
            r@ == match parsed_queries(d, selector@, false) {
                Some(ps) => filter_all(d, self@, ps, selector@.len() as nat),
                None => Seq::empty(),
            },
            all_valid(d, r@),
            self@.len() > 0 && parsed_queries(d, selector@, false) is None ==> exists|e: Error|
                call_ensures(handle, (e,), ()) && #[trigger] method_error(e, "filter"@, selector@),
    {
        if self.nodes.len() == 0 {
            return self.filter(d, selector);
        }
        match parse_queries_checked(d, selector, false) {
            Ok(_) => self.filter(d, selector),
            Err(x) => {
                let e = Error::MethodOnInvalidSelector { method: String::from_str("filter"), error: x.message() };
                assert(method_error(e, "filter"@, selector@));
                handle(e);
                Elements::new()
            },
        }
    }
}

/// Nothing passes a filter from no nodes.
pub proof fn lemma_filter_all_empty(d: &Document, e: Seq<usize>, ps: Seq<ProcV>, depth: nat)
    requires
        e.len() == 0,
    ensures
        filter_all(d, e, ps, depth).len() == 0,
    decreases ps.len(),
{
    if ps.len() > 0 {
        lemma_filter_all_empty(d, e, ps.drop_last(), depth);
        assert(filtered(d, e, ps.last().1, depth) =~= Seq::<usize>::empty()) by {
            reveal(Seq::filter);
        }
    }
}

} // verus!
