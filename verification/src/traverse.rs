//! Filters and walks over element sets by selector text: `is`, `not`,
//! `has`, the relatives of each element and the walks until a selector.
use crate::chars::{spec_trim, str_chars, trim_chars, chars_to_string};
use crate::dom::Document;
use crate::elements::{
    all_sibs, all_sibs_exec, all_valid, concat_map, filter_all, filter_all_exec, filtered, filtered_exec, find_in,
    find_in_exec, first_of_parents, first_of_parents_exec, ins, ins_exec, last_of_parents, last_of_parents_exec,
    proc_view, procs_views, sort_unique, sort_unique_exec, Elements, ProcV,
};
use crate::matching::{
    any_filter, ancestors_below_root, ancestors_exec, compounds_view, descendants, descendants_exec, next_sibs,
    next_sibs_exec, prev_sibs, prev_sibs_exec, procs_view, sel_filter, MK,
};
use crate::query::{comb_queries, lead_proc, lemma_led_procs, parse_queries, parsed_queries, with_comb};
use crate::selector::{Combinator, QueryProcess, Selector};
use crate::sets::kept_in;
use vstd::prelude::*;

verus! {

/// Some query keeps some node of `e` as a filter.
pub open spec fn some_filtered(d: &Document, e: Seq<usize>, ps: Seq<ProcV>, depth: nat) -> bool {
    exists|i: int| 0 <= i < ps.len() && filtered(d, e, (#[trigger] ps[i]).1, depth).len() > 0
}

/// The compounds of each query.
pub open spec fn queries_of(ps: Seq<ProcV>) -> Seq<Seq<Seq<(MK, Combinator)>>> {
    ps.map_values(|p: ProcV| p.1)
}

/// A descendant element of `x` passes one of the queries `qs` as a filter.
pub open spec fn has_desc(d: &Document, x: usize, qs: Seq<Seq<Seq<(MK, Combinator)>>>, depth: nat) -> bool {
    exists|k: int|
        0 <= k < descendants(d, x as int).len() && sel_filter(d, #[trigger] descendants(d, x as int)[k] as int, qs, depth)
}

proof fn lemma_queries_of(ps: Seq<QueryProcess>)
    ensures
        procs_view(ps) == queries_of(procs_views(ps)),
{
    assert(procs_view(ps) =~= queries_of(procs_views(ps)));
}

/// The first node of `s` that some query keeps as a filter, alone; none
/// where there is none.
pub open spec fn first_match(d: &Document, s: Seq<usize>, ps: Seq<ProcV>, depth: nat) -> Seq<usize>
    decreases s.len(),
{
    if s.len() == 0 {
        Seq::empty()
    } else if some_filtered(d, seq![s[0]], ps, depth) {
        seq![s[0]]
    } else {
        first_match(d, s.drop_first(), ps, depth)
    }
}

/// The nearest of `x` and its ancestors below the root that a query keeps.
pub open spec fn closest_of(d: &Document, x: usize, ps: Seq<ProcV>, depth: nat) -> Seq<usize> {
    first_match(d, seq![x] + ancestors_below_root(d, x as int, d.fuel()), ps, depth)
}

/// The nodes that a walk from `x` over `comb` passes, in order: the
/// ancestors below the root (`Parent`), the next siblings (`Next`), or the
/// previous siblings from the nearest (`Prev`).
pub open spec fn walk_chain(d: &Document, x: usize, comb: Combinator) -> Seq<usize> {
    match comb {
        Combinator::Parent => ancestors_below_root(d, x as int, d.fuel()),
        Combinator::Next => next_sibs(d, x as int),
        _ => prev_sibs(d, x as int).reverse(),
    }
}

/// The nodes of a walk up to the first that the queries `until` keep (kept
/// itself when `contains`), those that the queries `fil` keep where given.
pub open spec fn until_list(
    d: &Document,
    chain: Seq<usize>,
    until: Seq<ProcV>,
    ud: nat,
    fil: Option<Seq<ProcV>>,
    fd: nat,
    contains: bool,
) -> Seq<usize>
    decreases chain.len(),
{
    if chain.len() == 0 {
        Seq::empty()
    } else {
        let y = chain[0];
        let meet = some_filtered(d, seq![y], until, ud);
        if meet && !contains {
            Seq::empty()
        } else {
            let add = match fil {
                Some(f) => some_filtered(d, seq![y], f, fd),
                None => true,
            };
            (if add {
                seq![y]
            } else {
                Seq::empty()
            }) + (if meet {
                Seq::empty()
            } else {
                until_list(d, chain.drop_first(), until, ud, fil, fd, contains)
            })
        }
    }
}

/// The walks from each node of `e` over `comb` until the selector text
/// `text`, filtered by `filter` where it is not empty; none where a text
/// does not parse.
pub open spec fn until_spec(
    d: &Document,
    e: Seq<usize>,
    text: Seq<char>,
    filter: Seq<char>,
    contains: bool,
    comb: Combinator,
) -> Seq<usize> {
    match parsed_queries(d, text, true) {
        None => Seq::empty(),
        Some(us) => {
            let fil = if filter.len() == 0 {
                Some(None)
            } else {
                match parsed_queries(d, filter, true) {
                    None => None,
                    Some(fs) => Some(Some(fs)),
                }
            };
            match fil {
                None => Seq::empty(),
                Some(f) => concat_map(
                    e,
                    |x: usize| until_list(d, walk_chain(d, x, comb), us, text.len(), f, filter.len(), contains),
                ),
            }
        },
    }
}

/// The nodes of `s` in document order, nodes at the same place in the
/// order they come.
pub open spec fn sort_nodes(d: &Document, s: Seq<usize>) -> Seq<usize>
    decreases s.len(),
{
    if s.len() == 0 {
        Seq::empty()
    } else {
        ins(d, sort_nodes(d, s.drop_last()), s.last())
    }
}

/// For each entry of `all_sibs`: what the queries `pc` find from a parent,
/// or what the queries `ps` find from a node, in turn.
pub open spec fn sibs_find(
    d: &Document,
    u: Seq<(usize, bool, usize)>,
    pc: Seq<ProcV>,
    ps: Seq<ProcV>,
    depth: nat,
) -> Seq<usize>
    decreases u.len(),
{
    if u.len() == 0 {
        Seq::empty()
    } else {
        sibs_find(d, u.drop_last(), pc, ps, depth) + find_in(
            d,
            seq![u.last().0],
            if u.last().1 {
                pc
            } else {
                ps
            },
            depth,
        )
    }
}

/// A `*` over `comb`, as queries.
pub open spec fn all_queries(comb: Combinator) -> Seq<ProcV> {
    seq![(None, seq![seq![(MK::All, comb)]])]
}

/// The siblings of the nodes of `e` that the trimmed selector text finds,
/// in document order; none where it does not parse.
pub open spec fn siblings_spec(d: &Document, e: Seq<usize>, text: Seq<char>) -> Seq<usize> {
    let t = spec_trim(text);
    if t.len() == 0 {
        sort_nodes(
            d,
            sibs_find(d, all_sibs(d, e), all_queries(Combinator::Children), all_queries(Combinator::Siblings), 0),
        )
    } else {
        match parsed_queries(d, t, true) {
            None => Seq::empty(),
            Some(ps) => sort_nodes(
                d,
                sibs_find(
                    d,
                    all_sibs(d, e),
                    ps.map_values(|p: ProcV| lead_proc(p, Combinator::Children)),
                    ps.map_values(|p: ProcV| lead_proc(p, Combinator::Siblings)),
                    t.len(),
                ),
            ),
        }
    }
}

/// The nodes of `e` that a query keeps, and for the others the nearest
/// ancestor that one keeps (see `closest_of`).
pub open spec fn closest_spec(d: &Document, e: Seq<usize>, text: Seq<char>) -> Seq<usize> {
    if text.len() == 0 {
        Seq::empty()
    } else {
        match parsed_queries(d, text, true) {
            None => Seq::empty(),
            Some(ps) => {
                let depth = text.len();
                let own = e.filter(|x: usize| some_filtered(d, seq![x], ps, depth));
                let props = e.filter(|x: usize| !some_filtered(d, seq![x], ps, depth));
                if props.len() == 0 {
                    own
                } else {
                    sort_unique(
                        d,
                        own + concat_map(first_of_parents(d, props), |x: usize| closest_of(d, x, ps, depth)),
                    )
                }
            },
        }
    }
}

/// See `some_filtered`.
fn some_filtered_exec(d: &Document, e: &Vec<usize>, ps: &Vec<QueryProcess>, depth: usize) -> (r: bool)
    requires
        d.wf(),
        all_valid(d, e@),
    ensures
        r == some_filtered(d, e@, procs_views(ps@), depth as nat),
{
    let ghost pv = procs_views(ps@);
    let mut i: usize = 0;
    while i < ps.len()
        invariant
            d.wf(),
            all_valid(d, e@),
            pv == procs_views(ps@),
            i <= ps@.len(),
            forall|j: int| 0 <= j < i ==> filtered(d, e@, (#[trigger] pv[j]).1, depth as nat).len() == 0,
        decreases ps.len() - i,
    {
        assert(pv[i as int] == proc_view(ps@[i as int]));
        let f = filtered_exec(d, e, &ps[i].query, depth);
        if f.len() > 0 {
            return true;
        }
        i += 1;
    }
    false
}

/// `x` alone, passed to the queries as a filter.
fn one_filtered(d: &Document, x: usize, ps: &Vec<QueryProcess>, depth: usize) -> (r: bool)
    requires
        d.wf(),
        d.valid(x as int),
    ensures
        r == some_filtered(d, seq![x], procs_views(ps@), depth as nat),
{
    let v = vec![x];
    assert(v@ =~= seq![x]);
    some_filtered_exec(d, &v, ps, depth)
}

/// See `sort_nodes`.
fn sort_nodes_exec(d: &Document, s: &Vec<usize>) -> (r: Vec<usize>)
    requires
        d.wf(),
        all_valid(d, s@),
    ensures
        r@ == sort_nodes(d, s@),
        all_valid(d, r@),
{
    let mut a: Vec<usize> = Vec::new();
    let mut i: usize = 0;
    assert(s@.take(0) =~= Seq::<usize>::empty());
    while i < s.len()
        invariant
            d.wf(),
            all_valid(d, s@),
            all_valid(d, a@),
            i <= s@.len(),
            a@ == sort_nodes(d, s@.take(i as int)),
        decreases s.len() - i,
    {
        assert(s@.take(i + 1).drop_last() =~= s@.take(i as int));
        assert(d.valid(s@[i as int] as int));
        ins_exec(d, &mut a, s[i]);
        i += 1;
    }
    assert(s@.take(i as int) =~= s@);
    a
}

/// The selector of a `*` over `comb`.
fn all_selector(comb: Combinator) -> (r: Selector)
    ensures
        procs_views(r.process@) == all_queries(comb),
{
    let sel = Selector::from_segment(Selector::make_comb_all(comb));
    assert(compounds_view(sel.process@[0].query@)[0] =~= seq![(MK::All, comb)]);
    assert(compounds_view(sel.process@[0].query@) =~= seq![seq![(MK::All, comb)]]);
    assert(procs_views(sel.process@) =~= all_queries(comb));
    sel
}

/// The selector text parsed (with the lookup optimization when
/// `use_lookup`), each query led by `comb` (see `lead_proc`).
fn comb_selector(d: &Document, selector: &str, comb: Combinator, use_lookup: bool) -> (r: Option<Selector>)
    requires
        d.wf(),
    ensures
        r is Some <==> parsed_queries(d, selector@, use_lookup) is Some,
        r matches Some(sel) ==> procs_views(sel.process@) == parsed_queries(d, selector@, use_lookup).unwrap().map_values(
            |p: ProcV| lead_proc(p, comb),
        ),
{
    match parse_queries(d, selector, use_lookup) {
        Some(sel) => {
            let mut sel = sel;
            let ghost before = sel.process@;
            sel.head_combinator(comb);
            proof {
                lemma_led_procs(before, sel.process@, comb);
            }
            Some(sel)
        },
        None => None,
    }
}

impl Elements {
    /// What the selector text led by `comb` finds (see `with_comb`).
    fn select_with_comb(&self, d: &Document, selector: &str, comb: Combinator) -> (r: Elements)
        requires
            d.wf(),
            all_valid(d, self@),
        ensures
            r@ == with_comb(d, self@, selector@, comb),
            all_valid(d, r@),
    {
        let n = str_chars(selector).len();
        if n == 0 {
            let sel = all_selector(comb);
            return Elements { nodes: find_in_exec(d, &self.nodes, &sel.process, 0) };
        }
        if self.nodes.len() == 0 {
            return Elements::new();
        }
        match comb_selector(d, selector, comb, false) {
            Some(sel) => Elements { nodes: find_in_exec(d, &self.nodes, &sel.process, n) },
            None => Elements::new(),
        }
    }

    /// Some element passes the selector as a filter (see `some_filtered`);
    /// false where there are no elements or it does not parse.
    pub fn is(&self, d: &Document, selector: &str) -> (r: bool)
        requires
            d.wf(),
            all_valid(d, self@),
        ensures
            r == (self@.len() > 0 && match parsed_queries(d, selector@, false) {
                Some(ps) => some_filtered(d, self@, ps, selector@.len() as nat),
                None => false,
            }),
    {
        if self.nodes.len() == 0 {
            return false;
        }
        match parse_queries(d, selector, false) {
            Some(sel) => {
                let depth = str_chars(selector).len();
                some_filtered_exec(d, &self.nodes, &sel.process, depth)
            },
            None => false,
        }
    }

    /// Every element passes the selector as a filter; false where there are
    /// no elements or it does not parse.
    pub fn is_all(&self, d: &Document, selector: &str) -> (r: bool)
        requires
            d.wf(),
            all_valid(d, self@),
        ensures
            r == (self@.len() > 0 && match parsed_queries(d, selector@, false) {
                Some(ps) => filter_all(d, self@, ps, selector@.len() as nat).len() == self@.len(),
                None => false,
            }),
    {
        if self.nodes.len() == 0 {
            return false;
        }
        match parse_queries(d, selector, false) {
            Some(sel) => {
                let depth = str_chars(selector).len();
                filter_all_exec(d, &self.nodes, &sel.process, depth).len() == self.nodes.len()
            },
            None => false,
        }
    }

    /// The elements that do not pass the selector as a filter: all of them
    /// where none passes; none where there are none or it does not parse.
    pub fn not(&self, d: &Document, selector: &str) -> (r: Elements)
        requires
            d.wf(),
            all_valid(d, self@),
        ensures
            r@ == if self@.len() == 0 {
                Seq::empty()
            } else {
                match parsed_queries(d, selector@, false) {
                    Some(ps) => {
                        let f = filter_all(d, self@, ps, selector@.len() as nat);
                        if f.len() == 0 {
                            self@
                        } else {
                            kept_in(self@, f, 0, false)
                        }
                    },
                    None => Seq::empty(),
                }
            },
    {
        if self.nodes.len() == 0 {
            return Elements::new();
        }
        match parse_queries(d, selector, false) {
            Some(sel) => {
                let depth = str_chars(selector).len();
                let f = Elements { nodes: filter_all_exec(d, &self.nodes, &sel.process, depth) };
                if f.nodes.len() == 0 {
                    self.cloned()
                } else {
                    self.not_in(&f)
                }
            },
            None => Elements::new(),
        }
    }

    /// The elements with a descendant element that passes the selector as a
    /// filter (see `has_desc`); none where it does not parse.
    pub fn has(&self, d: &Document, selector: &str) -> (r: Elements)
        requires
            d.wf(),
            all_valid(d, self@),
        ensures
            r@ == if self@.len() == 0 {
                Seq::empty()
            } else {
                match parsed_queries(d, selector@, false) {
                    Some(ps) => self@.filter(|x: usize| has_desc(d, x, queries_of(ps), selector@.len() as nat)),
                    None => Seq::empty(),
                }
            },
    {
        if self.nodes.len() == 0 {
            return Elements::new();
        }
        let sel = match parse_queries(d, selector, false) {
            Some(sel) => sel,
            None => {
                return Elements::new();
            },
        };
        let depth = str_chars(selector).len();
        let ghost qs = queries_of(parsed_queries(d, selector@, false).unwrap());
        proof {
            lemma_queries_of(sel.process@);
        }
        let ghost f = |x: usize| has_desc(d, x, qs, depth as nat);
        let mut r: Vec<usize> = Vec::new();
        let mut i: usize = 0;
        assert(self@.take(0).filter(f) =~= Seq::<usize>::empty()) by {
            reveal(Seq::filter);
        }
        while i < self.nodes.len()
            invariant
                d.wf(),
                all_valid(d, self@),
                qs == procs_view(sel.process@),
                f == (|x: usize| has_desc(d, x, qs, depth as nat)),
                i <= self@.len(),
                r@ == self@.take(i as int).filter(f),
            decreases self.nodes.len() - i,
        {
            let x = self.nodes[i];
            assert(d.valid(self@[i as int] as int));
            proof {
                assert(self@.take(i + 1).drop_last() =~= self@.take(i as int));
                reveal(Seq::filter);
            }
            let ds = descendants_exec(d, x);
            if any_filter(d, &ds, sel.process.as_slice(), depth) {
                r.push(x);
            }
            i += 1;
        }
        assert(self@.take(i as int) =~= self@);
        Elements { nodes: r }
    }

    /// The children of the elements that the selector text finds (all of
    /// them for the empty text).
    pub fn children(&self, d: &Document, selector: &str) -> (r: Elements)
        requires
            d.wf(),
            all_valid(d, self@),
        ensures
            r@ == with_comb(d, self@, selector@, Combinator::Children),
            all_valid(d, r@),
    {
        self.select_with_comb(d, selector, Combinator::Children)
    }

    /// The previous element sibling of each element, where the selector
    /// text finds it.
    pub fn prev(&self, d: &Document, selector: &str) -> (r: Elements)
        requires
            d.wf(),
            all_valid(d, self@),
        ensures
            r@ == with_comb(d, self@, selector@, Combinator::Prev),
            all_valid(d, r@),
    {
        self.select_with_comb(d, selector, Combinator::Prev)
    }

    /// The next element sibling of each element, where the selector text
    /// finds it.
    pub fn next(&self, d: &Document, selector: &str) -> (r: Elements)
        requires
            d.wf(),
            all_valid(d, self@),
        ensures
            r@ == with_comb(d, self@, selector@, Combinator::Next),
            all_valid(d, r@),
    {
        self.select_with_comb(d, selector, Combinator::Next)
    }

    /// The previous element siblings of the last element of each parent
    /// that the selector text finds.
    pub fn prev_all(&self, d: &Document, selector: &str) -> (r: Elements)
        requires
            d.wf(),
            all_valid(d, self@),
        ensures
            r@ == with_comb(d, last_of_parents(d, self@), selector@, Combinator::PrevAll),
            all_valid(d, r@),
    {
        let u = Elements { nodes: last_of_parents_exec(d, &self.nodes) };
        u.select_with_comb(d, selector, Combinator::PrevAll)
    }

    /// The next element siblings of the first element of each parent that
    /// the selector text finds.
    pub fn next_all(&self, d: &Document, selector: &str) -> (r: Elements)
        requires
            d.wf(),
            all_valid(d, self@),
        ensures
            r@ == with_comb(d, first_of_parents(d, self@), selector@, Combinator::NextAll),
            all_valid(d, r@),
    {
        let u = Elements { nodes: first_of_parents_exec(d, &self.nodes) };
        u.select_with_comb(d, selector, Combinator::NextAll)
    }

    /// The parent of the first element of each parent, where the selector
    /// text finds it.
    pub fn parent(&self, d: &Document, selector: &str) -> (r: Elements)
        requires
            d.wf(),
            all_valid(d, self@),
        ensures
            r@ == with_comb(d, first_of_parents(d, self@), selector@, Combinator::Parent),
            all_valid(d, r@),
    {
        let u = Elements { nodes: first_of_parents_exec(d, &self.nodes) };
        u.select_with_comb(d, selector, Combinator::Parent)
    }

    /// The ancestors below the root of the elements that the selector text
    /// finds, in document order, each once.
    pub fn parents(&self, d: &Document, selector: &str) -> (r: Elements)
        requires
            d.wf(),
            all_valid(d, self@),
        ensures
            r@ == sort_unique(d, with_comb(d, first_of_parents(d, self@), selector@, Combinator::ParentAll)),
            all_valid(d, r@),
    {
        let u = Elements { nodes: first_of_parents_exec(d, &self.nodes) };
        let found = u.select_with_comb(d, selector, Combinator::ParentAll);
        Elements { nodes: sort_unique_exec(d, &found.nodes) }
    }
}


/// The queries of a parsed selector where there is one.
pub open spec fn opt_procs(fil: Option<Selector>) -> Option<Seq<ProcV>> {
    match fil {
        Some(s) => Some(procs_views(s.process@)),
        None => None,
    }
}

/// See `first_match`.
fn first_match_exec(d: &Document, s: &Vec<usize>, ps: &Vec<QueryProcess>, depth: usize) -> (r: Vec<usize>)
    requires
        d.wf(),
        all_valid(d, s@),
    ensures
        r@ == first_match(d, s@, procs_views(ps@), depth as nat),
        all_valid(d, r@),
{
    let mut i: usize = 0;
    assert(s@.skip(0) =~= s@);
    while i < s.len()
        invariant
            d.wf(),
            all_valid(d, s@),
            i <= s@.len(),
            first_match(d, s@.skip(i as int), procs_views(ps@), depth as nat) == first_match(
                d,
                s@,
                procs_views(ps@),
                depth as nat,
            ),
        decreases s.len() - i,
    {
        assert(s@.skip(i as int).drop_first() =~= s@.skip(i + 1));
        assert(s@.skip(i as int)[0] == s@[i as int]);
        assert(d.valid(s@[i as int] as int));
        if one_filtered(d, s[i], ps, depth) {
            return vec![s[i]];
        }
        i += 1;
    }
    assert(s@.skip(i as int) =~= Seq::<usize>::empty());
    Vec::new()
}

/// See `closest_of`.
fn closest_of_exec(d: &Document, x: usize, ps: &Vec<QueryProcess>, depth: usize) -> (r: Vec<usize>)
    requires
        d.wf(),
        d.valid(x as int),
    ensures
        r@ == closest_of(d, x, procs_views(ps@), depth as nat),
        all_valid(d, r@),
{
    let mut chain: Vec<usize> = vec![x];
    let mut up = ancestors_exec(d, x, d.nodes.len());
    chain.append(&mut up);
    assert(chain@ =~= seq![x] + ancestors_below_root(d, x as int, d.fuel()));
    assert(all_valid(d, chain@));
    first_match_exec(d, &chain, ps, depth)
}

/// See `walk_chain`.
fn walk_exec(d: &Document, x: usize, comb: Combinator) -> (r: Vec<usize>)
    requires
        d.wf(),
        d.valid(x as int),
    ensures
        r@ == walk_chain(d, x, comb),
        all_valid(d, r@),
{
    match comb {
        Combinator::Parent => ancestors_exec(d, x, d.nodes.len()),
        Combinator::Next => {
            let r = next_sibs_exec(d, x);
            assert(all_valid(d, r@)) by {
                assert forall|k: int| 0 <= k < r@.len() implies d.valid(#[trigger] r@[k] as int) by {
                    assert(d.is_elem(r@[k] as int));
                }
            }
            r
        },
        _ => {
            let p = prev_sibs_exec(d, x);
            let r = crate::utils::reversed(&p);
            assert(all_valid(d, r@)) by {
                assert forall|k: int| 0 <= k < r@.len() implies d.valid(#[trigger] r@[k] as int) by {
                    assert(r@[k] == p@[p@.len() - 1 - k]);
                    assert(d.is_elem(p@[p@.len() - 1 - k] as int));
                }
            }
            r
        },
    }
}

/// See `until_list`.
fn until_exec(
    d: &Document,
    chain: &Vec<usize>,
    until: &Vec<QueryProcess>,
    ud: usize,
    fil: &Option<Selector>,
    fd: usize,
    contains: bool,
) -> (r: Vec<usize>)
    requires
        d.wf(),
        all_valid(d, chain@),
    ensures
        r@ == until_list(d, chain@, procs_views(until@), ud as nat, opt_procs(*fil), fd as nat, contains),
        all_valid(d, r@),
{
    let ghost us = procs_views(until@);
    let ghost fv = opt_procs(*fil);
    let ghost whole = until_list(d, chain@, us, ud as nat, fv, fd as nat, contains);
    let mut r: Vec<usize> = Vec::new();
    let mut i: usize = 0;
    assert(chain@.skip(0) =~= chain@);
    while i < chain.len()
        invariant
            d.wf(),
            all_valid(d, chain@),
            all_valid(d, r@),
            us == procs_views(until@),
            fv == opt_procs(*fil),
            whole == until_list(d, chain@, us, ud as nat, fv, fd as nat, contains),
            i <= chain@.len(),
            r@ + until_list(d, chain@.skip(i as int), us, ud as nat, fv, fd as nat, contains) == whole,
        decreases chain.len() - i,
    {
        let y = chain[i];
        assert(chain@.skip(i as int).drop_first() =~= chain@.skip(i + 1));
        assert(chain@.skip(i as int)[0] == y);
        assert(d.valid(chain@[i as int] as int));
        let meet = one_filtered(d, y, until, ud);
        if meet && !contains {
            assert(r@ + Seq::<usize>::empty() =~= r@);
            return r;
        }
        let add = match fil {
            Some(f) => one_filtered(d, y, &f.process, fd),
            None => true,
        };
        let ghost before = r@;
        if add {
            r.push(y);
        }
        if meet {
            assert(r@ =~= before + (if add {
                seq![y]
            } else {
                Seq::<usize>::empty()
            }) + Seq::<usize>::empty());
            return r;
        }
        assert(r@ + until_list(d, chain@.skip(i + 1), us, ud as nat, fv, fd as nat, contains) =~= before + ((if add {
            seq![y]
        } else {
            Seq::<usize>::empty()
        }) + until_list(d, chain@.skip(i + 1), us, ud as nat, fv, fd as nat, contains)));
        i += 1;
    }
    assert(chain@.skip(i as int) =~= Seq::<usize>::empty());
    assert(r@ + Seq::<usize>::empty() =~= r@);
    r
}

impl Elements {
    /// The walks from each element over `comb` until the selector (see
    /// `until_spec`).
    fn select_until(&self, d: &Document, selector: &str, filter: &str, contains: bool, comb: Combinator) -> (r: Elements)
        requires
            d.wf(),
            all_valid(d, self@),
        ensures
            r@ == until_spec(d, self@, selector@, filter@, contains, comb),
            all_valid(d, r@),
    {
        let us = match parse_queries(d, selector, true) {
            Some(s) => s,
            None => {
                return Elements::new();
            },
        };
        let ud = str_chars(selector).len();
        let fd = str_chars(filter).len();
        let fil: Option<Selector> = if fd == 0 {
            None
        } else {
            match parse_queries(d, filter, true) {
                Some(s) => Some(s),
                None => {
                    return Elements::new();
                },
            }
        };
        let ghost usv = parsed_queries(d, selector@, true).unwrap();
        let ghost f = opt_procs(fil);
        let ghost g = |x: usize| until_list(d, walk_chain(d, x, comb), usv, ud as nat, f, fd as nat, contains);
        let mut r: Vec<usize> = Vec::new();
        let mut i: usize = 0;
        assert(concat_map(self@.take(0), g) =~= Seq::<usize>::empty()) by {
            assert(self@.take(0).len() == 0);
        }
        while i < self.nodes.len()
            invariant
                d.wf(),
                all_valid(d, self@),
                all_valid(d, r@),
                usv == procs_views(us.process@),
                f == opt_procs(fil),
                g == (|x: usize| until_list(d, walk_chain(d, x, comb), usv, ud as nat, f, fd as nat, contains)),
                i <= self@.len(),
                r@ == concat_map(self@.take(i as int), g),
            decreases self.nodes.len() - i,
        {
            let x = self.nodes[i];
            assert(d.valid(self@[i as int] as int));
            assert(self@.take(i + 1).drop_last() =~= self@.take(i as int));
            let chain = walk_exec(d, x, comb);
            let mut part = until_exec(d, &chain, &us.process, ud, &fil, fd, contains);
            let ghost before = r@;
            r.append(&mut part);
            assert(r@ =~= before + g(x));
            i += 1;
        }
        assert(self@.take(i as int) =~= self@);
        Elements { nodes: r }
    }

    /// The next element siblings of the first element of each parent, up to
    /// the first that passes the selector (kept when `contains`), those that
    /// pass `filter` where it is not empty.
    pub fn next_until(&self, d: &Document, selector: &str, filter: &str, contains: bool) -> (r: Elements)
        requires
            d.wf(),
            all_valid(d, self@),
        ensures
            r@ == until_spec(d, first_of_parents(d, self@), selector@, filter@, contains, Combinator::Next),
            all_valid(d, r@),
    {
        let u = Elements { nodes: first_of_parents_exec(d, &self.nodes) };
        u.select_until(d, selector, filter, contains, Combinator::Next)
    }

    /// The previous element siblings of the last element of each parent, up
    /// to the first that passes the selector (kept when `contains`), those
    /// that pass `filter` where it is not empty; the whole list reversed.
    pub fn prev_until(&self, d: &Document, selector: &str, filter: &str, contains: bool) -> (r: Elements)
        requires
            d.wf(),
            all_valid(d, self@),
        ensures
            r@ == until_spec(d, last_of_parents(d, self@), selector@, filter@, contains, Combinator::Prev).reverse(),
            all_valid(d, r@),
    {
        let u = Elements { nodes: last_of_parents_exec(d, &self.nodes) };
        let found = u.select_until(d, selector, filter, contains, Combinator::Prev);
        let r = crate::utils::reversed(&found.nodes);
        assert(all_valid(d, r@)) by {
            assert forall|k: int| 0 <= k < r@.len() implies d.valid(#[trigger] r@[k] as int) by {
                assert(r@[k] == found@[found@.len() - 1 - k]);
            }
        }
        Elements { nodes: r }
    }

    /// The ancestors below the root of the first element of each parent, up
    /// to the first that passes the selector (kept when `contains`), those
    /// that pass `filter` where it is not empty; in document order, each
    /// once.
    pub fn parents_until(&self, d: &Document, selector: &str, filter: &str, contains: bool) -> (r: Elements)
        requires
            d.wf(),
            all_valid(d, self@),
        ensures
            r@ == sort_unique(
                d,
                until_spec(d, first_of_parents(d, self@), selector@, filter@, contains, Combinator::Parent),
            ),
            all_valid(d, r@),
    {
        let u = Elements { nodes: first_of_parents_exec(d, &self.nodes) };
        let found = u.select_until(d, selector, filter, contains, Combinator::Parent);
        Elements { nodes: sort_unique_exec(d, &found.nodes) }
    }

    /// The siblings of the elements that the trimmed selector text finds (see
    /// `siblings_spec`).
    pub fn siblings(&self, d: &Document, selector: &str) -> (r: Elements)
        requires
            d.wf(),
            all_valid(d, self@),
        ensures
            r@ == siblings_spec(d, self@, selector@),
            all_valid(d, r@),
    {
        let u = all_sibs_exec(d, &self.nodes);
        let t = trim_chars(str_chars(selector).as_slice());
        let depth = t.len();
        let (child, sib) = if depth == 0 {
            (all_selector(Combinator::Children), all_selector(Combinator::Siblings))
        } else {
            let ts = chars_to_string(t.as_slice());
            let c = match comb_selector(d, ts.as_str(), Combinator::Children, true) {
                Some(c) => c,
                None => {
                    return Elements::new();
                },
            };
            let s = match comb_selector(d, ts.as_str(), Combinator::Siblings, true) {
                Some(s) => s,
                None => {
                    return Elements::new();
                },
            };
            (c, s)
        };
        let ghost pc = procs_views(child.process@);
        let ghost ps = procs_views(sib.process@);
        let mut r: Vec<usize> = Vec::new();
        let mut i: usize = 0;
        assert(u@.take(0) =~= Seq::<(usize, bool, usize)>::empty());
        while i < u.len()
            invariant
                d.wf(),
                all_valid(d, r@),
                forall|k: int| 0 <= k < u@.len() ==> d.valid(#[trigger] u@[k].0 as int),
                pc == procs_views(child.process@),
                ps == procs_views(sib.process@),
                i <= u@.len(),
                r@ == sibs_find(d, u@.take(i as int), pc, ps, depth as nat),
            decreases u.len() - i,
        {
            let (x, is_parent, _) = u[i];
            assert(u@.take(i + 1).drop_last() =~= u@.take(i as int));
            assert(d.valid(u@[i as int].0 as int));
            let one = vec![x];
            assert(one@ =~= seq![x]);
            let mut found = if is_parent {
                find_in_exec(d, &one, &child.process, depth)
            } else {
                find_in_exec(d, &one, &sib.process, depth)
            };
            r.append(&mut found);
            i += 1;
        }
        assert(u@.take(i as int) =~= u@);
        Elements { nodes: sort_nodes_exec(d, &r) }
    }

    /// The elements that pass the selector as a filter, and for the others
    /// the nearest ancestor that does (see `closest_spec`).
    pub fn closest(&self, d: &Document, selector: &str) -> (r: Elements)
        requires
            d.wf(),
            all_valid(d, self@),
        ensures
            r@ == closest_spec(d, self@, selector@),
    {
        let n = str_chars(selector).len();
        if n == 0 {
            return Elements::new();
        }
        let sel = match parse_queries(d, selector, true) {
            Some(s) => s,
            None => {
                return Elements::new();
            },
        };
        let ghost ps = procs_views(sel.process@);
        let ghost fo = |x: usize| some_filtered(d, seq![x], ps, n as nat);
        let ghost fp = |x: usize| !some_filtered(d, seq![x], ps, n as nat);
        let mut own: Vec<usize> = Vec::new();
        let mut props: Vec<usize> = Vec::new();
        let mut i: usize = 0;
        assert(self@.take(0).filter(fo) =~= Seq::<usize>::empty() && self@.take(0).filter(fp) =~= Seq::<usize>::empty())
            by {
            reveal(Seq::filter);
        }
        while i < self.nodes.len()
            invariant
                d.wf(),
                all_valid(d, self@),
                ps == procs_views(sel.process@),
                fo == (|x: usize| some_filtered(d, seq![x], ps, n as nat)),
                fp == (|x: usize| !some_filtered(d, seq![x], ps, n as nat)),
                i <= self@.len(),
                own@ == self@.take(i as int).filter(fo),
                props@ == self@.take(i as int).filter(fp),
            decreases self.nodes.len() - i,
        {
            let x = self.nodes[i];
            assert(d.valid(self@[i as int] as int));
            proof {
                assert(self@.take(i + 1).drop_last() =~= self@.take(i as int));
                reveal(Seq::filter);
            }
            if one_filtered(d, x, &sel.process, n) {
                own.push(x);
            } else {
                props.push(x);
            }
            i += 1;
        }
        assert(self@.take(i as int) =~= self@);
        proof {
            lemma_filter_valid(d, self@, fo);
            lemma_filter_valid(d, self@, fp);
        }
        if props.len() == 0 {
            return Elements { nodes: own };
        }
        let u = first_of_parents_exec(d, &props);
        let ghost g = |x: usize| closest_of(d, x, ps, n as nat);
        let mut all = own;
        let ghost own_v = all@;
        let mut j: usize = 0;
        assert(concat_map(u@.take(0), g) =~= Seq::<usize>::empty()) by {
            assert(u@.take(0).len() == 0);
        }
        assert(all@ =~= own_v + concat_map(u@.take(0), g));
        while j < u.len()
            invariant
                d.wf(),
                all_valid(d, u@),
                all_valid(d, all@),
                ps == procs_views(sel.process@),
                g == (|x: usize| closest_of(d, x, ps, n as nat)),
                j <= u@.len(),
                all@ == own_v + concat_map(u@.take(j as int), g),
            decreases u.len() - j,
        {
            let x = u[j];
            assert(d.valid(u@[j as int] as int));
            assert(u@.take(j + 1).drop_last() =~= u@.take(j as int));
            let mut c = closest_of_exec(d, x, &sel.process, n);
            let ghost before = all@;
            all.append(&mut c);
            assert(all@ =~= own_v + concat_map(u@.take(j + 1), g));
            j += 1;
        }
        assert(u@.take(j as int) =~= u@);
        Elements { nodes: sort_unique_exec(d, &all) }
    }
}

/// What a filter keeps of valid nodes is valid.
proof fn lemma_filter_valid(d: &Document, s: Seq<usize>, f: spec_fn(usize) -> bool)
    requires
        all_valid(d, s),
    ensures
        all_valid(d, s.filter(f)),
{
    assert forall|k: int| 0 <= k < s.filter(f).len() implies d.valid(#[trigger] s.filter(f)[k] as int) by {
        let y = s.filter(f)[k];
        assert(s.filter(f).contains(y));
        s.lemma_filter_contains_rev(f, y);
    }
}

} // verus!
