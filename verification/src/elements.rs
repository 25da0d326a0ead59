//! Sets of elements of a document and the selector engine over them.
use crate::dom::{Document, NodeKind};
use crate::matching::{
    compound_view, compounds_view, descendants, descendants_exec, head_comb, head_comb_exec, lookup_ok,
    lookup_ok_exec, mk_match, mk_match_exec, mk_view, next_sibs, next_sibs_exec, prev_sibs, prev_sibs_exec,
    procs_view, query_filter, query_filter_exec, ancestors_below_root, MK,
};
use crate::rule::MatcherKind;
use crate::selector::{Combinator, QueryProcess, Selector, SelectorSegment};
use crate::tree::{index_before, is_before, relation_of, spec_relation, ElementRelation};
use vstd::prelude::*;

verus! {

/// A list of nodes of a document, by their positions in it.
pub struct Elements {
    pub nodes: Vec<usize>,
}

impl View for Elements {
    type V = Seq<usize>;

    open spec fn view(&self) -> Seq<usize> {
        self.nodes@
    }
}

/// Every item is a node of the document.
pub open spec fn all_valid(d: &Document, s: Seq<usize>) -> bool {
    forall|k: int| 0 <= k < s.len() ==> d.valid(#[trigger] s[k] as int)
}

/// The nodes of `s` that match `m`, in order.
pub open spec fn keep(d: &Document, s: Seq<usize>, m: MK, depth: nat) -> Seq<usize> {
    s.filter(|y: usize| mk_match(d, y as int, m, depth))
}

/// `f` applied to each item of `s`, the results joined in order.
pub open spec fn concat_map(s: Seq<usize>, f: spec_fn(usize) -> Seq<usize>) -> Seq<usize>
    decreases s.len(),
{
    if s.len() == 0 {
        Seq::empty()
    } else {
        concat_map(s.drop_last(), f) + f(s.last())
    }
}

/// Of nodes that are ancestors or descendants of one another, the first of
/// each run of descendants stays: each node is kept when it is not inside
/// the last one kept.
pub open spec fn unique_parents(d: &Document, e: Seq<usize>) -> Seq<usize>
    decreases e.len(),
{
    if e.len() == 0 {
        Seq::empty()
    } else {
        let u = unique_parents(d, e.drop_last());
        if u.len() == 0 || spec_relation(d.tree_path(e.last() as int), d.tree_path(u.last() as int))
            == ElementRelation::Feauture {
            u.push(e.last())
        } else {
            u
        }
    }
}

/// Some node of `s` has the parent `p`.
pub open spec fn parent_seen(d: &Document, s: Seq<usize>, p: Option<usize>) -> bool {
    exists|j: int| 0 <= j < s.len() && d@[#[trigger] s[j] as int].parent == p
}

/// The first node of each parent (the nodes without one count as one
/// family).
pub open spec fn first_of_parents(d: &Document, e: Seq<usize>) -> Seq<usize>
    decreases e.len(),
{
    if e.len() == 0 {
        Seq::empty()
    } else {
        let u = first_of_parents(d, e.drop_last());
        if parent_seen(d, e.drop_last(), d@[e.last() as int].parent) {
            u
        } else {
            u.push(e.last())
        }
    }
}

/// The last node of each parent, in order.
pub open spec fn last_of_parents(d: &Document, e: Seq<usize>) -> Seq<usize> {
    first_of_parents(d, e.reverse()).reverse()
}


/// The first entry of `u` for the parent `p`.
pub open spec fn find_entry(u: Seq<(usize, bool, usize)>, p: usize) -> Option<int>
    decreases u.len(),
{
    if u.len() == 0 {
        None
    } else {
        match find_entry(u.drop_last(), p) {
            Some(i) => Some(i),
            None => if u.last().2 == p {
                Some(u.len() - 1)
            } else {
                None
            },
        }
    }
}

/// For the siblings of each node: the first node of each parent, replaced
/// by the parent itself (flagged) once a second node of that parent comes;
/// nodes without a parent are left out. The third item is the parent.
pub open spec fn all_sibs(d: &Document, e: Seq<usize>) -> Seq<(usize, bool, usize)>
    decreases e.len(),
{
    if e.len() == 0 {
        Seq::empty()
    } else {
        let u = all_sibs(d, e.drop_last());
        let x = e.last();
        match d@[x as int].parent {
            None => u,
            Some(p) => match find_entry(u, p) {
                Some(i) => if !u[i].1 {
                    u.update(i, (p, true, p))
                } else {
                    u
                },
                None => u.push((x, false, p)),
            },
        }
    }
}

/// `x` put into the ordered list `a` before the first node that comes
/// after it in document order.
pub open spec fn ins(d: &Document, a: Seq<usize>, x: usize) -> Seq<usize>
    decreases a.len(),
{
    if a.len() == 0 {
        seq![x]
    } else if index_before(d.tree_path(x as int), d.tree_path(a[0] as int)) {
        seq![x] + a
    } else {
        seq![a[0]] + ins(d, a.drop_first(), x)
    }
}

/// The nodes of `s` in document order, each once.
pub open spec fn sort_unique(d: &Document, s: Seq<usize>) -> Seq<usize>
    decreases s.len(),
{
    if s.len() == 0 {
        Seq::empty()
    } else {
        let a = sort_unique(d, s.drop_last());
        if a.contains(s.last()) {
            a
        } else {
            ins(d, a, s.last())
        }
    }
}

/// Two lists in document order merged into one: of two nodes at the same
/// position, the first list's stays.
pub open spec fn merge(d: &Document, a: Seq<usize>, b: Seq<usize>) -> Seq<usize>
    decreases a.len() + b.len(),
{
    if a.len() == 0 {
        b
    } else if b.len() == 0 {
        a
    } else {
        let pa = d.tree_path(a[0] as int);
        let pb = d.tree_path(b[0] as int);
        if index_before(pa, pb) {
            seq![a[0]] + merge(d, a.drop_first(), b)
        } else if index_before(pb, pa) {
            seq![b[0]] + merge(d, a, b.drop_first())
        } else {
            seq![a[0]] + merge(d, a.drop_first(), b.drop_first())
        }
    }
}

/// See `unique_parents`.
fn unique_parents_exec(d: &Document, e: &Vec<usize>) -> (r: Vec<usize>)
    requires
        d.wf(),
        all_valid(d, e@),
    ensures
        r@ == unique_parents(d, e@),
        all_valid(d, r@),
{
    let mut u: Vec<usize> = Vec::new();
    let mut i: usize = 0;
    assert(e@.take(0) =~= Seq::<usize>::empty());
    while i < e.len()
        invariant
            d.wf(),
            all_valid(d, e@),
            i <= e@.len(),
            u@ == unique_parents(d, e@.take(i as int)),
            all_valid(d, u@),
        decreases e.len() - i,
    {
        let x = e[i];
        assert(e@.take(i + 1).drop_last() =~= e@.take(i as int));
        assert(d.valid(e@[i as int] as int));
        if u.len() == 0 {
            u.push(x);
        } else {
            let last = u[u.len() - 1];
            assert(d.valid(u@[u@.len() - 1] as int));
            let a = d.tree_indexs(x);
            let b = d.tree_indexs(last);
            if relation_of(&a, &b) == ElementRelation::Feauture {
                u.push(x);
            }
        }
        i += 1;
    }
    assert(e@.take(i as int) =~= e@);
    u
}

/// Some node of `e` before position `i` has the parent `p`.
fn parent_seen_exec(d: &Document, e: &Vec<usize>, i: usize, p: Option<usize>) -> (r: bool)
    requires
        d.wf(),
        all_valid(d, e@),
        i <= e@.len(),
    ensures
        r == parent_seen(d, e@.take(i as int), p),
{
    let mut j: usize = 0;
    while j < i
        invariant
            d.wf(),
            all_valid(d, e@),
            i <= e@.len(),
            j <= i,
            forall|k: int| 0 <= k < j ==> d@[#[trigger] e@[k] as int].parent != p,
        decreases i - j,
    {
        let y = e[j];
        assert(d.valid(e@[j as int] as int));
        assert(d@[y as int] == d.nodes@[y as int]@);
        if d.nodes[y].parent == p {
            assert(e@.take(i as int)[j as int] == y);
            return true;
        }
        j += 1;
    }
    assert forall|k: int| 0 <= k < e@.take(i as int).len() implies d@[#[trigger] e@.take(i as int)[k] as int].parent != p by {
        assert(e@.take(i as int)[k] == e@[k]);
    }
    false
}

/// See `first_of_parents`.
pub(crate) fn first_of_parents_exec(d: &Document, e: &Vec<usize>) -> (r: Vec<usize>)
    requires
        d.wf(),
        all_valid(d, e@),
    ensures
        r@ == first_of_parents(d, e@),
        all_valid(d, r@),
{
    let mut u: Vec<usize> = Vec::new();
    let mut i: usize = 0;
    assert(e@.take(0) =~= Seq::<usize>::empty());
    while i < e.len()
        invariant
            d.wf(),
            all_valid(d, e@),
            i <= e@.len(),
            u@ == first_of_parents(d, e@.take(i as int)),
            all_valid(d, u@),
        decreases e.len() - i,
    {
        let x = e[i];
        assert(e@.take(i + 1).drop_last() =~= e@.take(i as int));
        assert(d.valid(e@[i as int] as int));
        assert(d@[x as int] == d.nodes@[x as int]@);
        let p = d.nodes[x].parent;
        if !parent_seen_exec(d, e, i, p) {
            u.push(x);
        }
        i += 1;
    }
    assert(e@.take(i as int) =~= e@);
    u
}

/// See `last_of_parents`.
pub(crate) fn last_of_parents_exec(d: &Document, e: &Vec<usize>) -> (r: Vec<usize>)
    requires
        d.wf(),
        all_valid(d, e@),
    ensures
        r@ == last_of_parents(d, e@),
        all_valid(d, r@),
{
    let re = crate::utils::reversed(e);
    assert forall|k: int| 0 <= k < re@.len() implies d.valid(#[trigger] re@[k] as int) by {
        assert(re@[k] == e@[e@.len() - 1 - k]);
    }
    let f = first_of_parents_exec(d, &re);
    let r = crate::utils::reversed(&f);
    assert forall|k: int| 0 <= k < r@.len() implies d.valid(#[trigger] r@[k] as int) by {
        assert(r@[k] == f@[f@.len() - 1 - k]);
    }
    r
}

/// See `find_entry`.
fn find_entry_exec(u: &Vec<(usize, bool, usize)>, p: usize) -> (r: Option<usize>)
    ensures
        r matches Some(i) ==> find_entry(u@, p) == Some(i as int) && i < u@.len(),
        r is None ==> find_entry(u@, p) is None,
{
    let mut i: usize = 0;
    assert(u@.take(0) =~= Seq::<(usize, bool, usize)>::empty());
    while i < u.len()
        invariant
            i <= u@.len(),
            find_entry(u@.take(i as int), p) is None,
        decreases u.len() - i,
    {
        assert(u@.take(i + 1).drop_last() =~= u@.take(i as int));
        if u[i].2 == p {
            proof {
                lemma_find_entry_prefix(u@, p, (i + 1) as int, i as int);
            }
            return Some(i);
        }
        i += 1;
    }
    assert(u@.take(i as int) =~= u@);
    None
}

proof fn lemma_find_entry_prefix(u: Seq<(usize, bool, usize)>, p: usize, n: int, i: int)
    requires
        0 < n <= u.len(),
        find_entry(u.take(n), p) == Some(i),
    ensures
        find_entry(u, p) == Some(i),
    decreases u.len() - n,
{
    if n < u.len() {
        assert(u.take(n + 1).drop_last() =~= u.take(n));
        assert(find_entry(u.take(n + 1), p) == Some(i));
        lemma_find_entry_prefix(u, p, n + 1, i);
    } else {
        assert(u.take(n) =~= u);
    }
}

/// See `all_sibs`.
pub(crate) fn all_sibs_exec(d: &Document, e: &Vec<usize>) -> (r: Vec<(usize, bool, usize)>)
    requires
        d.wf(),
        all_valid(d, e@),
    ensures
        r@ == all_sibs(d, e@),
        forall|k: int| 0 <= k < r@.len() ==> d.valid(#[trigger] r@[k].0 as int),
{
    let mut u: Vec<(usize, bool, usize)> = Vec::new();
    let mut i: usize = 0;
    assert(e@.take(0) =~= Seq::<usize>::empty());
    while i < e.len()
        invariant
            d.wf(),
            all_valid(d, e@),
            i <= e@.len(),
            u@ == all_sibs(d, e@.take(i as int)),
            forall|k: int| 0 <= k < u@.len() ==> d.valid(#[trigger] u@[k].0 as int),
        decreases e.len() - i,
    {
        let x = e[i];
        assert(e@.take(i + 1).drop_last() =~= e@.take(i as int));
        assert(d.valid(e@[i as int] as int));
        assert(d@[x as int] == d.nodes@[x as int]@);
        match d.nodes[x].parent {
            None => {},
            Some(p) => {
                match find_entry_exec(&u, p) {
                    Some(k) => {
                        if !u[k].1 {
                            u.set(k, (p, true, p));
                        }
                    },
                    None => {
                        u.push((x, false, p));
                    },
                }
            },
        }
        i += 1;
    }
    assert(e@.take(i as int) =~= e@);
    u
}


proof fn lemma_ins_at(d: &Document, a: Seq<usize>, x: usize, k: int)
    requires
        0 <= k <= a.len(),
        forall|j: int| 0 <= j < k ==> !index_before(d.tree_path(x as int), d.tree_path(#[trigger] a[j] as int)),
        k < a.len() ==> index_before(d.tree_path(x as int), d.tree_path(a[k] as int)),
    ensures
        ins(d, a, x) == a.insert(k, x),
    decreases k,
{
    if a.len() == 0 {
        assert(a.insert(k, x) =~= seq![x]);
    } else if k == 0 {
        assert(a.insert(0, x) =~= seq![x] + a);
    } else {
        assert(!index_before(d.tree_path(x as int), d.tree_path(a[0] as int)));
        let t = a.drop_first();
        assert forall|j: int| 0 <= j < k - 1 implies !index_before(d.tree_path(x as int), d.tree_path(#[trigger] t[j] as int)) by {
            assert(t[j] == a[j + 1]);
        }
        lemma_ins_at(d, t, x, k - 1);
        assert(a.insert(k, x) =~= seq![a[0]] + t.insert(k - 1, x));
    }
}

/// Puts `x` into the ordered list `a` (see `ins`).
pub(crate) fn ins_exec(d: &Document, a: &mut Vec<usize>, x: usize)
    requires
        d.wf(),
        all_valid(d, old(a)@),
        d.valid(x as int),
    ensures
        final(a)@ == ins(d, old(a)@, x),
        all_valid(d, final(a)@),
{
    let px = d.tree_indexs(x);
    let mut k: usize = 0;
    while k < a.len()
        invariant
            d.wf(),
            all_valid(d, a@),
            a@ == old(a)@,
            px@ == d.tree_path(x as int),
            k <= a@.len(),
            forall|j: int| 0 <= j < k ==> !index_before(d.tree_path(x as int), d.tree_path(#[trigger] a@[j] as int)),
        ensures
            k <= a@.len(),
            a@ == old(a)@,
            forall|j: int| 0 <= j < k ==> !index_before(d.tree_path(x as int), d.tree_path(#[trigger] a@[j] as int)),
            k < a@.len() ==> index_before(d.tree_path(x as int), d.tree_path(a@[k as int] as int)),
        decreases a.len() - k,
    {
        assert(d.valid(a@[k as int] as int));
        let pk = d.tree_indexs(a[k]);
        if is_before(&px, &pk) {
            break;
        }
        k += 1;
    }
    proof {
        lemma_ins_at(d, a@, x, k as int);
    }
    a.insert(k, x);
    assert forall|j: int| 0 <= j < a@.len() implies d.valid(#[trigger] a@[j] as int) by {
        if j < k {
            assert(a@[j] == old(a)@[j]);
        } else if j > k {
            assert(a@[j] == old(a)@[j - 1]);
        }
    }
}

/// See `sort_unique`.
pub fn sort_unique_exec(d: &Document, s: &Vec<usize>) -> (r: Vec<usize>)
    requires
        d.wf(),
        all_valid(d, s@),
    ensures
        r@ == sort_unique(d, s@),
        all_valid(d, r@),
{
    let mut a: Vec<usize> = Vec::new();
    let mut i: usize = 0;
    assert(s@.take(0) =~= Seq::<usize>::empty());
    while i < s.len()
        invariant
            d.wf(),
            all_valid(d, s@),
            all_valid(d, a@),
            i <= s@.len(),
            a@ == sort_unique(d, s@.take(i as int)),
        decreases s.len() - i,
    {
        let x = s[i];
        assert(s@.take(i + 1).drop_last() =~= s@.take(i as int));
        assert(d.valid(s@[i as int] as int));
        if !crate::matching::vec_contains(a.as_slice(), x) {
            ins_exec(d, &mut a, x);
        }
        i += 1;
    }
    assert(s@.take(i as int) =~= s@);
    a
}

/// See `merge`.
pub fn merge_exec(d: &Document, a: &Vec<usize>, b: &Vec<usize>) -> (r: Vec<usize>)
    requires
        d.wf(),
        all_valid(d, a@),
        all_valid(d, b@),
    ensures
        r@ == merge(d, a@, b@),
        all_valid(d, r@),
{
    let mut r: Vec<usize> = Vec::new();
    let mut i: usize = 0;
    let mut j: usize = 0;
    assert(a@.skip(0) =~= a@ && b@.skip(0) =~= b@);
    while i < a.len() && j < b.len()
        invariant
            d.wf(),
            all_valid(d, a@),
            all_valid(d, b@),
            all_valid(d, r@),
            i <= a@.len(),
            j <= b@.len(),
            r@ + merge(d, a@.skip(i as int), b@.skip(j as int)) == merge(d, a@, b@),
        decreases a@.len() - i + b@.len() - j,
    {
        let x = a[i];
        let y = b[j];
        assert(d.valid(a@[i as int] as int) && d.valid(b@[j as int] as int));
        let pa = d.tree_indexs(x);
        let pb = d.tree_indexs(y);
        let ghost sa = a@.skip(i as int);
        let ghost sb = b@.skip(j as int);
        assert(sa[0] == x && sb[0] == y);
        assert(sa.drop_first() =~= a@.skip(i + 1));
        assert(sb.drop_first() =~= b@.skip(j + 1));
        if is_before(&pa, &pb) {
            r.push(x);
            i += 1;
        } else if is_before(&pb, &pa) {
            r.push(y);
            j += 1;
        } else {
            r.push(x);
            i += 1;
            j += 1;
        }
        proof {
            assert(r@ + merge(d, a@.skip(i as int), b@.skip(j as int)) =~= merge(d, a@, b@));
        }
    }
    let ghost r0 = r@;
    if i < a.len() {
        assert(merge(d, a@.skip(i as int), b@.skip(j as int)) == a@.skip(i as int));
        while i < a.len()
            invariant
                d.wf(),
                all_valid(d, a@),
                all_valid(d, r@),
                i <= a@.len(),
                r@ + a@.skip(i as int) == merge(d, a@, b@),
            decreases a@.len() - i,
        {
            assert(d.valid(a@[i as int] as int));
            r.push(a[i]);
            assert(a@.skip(i as int) =~= seq![a@[i as int]] + a@.skip(i + 1));
            i += 1;
            assert(r@ + a@.skip(i as int) =~= merge(d, a@, b@));
        }
        assert(r@ =~= merge(d, a@, b@));
    } else {
        assert(merge(d, a@.skip(i as int), b@.skip(j as int)) == b@.skip(j as int));
        while j < b.len()
            invariant
                d.wf(),
                all_valid(d, b@),
                all_valid(d, r@),
                j <= b@.len(),
                r@ + b@.skip(j as int) == merge(d, a@, b@),
            decreases b@.len() - j,
        {
            assert(d.valid(b@[j as int] as int));
            r.push(b[j]);
            assert(b@.skip(j as int) =~= seq![b@[j as int]] + b@.skip(j + 1));
            j += 1;
            assert(r@ + b@.skip(j as int) =~= merge(d, a@, b@));
        }
        assert(r@ =~= merge(d, a@, b@));
    }
    r
}


/// The parent of `x` when it is not a root and matches `m`.
pub open spec fn parent_sel(d: &Document, x: usize, m: MK, depth: nat) -> Seq<usize> {
    match d@[x as int].parent {
        Some(p) => if d.kind_of(p as int) != NodeKind::Root && mk_match(d, p as int, m, depth) {
            seq![p]
        } else {
            Seq::empty()
        },
        None => Seq::empty(),
    }
}

/// The next element sibling of `x` when it matches `m`.
pub open spec fn next_sel(d: &Document, x: usize, m: MK, depth: nat) -> Seq<usize> {
    let n = next_sibs(d, x as int);
    if n.len() > 0 && mk_match(d, n[0] as int, m, depth) {
        seq![n[0]]
    } else {
        Seq::empty()
    }
}

/// The previous element sibling of `x` when it matches `m`.
pub open spec fn prev_sel(d: &Document, x: usize, m: MK, depth: nat) -> Seq<usize> {
    let n = prev_sibs(d, x as int);
    if n.len() > 0 && mk_match(d, n.last() as int, m, depth) {
        seq![n.last()]
    } else {
        Seq::empty()
    }
}

/// For each entry of `all_sibs`: the children of a flagged parent, or the
/// siblings of a node, that match `m`.
pub open spec fn sibs_sel(d: &Document, u: Seq<(usize, bool, usize)>, m: MK, depth: nat) -> Seq<usize>
    decreases u.len(),
{
    if u.len() == 0 {
        Seq::empty()
    } else {
        let (x, is_parent, _) = u.last();
        sibs_sel(d, u.drop_last(), m, depth) + keep(
            d,
            if is_parent {
                d.elem_children(x as int)
            } else {
                prev_sibs(d, x as int) + next_sibs(d, x as int)
            },
            m,
            depth,
        )
    }
}

/// The ancestors of each node below the root, the farthest first.
pub open spec fn all_ancestors(d: &Document, e: Seq<usize>) -> Seq<usize> {
    concat_map(e, |x: usize| ancestors_below_root(d, x as int, d.fuel()).reverse())
}

/// What `m` selects from one node `x` over `comb`: the matching
/// descendants, children, parent, next siblings, next sibling, previous
/// siblings or previous sibling.
pub open spec fn elem_sel(d: &Document, x: usize, m: MK, comb: Combinator, depth: nat) -> Seq<usize> {
    match comb {
        Combinator::ChildrenAll => keep(d, descendants(d, x as int), m, depth),
        Combinator::Children => keep(d, d.elem_children(x as int), m, depth),
        Combinator::Parent => parent_sel(d, x, m, depth),
        Combinator::NextAll => keep(d, next_sibs(d, x as int), m, depth),
        Combinator::Next => next_sel(d, x, m, depth),
        Combinator::PrevAll => keep(d, prev_sibs(d, x as int), m, depth),
        Combinator::Prev => prev_sel(d, x, m, depth),
        _ => Seq::empty(),
    }
}

/// The nodes that the simple selector `m` selects from the list `e` over
/// the combinator `comb`:
/// - descendants: those of each node not inside another (the list taken
///   in document order), depth first;
/// - children, next sibling, previous sibling: of each node in order;
/// - parent, next siblings: of the first node of each parent;
/// - previous siblings: of the last node of each parent;
/// - ancestors below the root: all of them, in document order, once each;
/// - siblings: for each parent, the siblings of its one node, or all its
///   children when it has several;
/// - chain: the nodes of `e` themselves.
pub open spec fn step(d: &Document, e: Seq<usize>, m: MK, comb: Combinator, depth: nat) -> Seq<usize> {
    let f = |x: usize| elem_sel(d, x, m, comb, depth);
    match comb {
        Combinator::ChildrenAll => concat_map(
            if e.len() > 1 {
                unique_parents(d, e)
            } else {
                e
            },
            f,
        ),
        Combinator::Children | Combinator::Next | Combinator::Prev => concat_map(e, f),
        Combinator::Parent | Combinator::NextAll => concat_map(first_of_parents(d, e), f),
        Combinator::PrevAll => concat_map(last_of_parents(d, e), f),
        Combinator::ParentAll => sort_unique(d, keep(d, all_ancestors(d, e), m, depth)),
        Combinator::Siblings => sibs_sel(d, all_sibs(d, e), m, depth),
        Combinator::Chain => keep(d, e, m, depth),
    }
}

proof fn lemma_concat_step(s: Seq<usize>, f: spec_fn(usize) -> Seq<usize>, i: int)
    requires
        0 <= i < s.len(),
    ensures
        concat_map(s.take(i + 1), f) == concat_map(s.take(i), f) + f(s[i]),
{
    assert(s.take(i + 1).drop_last() =~= s.take(i));
}

/// See `keep`.
pub fn keep_exec(d: &Document, s: &Vec<usize>, m: &MatcherKind, depth: usize) -> (r: Vec<usize>)
    requires
        d.wf(),
        all_valid(d, s@),
    ensures
        r@ == keep(d, s@, mk_view(*m), depth as nat),
        all_valid(d, r@),
{
    let ghost f = |y: usize| mk_match(d, y as int, mk_view(*m), depth as nat);
    let mut r: Vec<usize> = Vec::new();
    let mut i: usize = 0;
    assert(s@.take(0).filter(f) =~= Seq::<usize>::empty()) by {
        reveal(Seq::filter);
    }
    while i < s.len()
        invariant
            d.wf(),
            all_valid(d, s@),
            all_valid(d, r@),
            f == (|y: usize| mk_match(d, y as int, mk_view(*m), depth as nat)),
            i <= s@.len(),
            r@ == s@.take(i as int).filter(f),
        decreases s.len() - i,
    {
        let x = s[i];
        assert(d.valid(s@[i as int] as int));
        proof {
            assert(s@.take(i + 1).drop_last() =~= s@.take(i as int));
            reveal(Seq::filter);
        }
        if mk_match_exec(d, x, m, depth) {
            r.push(x);
        }
        i += 1;
    }
    assert(s@.take(i as int) =~= s@);
    r
}


/// A copy of a list of positions.
pub fn copy_ids(v: &Vec<usize>) -> (r: Vec<usize>)
    ensures
        r@ == v@,
{
    let mut r: Vec<usize> = Vec::new();
    let mut i: usize = 0;
    while i < v.len()
        invariant
            i <= v@.len(),
            r@ == v@.take(i as int),
        decreases v.len() - i,
    {
        r.push(v[i]);
        i += 1;
        assert(r@ =~= v@.take(i as int));
    }
    assert(v@.take(i as int) =~= v@);
    r
}

/// See `elem_sel`.
fn elem_sel_exec(d: &Document, x: usize, m: &MatcherKind, comb: Combinator, depth: usize) -> (r: Vec<usize>)
    requires
        d.wf(),
        d.valid(x as int),
    ensures
        r@ == elem_sel(d, x, mk_view(*m), comb, depth as nat),
        all_valid(d, r@),
{
    assert(d@[x as int] == d.nodes@[x as int]@);
    match comb {
        Combinator::ChildrenAll => {
            let ds = descendants_exec(d, x);
            assert(all_valid(d, ds@)) by {
                assert forall|k: int| 0 <= k < ds@.len() implies d.valid(#[trigger] ds@[k] as int) by {
                    assert(d.is_elem(ds@[k] as int));
                }
            }
            keep_exec(d, &ds, m, depth)
        },
        Combinator::Children => {
            let cs = d.children(x);
            assert(all_valid(d, cs@)) by {
                assert forall|k: int| 0 <= k < cs@.len() implies d.valid(#[trigger] cs@[k] as int) by {
                    assert(d.is_elem(cs@[k] as int));
                }
            }
            keep_exec(d, &cs, m, depth)
        },
        Combinator::Parent => match d.nodes[x].parent {
            Some(p) => {
                if d.nodes[p].kind != NodeKind::Root && mk_match_exec(d, p, m, depth) {
                    let mut r: Vec<usize> = Vec::new();
                    r.push(p);
                    assert(r@ =~= seq![p]);
                    r
                } else {
                    Vec::new()
                }
            },
            None => Vec::new(),
        },
        Combinator::NextAll | Combinator::PrevAll => {
            let ns = if comb == Combinator::NextAll {
                next_sibs_exec(d, x)
            } else {
                prev_sibs_exec(d, x)
            };
            assert(all_valid(d, ns@)) by {
                assert forall|k: int| 0 <= k < ns@.len() implies d.valid(#[trigger] ns@[k] as int) by {
                    assert(d.is_elem(ns@[k] as int));
                }
            }
            keep_exec(d, &ns, m, depth)
        },
        Combinator::Next => {
            let ns = next_sibs_exec(d, x);
            if ns.len() > 0 {
                assert(d.is_elem(ns@[0] as int));
                if mk_match_exec(d, ns[0], m, depth) {
                    let mut r: Vec<usize> = Vec::new();
                    r.push(ns[0]);
                    assert(r@ =~= seq![ns@[0]]);
                    return r;
                }
            }
            Vec::new()
        },
        Combinator::Prev => {
            let ns = prev_sibs_exec(d, x);
            if ns.len() > 0 {
                let l = ns[ns.len() - 1];
                assert(d.is_elem(ns@[ns@.len() - 1] as int));
                if mk_match_exec(d, l, m, depth) {
                    let mut r: Vec<usize> = Vec::new();
                    r.push(l);
                    assert(r@ =~= seq![ns@.last()]);
                    return r;
                }
            }
            Vec::new()
        },
        _ => Vec::new(),
    }
}

/// `elem_sel` over each node of `u`, joined.
fn concat_sel_exec(d: &Document, u: &Vec<usize>, m: &MatcherKind, comb: Combinator, depth: usize) -> (r: Vec<usize>)
    requires
        d.wf(),
        all_valid(d, u@),
    ensures
        r@ == concat_map(u@, |x: usize| elem_sel(d, x, mk_view(*m), comb, depth as nat)),
        all_valid(d, r@),
{
    let ghost f = |x: usize| elem_sel(d, x, mk_view(*m), comb, depth as nat);
    let mut r: Vec<usize> = Vec::new();
    let mut i: usize = 0;
    assert(u@.take(0) =~= Seq::<usize>::empty());
    while i < u.len()
        invariant
            d.wf(),
            all_valid(d, u@),
            all_valid(d, r@),
            f == (|x: usize| elem_sel(d, x, mk_view(*m), comb, depth as nat)),
            i <= u@.len(),
            r@ == concat_map(u@.take(i as int), f),
        decreases u.len() - i,
    {
        assert(d.valid(u@[i as int] as int));
        let mut part = elem_sel_exec(d, u[i], m, comb, depth);
        proof {
            lemma_concat_step(u@, f, i as int);
        }
        let ghost before = r@;
        let ghost pv = part@;
        r.append(&mut part);
        assert forall|k: int| 0 <= k < r@.len() implies d.valid(#[trigger] r@[k] as int) by {
            if k < before.len() {
                assert(r@[k] == before[k]);
            } else {
                assert(r@[k] == pv[k - before.len()]);
            }
        }
        i += 1;
    }
    assert(u@.take(i as int) =~= u@);
    r
}

/// See `sibs_sel`.
fn sibs_sel_exec(d: &Document, u: &Vec<(usize, bool, usize)>, m: &MatcherKind, depth: usize) -> (r: Vec<usize>)
    requires
        d.wf(),
        forall|k: int| 0 <= k < u@.len() ==> d.valid(#[trigger] u@[k].0 as int),
    ensures
        r@ == sibs_sel(d, u@, mk_view(*m), depth as nat),
        all_valid(d, r@),
{
    let mut r: Vec<usize> = Vec::new();
    let mut i: usize = 0;
    assert(u@.take(0) =~= Seq::<(usize, bool, usize)>::empty());
    while i < u.len()
        invariant
            d.wf(),
            forall|k: int| 0 <= k < u@.len() ==> d.valid(#[trigger] u@[k].0 as int),
            all_valid(d, r@),
            i <= u@.len(),
            r@ == sibs_sel(d, u@.take(i as int), mk_view(*m), depth as nat),
        decreases u.len() - i,
    {
        let (x, is_parent, _) = u[i];
        assert(d.valid(u@[i as int].0 as int));
        assert(u@.take(i + 1).drop_last() =~= u@.take(i as int));
        let src = if is_parent {
            d.children(x)
        } else {
            let mut a = prev_sibs_exec(d, x);
            let mut b = next_sibs_exec(d, x);
            let ghost av = a@;
            let ghost bv = b@;
            a.append(&mut b);
            assert(a@ == av + bv);
            assert forall|k: int| 0 <= k < a@.len() implies d.is_elem(#[trigger] a@[k] as int) by {
                if k < av.len() {
                    assert(a@[k] == av[k]);
                } else {
                    assert(a@[k] == bv[k - av.len()]);
                }
            }
            a
        };
        assert(all_valid(d, src@)) by {
            assert forall|k: int| 0 <= k < src@.len() implies d.valid(#[trigger] src@[k] as int) by {
                assert(d.is_elem(src@[k] as int));
            }
        }
        let mut part = keep_exec(d, &src, m, depth);
        let ghost before = r@;
        let ghost pv = part@;
        r.append(&mut part);
        assert forall|k: int| 0 <= k < r@.len() implies d.valid(#[trigger] r@[k] as int) by {
            if k < before.len() {
                assert(r@[k] == before[k]);
            } else {
                assert(r@[k] == pv[k - before.len()]);
            }
        }
        i += 1;
    }
    assert(u@.take(i as int) =~= u@);
    r
}

/// See `all_ancestors`.
fn all_ancestors_exec(d: &Document, e: &Vec<usize>) -> (r: Vec<usize>)
    requires
        d.wf(),
        all_valid(d, e@),
    ensures
        r@ == all_ancestors(d, e@),
        all_valid(d, r@),
{
    let ghost f = |x: usize| ancestors_below_root(d, x as int, d.fuel()).reverse();
    let mut r: Vec<usize> = Vec::new();
    let mut i: usize = 0;
    assert(e@.take(0) =~= Seq::<usize>::empty());
    while i < e.len()
        invariant
            d.wf(),
            all_valid(d, e@),
            all_valid(d, r@),
            f == (|x: usize| ancestors_below_root(d, x as int, d.fuel()).reverse()),
            i <= e@.len(),
            r@ == concat_map(e@.take(i as int), f),
        decreases e.len() - i,
    {
        assert(d.valid(e@[i as int] as int));
        let a = crate::matching::ancestors_exec(d, e[i], d.nodes.len());
        let mut part = crate::utils::reversed(&a);
        proof {
            lemma_concat_step(e@, f, i as int);
        }
        let ghost before = r@;
        let ghost pv = part@;
        r.append(&mut part);
        assert forall|k: int| 0 <= k < r@.len() implies d.valid(#[trigger] r@[k] as int) by {
            if k < before.len() {
                assert(r@[k] == before[k]);
            } else {
                assert(r@[k] == pv[k - before.len()]);
                assert(pv[k - before.len()] == a@[a@.len() - 1 - (k - before.len())]);
            }
        }
        i += 1;
    }
    assert(e@.take(i as int) =~= e@);
    r
}

/// See `step`.
pub fn step_exec(d: &Document, e: &Vec<usize>, m: &MatcherKind, comb: Combinator, depth: usize) -> (r: Vec<usize>)
    requires
        d.wf(),
        all_valid(d, e@),
    ensures
        r@ == step(d, e@, mk_view(*m), comb, depth as nat),
        all_valid(d, r@),
{
    match comb {
        Combinator::ChildrenAll => {
            let u = if e.len() > 1 {
                unique_parents_exec(d, e)
            } else {
                copy_ids(e)
            };
            concat_sel_exec(d, &u, m, comb, depth)
        },
        Combinator::Children | Combinator::Next | Combinator::Prev => concat_sel_exec(d, e, m, comb, depth),
        Combinator::Parent | Combinator::NextAll => {
            let u = first_of_parents_exec(d, e);
            concat_sel_exec(d, &u, m, comb, depth)
        },
        Combinator::PrevAll => {
            let u = last_of_parents_exec(d, e);
            concat_sel_exec(d, &u, m, comb, depth)
        },
        Combinator::ParentAll => {
            let a = all_ancestors_exec(d, e);
            let k = keep_exec(d, &a, m, depth);
            sort_unique_exec(d, &k)
        },
        Combinator::Siblings => {
            let u = all_sibs_exec(d, e);
            sibs_sel_exec(d, &u, m, depth)
        },
        Combinator::Chain => keep_exec(d, e, m, depth),
    }
}


/// Applies the simple selectors of `c` from position `k` on, each over its
/// own combinator.
pub open spec fn select_from(d: &Document, e: Seq<usize>, c: Seq<(MK, Combinator)>, k: int, depth: nat) -> Seq<usize>
    decreases c.len() - k,
{
    if k < 0 || k >= c.len() {
        e
    } else {
        select_from(d, step(d, e, c[k].0, c[k].1, depth), c, k + 1, depth)
    }
}

/// The nodes that compound `c` selects from `e`: its first simple selector
/// over `comb` (its own combinator when none is given), then the others.
pub open spec fn select(d: &Document, e: Seq<usize>, c: Seq<(MK, Combinator)>, comb: Option<Combinator>, depth: nat) -> Seq<
    usize,
> {
    if c.len() == 0 {
        Seq::empty()
    } else {
        let first = match comb {
            Some(x) => x,
            None => c[0].1,
        };
        select_from(d, step(d, e, c[0].0, first, depth), c, 1, depth)
    }
}

/// Applies the compounds of `q` from position `k` on, each over its own
/// combinator.
pub open spec fn select_all_from(d: &Document, e: Seq<usize>, q: Seq<Seq<(MK, Combinator)>>, k: int, depth: nat) -> Seq<
    usize,
>
    decreases q.len() - k,
{
    if k < 0 || k >= q.len() {
        e
    } else {
        select_all_from(d, select(d, e, q[k], None, depth), q, k + 1, depth)
    }
}

/// A query as plain values: the compounds that found nodes must be reached
/// from, where there are any, and the compounds to find.
pub type ProcV = (Option<Seq<Seq<(MK, Combinator)>>>, Seq<Seq<(MK, Combinator)>>);

pub open spec fn proc_view(p: QueryProcess) -> ProcV {
    (
        match p.should_in {
            Some(s) => Some(compounds_view(s@)),
            None => None,
        },
        compounds_view(p.query@),
    )
}

pub open spec fn procs_views(ps: Seq<QueryProcess>) -> Seq<ProcV> {
    ps.map_values(|p: QueryProcess| proc_view(p))
}

/// What one query finds from `e`: its first compound from the descendants
/// (kept only where the lookup compounds lead back to `e`), then the next
/// compounds in turn.
pub open spec fn proc_group(d: &Document, e: Seq<usize>, p: ProcV, depth: nat) -> Seq<usize> {
    let (si, q) = p;
    if q.len() == 0 {
        Seq::empty()
    } else {
        let g0 = match si {
            Some(lookup) => select(d, e, q[0], Some(Combinator::ChildrenAll), depth).filter(
                |y: usize| lookup_ok(d, e, y as int, head_comb(q[0]), lookup, depth),
            ),
            None => select(d, e, q[0], None, depth),
        };
        select_all_from(d, g0, q, 1, depth)
    }
}

/// What the queries find from `e`, merged in document order.
pub open spec fn find_in(d: &Document, e: Seq<usize>, ps: Seq<ProcV>, depth: nat) -> Seq<usize>
    decreases ps.len(),
{
    if ps.len() == 0 {
        Seq::empty()
    } else {
        let r = find_in(d, e, ps.drop_last(), depth);
        let g = proc_group(d, e, ps.last(), depth);
        if g.len() > 0 {
            merge(d, r, g)
        } else {
            r
        }
    }
}

/// The nodes of `e` that pass the query `q` as a filter.
pub open spec fn filtered(d: &Document, e: Seq<usize>, q: Seq<Seq<(MK, Combinator)>>, depth: nat) -> Seq<usize> {
    e.filter(|x: usize| query_filter(d, x as int, q, depth))
}

/// The nodes of `e` that pass the queries as filters, merged per query in
/// document order.
pub open spec fn filter_all(d: &Document, e: Seq<usize>, ps: Seq<ProcV>, depth: nat) -> Seq<usize>
    decreases ps.len(),
{
    if ps.len() == 0 {
        Seq::empty()
    } else {
        let r = filter_all(d, e, ps.drop_last(), depth);
        let f = filtered(d, e, ps.last().1, depth);
        if f.len() > 0 {
            merge(d, r, f)
        } else {
            r
        }
    }
}

/// See `select_from`.
fn select_from_exec(d: &Document, e: Vec<usize>, c: &Vec<SelectorSegment>, k: usize, depth: usize) -> (r: Vec<usize>)
    requires
        d.wf(),
        all_valid(d, e@),
    ensures
        r@ == select_from(d, e@, compound_view(c@), k as int, depth as nat),
        all_valid(d, r@),
    decreases c@.len() - k,
{
    if k >= c.len() {
        return e;
    }
    let ghost cv = compound_view(c@);
    assert(cv[k as int] == (mk_view(c@[k as int].0.kind), c@[k as int].1));
    let next = step_exec(d, &e, &c[k].0.kind, c[k].1, depth);
    select_from_exec(d, next, c, k + 1, depth)
}

/// See `select`.
fn select_exec(d: &Document, e: &Vec<usize>, c: &Vec<SelectorSegment>, comb: Option<Combinator>, depth: usize) -> (r: Vec<
    usize,
>)
    requires
        d.wf(),
        all_valid(d, e@),
    ensures
        r@ == select(d, e@, compound_view(c@), comb, depth as nat),
        all_valid(d, r@),
{
    if c.len() == 0 {
        return Vec::new();
    }
    let first = match comb {
        Some(x) => x,
        None => c[0].1,
    };
    let ghost cv = compound_view(c@);
    assert(cv[0] == (mk_view(c@[0].0.kind), c@[0].1));
    let s0 = step_exec(d, e, &c[0].0.kind, first, depth);
    select_from_exec(d, s0, c, 1, depth)
}

/// See `select_all_from`.
fn select_all_from_exec(d: &Document, e: Vec<usize>, q: &Vec<Vec<SelectorSegment>>, k: usize, depth: usize) -> (r: Vec<
    usize,
>)
    requires
        d.wf(),
        all_valid(d, e@),
    ensures
        r@ == select_all_from(d, e@, compounds_view(q@), k as int, depth as nat),
        all_valid(d, r@),
    decreases q@.len() - k,
{
    if k >= q.len() {
        return e;
    }
    assert(compounds_view(q@)[k as int] == compound_view(q@[k as int]@));
    let next = select_exec(d, &e, &q[k], None, depth);
    select_all_from_exec(d, next, q, k + 1, depth)
}

/// See `proc_group`.
fn proc_group_exec(d: &Document, e: &Vec<usize>, p: &QueryProcess, depth: usize) -> (r: Vec<usize>)
    requires
        d.wf(),
        all_valid(d, e@),
    ensures
        r@ == proc_group(d, e@, proc_view(*p), depth as nat),
        all_valid(d, r@),
{
    let q = &p.query;
    if q.len() == 0 {
        return Vec::new();
    }
    let ghost qv = compounds_view(q@);
    assert(qv[0] == compound_view(q@[0]@));
    let g0 = match &p.should_in {
        Some(lookup) => {
            let found = select_exec(d, e, &q[0], Some(Combinator::ChildrenAll), depth);
            let hc = head_comb_exec(&q[0]);
            let ghost f = |y: usize| lookup_ok(d, e@, y as int, head_comb(qv[0]), compounds_view(lookup@), depth as nat);
            let mut g: Vec<usize> = Vec::new();
            let mut i: usize = 0;
            assert(found@.take(0).filter(f) =~= Seq::<usize>::empty()) by {
                reveal(Seq::filter);
            }
            while i < found.len()
                invariant
                    d.wf(),
                    all_valid(d, found@),
                    all_valid(d, g@),
                    hc == head_comb(qv[0]),
                    f == (|y: usize| lookup_ok(d, e@, y as int, head_comb(qv[0]), compounds_view(lookup@), depth as nat)),
                    i <= found@.len(),
                    g@ == found@.take(i as int).filter(f),
                decreases found.len() - i,
            {
                let y = found[i];
                assert(d.valid(found@[i as int] as int));
                proof {
                    assert(found@.take(i + 1).drop_last() =~= found@.take(i as int));
                    reveal(Seq::filter);
                }
                if lookup_ok_exec(d, e.as_slice(), y, hc, lookup.as_slice(), depth) {
                    g.push(y);
                }
                i += 1;
            }
            assert(found@.take(i as int) =~= found@);
            g
        },
        None => select_exec(d, e, &q[0], None, depth),
    };
    select_all_from_exec(d, g0, q, 1, depth)
}

/// See `find_in`.
pub fn find_in_exec(d: &Document, e: &Vec<usize>, ps: &Vec<QueryProcess>, depth: usize) -> (r: Vec<usize>)
    requires
        d.wf(),
        all_valid(d, e@),
    ensures
        r@ == find_in(d, e@, procs_views(ps@), depth as nat),
        all_valid(d, r@),
{
    let ghost pv = procs_views(ps@);
    let mut r: Vec<usize> = Vec::new();
    let mut i: usize = 0;
    assert(pv.take(0) =~= Seq::<ProcV>::empty());
    while i < ps.len()
        invariant
            d.wf(),
            all_valid(d, e@),
            all_valid(d, r@),
            pv == procs_views(ps@),
            i <= ps@.len(),
            r@ == find_in(d, e@, pv.take(i as int), depth as nat),
        decreases ps.len() - i,
    {
        assert(pv.take(i + 1).drop_last() =~= pv.take(i as int));
        assert(pv[i as int] == proc_view(ps@[i as int]));
        let g = proc_group_exec(d, e, &ps[i], depth);
        if g.len() > 0 {
            r = merge_exec(d, &r, &g);
        }
        i += 1;
    }
    assert(pv.take(i as int) =~= pv);
    r
}

/// See `filtered`.
pub(crate) fn filtered_exec(d: &Document, e: &Vec<usize>, q: &Vec<Vec<SelectorSegment>>, depth: usize) -> (r: Vec<usize>)
    requires
        d.wf(),
        all_valid(d, e@),
    ensures
        r@ == filtered(d, e@, compounds_view(q@), depth as nat),
        all_valid(d, r@),
{
    let ghost f = |x: usize| query_filter(d, x as int, compounds_view(q@), depth as nat);
    let mut r: Vec<usize> = Vec::new();
    let mut i: usize = 0;
    assert(e@.take(0).filter(f) =~= Seq::<usize>::empty()) by {
        reveal(Seq::filter);
    }
    while i < e.len()
        invariant
            d.wf(),
            all_valid(d, e@),
            all_valid(d, r@),
            f == (|x: usize| query_filter(d, x as int, compounds_view(q@), depth as nat)),
            i <= e@.len(),
            r@ == e@.take(i as int).filter(f),
        decreases e.len() - i,
    {
        let x = e[i];
        assert(d.valid(e@[i as int] as int));
        proof {
            assert(e@.take(i + 1).drop_last() =~= e@.take(i as int));
            reveal(Seq::filter);
        }
        if query_filter_exec(d, x, q.as_slice(), depth) {
            r.push(x);
        }
        i += 1;
    }
    assert(e@.take(i as int) =~= e@);
    r
}

/// See `filter_all`.
pub fn filter_all_exec(d: &Document, e: &Vec<usize>, ps: &Vec<QueryProcess>, depth: usize) -> (r: Vec<usize>)
    requires
        d.wf(),
        all_valid(d, e@),
    ensures
        r@ == filter_all(d, e@, procs_views(ps@), depth as nat),
        all_valid(d, r@),
{
    let ghost pv = procs_views(ps@);
    let mut r: Vec<usize> = Vec::new();
    let mut i: usize = 0;
    assert(pv.take(0) =~= Seq::<ProcV>::empty());
    while i < ps.len()
        invariant
            d.wf(),
            all_valid(d, e@),
            all_valid(d, r@),
            pv == procs_views(ps@),
            i <= ps@.len(),
            r@ == filter_all(d, e@, pv.take(i as int), depth as nat),
        decreases ps.len() - i,
    {
        assert(pv.take(i + 1).drop_last() =~= pv.take(i as int));
        assert(pv[i as int] == proc_view(ps@[i as int]));
        let f = filtered_exec(d, e, &ps[i].query, depth);
        if f.len() > 0 {
            r = merge_exec(d, &r, &f);
        }
        i += 1;
    }
    assert(pv.take(i as int) =~= pv);
    r
}

} // verus!
