//! Properties that hold across the operations of the library.
use crate::chars::spec_lower_seq;
use crate::dom::{map_find, map_remove, node_attr, quote_run, remove_attr_node, set_attr_node, Document, NodeKind, NodeV};
use crate::elements::{filter_all, filtered, merge, ProcV};
use crate::insert::{allowed_of, insert_spec, ns_above, ns_is_document, InsertPosition};
use crate::mutate::{detached, distinct, pos_of, relinked};
use crate::sets::{index_from, kept_in, slice_result, slice_start, SliceEnd};
use crate::settext::{html_encoded, set_text_spec, text_node};
use crate::html::{parsed, rendered, spec_content_tag, ParseOptions, RenderOptions};
use crate::load::{loaded, pt_rtree};
use crate::traverse::some_filtered;
use crate::tree::{index_before, lemma_before_total};
use crate::chars::spec_is_ws;
use crate::content::{add_class_value, append_missing, class_has_all, has_all_classes, node_class};
use crate::utils::{spec_class_list, spec_class_split, spec_join_classes};
use crate::visit::{kept, marks};
use crate::nth::{spec_allowed_indexs, spec_nth_item, spec_nth_items};
use crate::utils::{spec_divide, spec_trunc_div, spec_trunc_rem, RoundType};
use vstd::arithmetic::div_mod::{lemma_fundamental_div_mod, lemma_mod_pos_bound};
use vstd::prelude::*;

verus! {

/// A set filtered by a selector is empty exactly when no query keeps any of
/// its nodes: `filter` finds something exactly when `is` holds.
pub proof fn law_filter_nonempty_iff_is(d: &Document, e: Seq<usize>, ps: Seq<ProcV>, depth: nat)
    ensures
        (filter_all(d, e, ps, depth).len() > 0) == some_filtered(d, e, ps, depth),
    decreases ps.len(),
{
    if ps.len() > 0 {
        let init = ps.drop_last();
        law_filter_nonempty_iff_is(d, e, init, depth);
        let r = filter_all(d, e, init, depth);
        let f = filtered(d, e, ps.last().1, depth);
        if f.len() > 0 {
            lemma_merge_len(d, r, f);
            assert(ps[ps.len() - 1] == ps.last());
        } else {
            if some_filtered(d, e, ps, depth) {
                let i = choose|i: int| 0 <= i < ps.len() && filtered(d, e, (#[trigger] ps[i]).1, depth).len() > 0;
                if i < ps.len() - 1 {
                    assert(init[i] == ps[i]);
                }
            }
            if some_filtered(d, e, init, depth) {
                let i = choose|i: int| 0 <= i < init.len() && filtered(d, e, (#[trigger] init[i]).1, depth).len() > 0;
                assert(init[i] == ps[i]);
            }
        }
    }
}

/// A merge is at least as long as each list.
proof fn lemma_merge_len(d: &Document, a: Seq<usize>, b: Seq<usize>)
    ensures
        merge(d, a, b).len() >= a.len(),
        merge(d, a, b).len() >= b.len(),
    decreases a.len() + b.len(),
{
    if a.len() > 0 && b.len() > 0 {
        let pa = d.tree_path(a[0] as int);
        let pb = d.tree_path(b[0] as int);
        if crate::tree::index_before(pa, pb) {
            lemma_merge_len(d, a.drop_first(), b);
        } else if crate::tree::index_before(pb, pa) {
            lemma_merge_len(d, a, b.drop_first());
        } else {
            lemma_merge_len(d, a.drop_first(), b.drop_first());
        }
    }
}

/// Every node of a merge comes from one of the two lists, and every node
/// of the first list is in the merge: `add` keeps what the set had and
/// brings nothing foreign.
pub proof fn law_merge_members(d: &Document, a: Seq<usize>, b: Seq<usize>)
    ensures
        forall|k: int| 0 <= k < merge(d, a, b).len() ==> a.contains(#[trigger] merge(d, a, b)[k]) || b.contains(merge(d, a, b)[k]),
        forall|k: int| 0 <= k < a.len() ==> merge(d, a, b).contains(#[trigger] a[k]),
    decreases a.len() + b.len(),
{
    let m = merge(d, a, b);
    if a.len() == 0 || b.len() == 0 {
        assert forall|k: int| 0 <= k < m.len() implies a.contains(#[trigger] m[k]) || b.contains(m[k]) by {
            if a.len() == 0 {
                assert(b[k] == m[k]);
            } else {
                assert(a[k] == m[k]);
            }
        }
        assert forall|k: int| 0 <= k < a.len() implies m.contains(#[trigger] a[k]) by {
            assert(m[k] == a[k]);
        }
    } else {
        let pa = d.tree_path(a[0] as int);
        let pb = d.tree_path(b[0] as int);
        if crate::tree::index_before(pa, pb) {
            let a1 = a.drop_first();
            law_merge_members(d, a1, b);
            let r = merge(d, a1, b);
            assert(m == seq![a[0]] + r);
            assert forall|k: int| 0 <= k < m.len() implies a.contains(#[trigger] m[k]) || b.contains(m[k]) by {
                if k == 0 {
                    assert(a[0] == m[0]);
                } else {
                    assert(m[k] == r[k - 1]);
                    if a1.contains(r[k - 1]) {
                        let j = choose|j: int| 0 <= j < a1.len() && a1[j] == r[k - 1];
                        assert(a[j + 1] == r[k - 1]);
                    }
                }
            }
            assert forall|k: int| 0 <= k < a.len() implies m.contains(#[trigger] a[k]) by {
                if k == 0 {
                    assert(m[0] == a[0]);
                } else {
                    assert(a[k] == a1[k - 1]);
                    assert(r.contains(a1[k - 1]));
                    let j = choose|j: int| 0 <= j < r.len() && r[j] == a1[k - 1];
                    assert(m[j + 1] == r[j]);
                }
            }
        } else if crate::tree::index_before(pb, pa) {
            let b1 = b.drop_first();
            law_merge_members(d, a, b1);
            let r = merge(d, a, b1);
            assert(m == seq![b[0]] + r);
            assert forall|k: int| 0 <= k < m.len() implies a.contains(#[trigger] m[k]) || b.contains(m[k]) by {
                if k == 0 {
                    assert(b[0] == m[0]);
                } else {
                    assert(m[k] == r[k - 1]);
                    if b1.contains(r[k - 1]) {
                        let j = choose|j: int| 0 <= j < b1.len() && b1[j] == r[k - 1];
                        assert(b[j + 1] == r[k - 1]);
                    }
                }
            }
            assert forall|k: int| 0 <= k < a.len() implies m.contains(#[trigger] a[k]) by {
                assert(r.contains(a[k]));
                let j = choose|j: int| 0 <= j < r.len() && r[j] == a[k];
                assert(m[j + 1] == r[j]);
            }
        } else {
            let a1 = a.drop_first();
            let b1 = b.drop_first();
            law_merge_members(d, a1, b1);
            let r = merge(d, a1, b1);
            assert(m == seq![a[0]] + r);
            assert forall|k: int| 0 <= k < m.len() implies a.contains(#[trigger] m[k]) || b.contains(m[k]) by {
                if k == 0 {
                    assert(a[0] == m[0]);
                } else {
                    assert(m[k] == r[k - 1]);
                    if a1.contains(r[k - 1]) {
                        let j = choose|j: int| 0 <= j < a1.len() && a1[j] == r[k - 1];
                        assert(a[j + 1] == r[k - 1]);
                    } else {
                        let j = choose|j: int| 0 <= j < b1.len() && b1[j] == r[k - 1];
                        assert(b[j + 1] == r[k - 1]);
                    }
                }
            }
            assert forall|k: int| 0 <= k < a.len() implies m.contains(#[trigger] a[k]) by {
                if k == 0 {
                    assert(m[0] == a[0]);
                } else {
                    assert(a[k] == a1[k - 1]);
                    assert(r.contains(a1[k - 1]));
                    let j = choose|j: int| 0 <= j < r.len() && r[j] == a1[k - 1];
                    assert(m[j + 1] == r[j]);
                }
            }
        }
    }
}

/// The nodes of `s` are in document order, each strictly before the next.
pub open spec fn in_doc_order(d: &Document, s: Seq<usize>) -> bool {
    forall|i: int, j: int|
        0 <= i < j < s.len() ==> index_before(d.tree_path(#[trigger] s[i] as int), d.tree_path(#[trigger] s[j] as int))
}

/// `m` holds a node at the position of `x`.
pub open spec fn has_node_at(d: &Document, m: Seq<usize>, x: usize) -> bool {
    exists|j: int| 0 <= j < m.len() && d.tree_path(#[trigger] m[j] as int) == d.tree_path(x as int)
}

/// `add` of two sets in document order gives a set in document order that
/// holds every node of the first set and, for every node of the second, a
/// node at the same position (the node itself, or the first set's node
/// there).
pub proof fn law_merge_ordered(d: &Document, a: Seq<usize>, b: Seq<usize>)
    requires
        in_doc_order(d, a),
        in_doc_order(d, b),
    ensures
        in_doc_order(d, merge(d, a, b)),
        forall|k: int| 0 <= k < a.len() ==> merge(d, a, b).contains(#[trigger] a[k]),
        forall|k: int| 0 <= k < b.len() ==> has_node_at(d, merge(d, a, b), #[trigger] b[k]),
    decreases a.len() + b.len(),
{
    law_merge_members(d, a, b);
    let m = merge(d, a, b);
    if a.len() == 0 {
        assert forall|k: int| 0 <= k < b.len() implies has_node_at(d, m, #[trigger] b[k]) by {
            assert(m[k] == b[k]);
        }
    } else if b.len() == 0 {
    } else {
        let pa = d.tree_path(a[0] as int);
        let pb = d.tree_path(b[0] as int);
        lemma_before_total(pa, pb);
        let a1 = a.drop_first();
        let b1 = b.drop_first();
        assert(in_doc_order(d, a1)) by {
            assert forall|i: int, j: int| 0 <= i < j < a1.len() implies index_before(
                d.tree_path(#[trigger] a1[i] as int),
                d.tree_path(#[trigger] a1[j] as int),
            ) by {
                assert(a1[i] == a[i + 1] && a1[j] == a[j + 1]);
            }
        }
        assert(in_doc_order(d, b1)) by {
            assert forall|i: int, j: int| 0 <= i < j < b1.len() implies index_before(
                d.tree_path(#[trigger] b1[i] as int),
                d.tree_path(#[trigger] b1[j] as int),
            ) by {
                assert(b1[i] == b[i + 1] && b1[j] == b[j + 1]);
            }
        }
        // the nodes after the first of a list come after it
        assert forall|k: int| 0 <= k < a1.len() implies index_before(pa, d.tree_path(#[trigger] a1[k] as int)) by {
            assert(a1[k] == a[k + 1]);
            assert(index_before(d.tree_path(a[0] as int), d.tree_path(a[k + 1] as int)));
        }
        assert forall|k: int| 0 <= k < b1.len() implies index_before(pb, d.tree_path(#[trigger] b1[k] as int)) by {
            assert(b1[k] == b[k + 1]);
            assert(index_before(d.tree_path(b[0] as int), d.tree_path(b[k + 1] as int)));
        }
        if index_before(pa, pb) {
            law_merge_ordered(d, a1, b);
            let r = merge(d, a1, b);
            law_merge_members(d, a1, b);
            assert(m == seq![a[0]] + r);
            assert forall|k: int| 0 <= k < r.len() implies index_before(pa, d.tree_path(#[trigger] r[k] as int)) by {
                if a1.contains(r[k]) {
                    let t = choose|t: int| 0 <= t < a1.len() && a1[t] == r[k];
                    assert(index_before(pa, d.tree_path(a1[t] as int)));
                } else {
                    let t = choose|t: int| 0 <= t < b.len() && b[t] == r[k];
                    if t > 0 {
                        assert(b1[t - 1] == b[t]);
                        assert(index_before(pb, d.tree_path(b1[t - 1] as int)));
                        crate::tree::lemma_index_order_trans(pa, pb, d.tree_path(b[t] as int));
                    }
                }
            }
            assert forall|i: int, j: int| 0 <= i < j < m.len() implies index_before(
                d.tree_path(#[trigger] m[i] as int),
                d.tree_path(#[trigger] m[j] as int),
            ) by {
                if i == 0 {
                    assert(m[j] == r[j - 1]);
                } else {
                    assert(m[i] == r[i - 1] && m[j] == r[j - 1]);
                }
            }
            assert forall|k: int| 0 <= k < b.len() implies has_node_at(d, m, #[trigger] b[k]) by {
                assert(has_node_at(d, r, b[k]));
                let j = choose|j: int| 0 <= j < r.len() && d.tree_path(#[trigger] r[j] as int) == d.tree_path(b[k] as int);
                assert(m[j + 1] == r[j]);
            }
        } else if index_before(pb, pa) {
            law_merge_ordered(d, a, b1);
            let r = merge(d, a, b1);
            law_merge_members(d, a, b1);
            assert(m == seq![b[0]] + r);
            assert forall|k: int| 0 <= k < r.len() implies index_before(pb, d.tree_path(#[trigger] r[k] as int)) by {
                if b1.contains(r[k]) {
                    let t = choose|t: int| 0 <= t < b1.len() && b1[t] == r[k];
                    assert(index_before(pb, d.tree_path(b1[t] as int)));
                } else {
                    let t = choose|t: int| 0 <= t < a.len() && a[t] == r[k];
                    if t > 0 {
                        assert(a1[t - 1] == a[t]);
                        assert(index_before(pa, d.tree_path(a1[t - 1] as int)));
                        crate::tree::lemma_index_order_trans(pb, pa, d.tree_path(a[t] as int));
                    }
                }
            }
            assert forall|i: int, j: int| 0 <= i < j < m.len() implies index_before(
                d.tree_path(#[trigger] m[i] as int),
                d.tree_path(#[trigger] m[j] as int),
            ) by {
                if i == 0 {
                    assert(m[j] == r[j - 1]);
                } else {
                    assert(m[i] == r[i - 1] && m[j] == r[j - 1]);
                }
            }
            assert forall|k: int| 0 <= k < b.len() implies has_node_at(d, m, #[trigger] b[k]) by {
                if k == 0 {
                    assert(m[0] == b[0]);
                } else {
                    assert(b1[k - 1] == b[k]);
                    assert(has_node_at(d, r, b1[k - 1]));
                    let j = choose|j: int| 0 <= j < r.len() && d.tree_path(#[trigger] r[j] as int) == d.tree_path(b1[k - 1] as int);
                    assert(m[j + 1] == r[j]);
                }
            }
        } else {
            law_merge_ordered(d, a1, b1);
            let r = merge(d, a1, b1);
            law_merge_members(d, a1, b1);
            assert(pa == pb);
            assert(m == seq![a[0]] + r);
            assert forall|k: int| 0 <= k < r.len() implies index_before(pa, d.tree_path(#[trigger] r[k] as int)) by {
                if a1.contains(r[k]) {
                    let t = choose|t: int| 0 <= t < a1.len() && a1[t] == r[k];
                    assert(index_before(pa, d.tree_path(a1[t] as int)));
                } else {
                    let t = choose|t: int| 0 <= t < b1.len() && b1[t] == r[k];
                    assert(index_before(pb, d.tree_path(b1[t] as int)));
                }
            }
            assert forall|i: int, j: int| 0 <= i < j < m.len() implies index_before(
                d.tree_path(#[trigger] m[i] as int),
                d.tree_path(#[trigger] m[j] as int),
            ) by {
                if i == 0 {
                    assert(m[j] == r[j - 1]);
                } else {
                    assert(m[i] == r[i - 1] && m[j] == r[j - 1]);
                }
            }
            assert forall|k: int| 0 <= k < b.len() implies has_node_at(d, m, #[trigger] b[k]) by {
                if k == 0 {
                    assert(m[0] == a[0]);
                } else {
                    assert(b1[k - 1] == b[k]);
                    assert(has_node_at(d, r, b1[k - 1]));
                    let j = choose|j: int| 0 <= j < r.len() && d.tree_path(#[trigger] r[j] as int) == d.tree_path(b1[k - 1] as int);
                    assert(m[j + 1] == r[j]);
                }
            }
        }
    }
}

/// Each node of a set goes to exactly one of `filter_in` and `not_in`: the
/// two results together are as long as the set.
pub proof fn law_in_not_in_partition(e: Seq<usize>, s: Seq<usize>, start: int)
    ensures
        kept_in(e, s, start, true).len() + kept_in(e, s, start, false).len() == e.len(),
    decreases e.len(),
{
    if e.len() > 0 {
        match index_from(s, e[0], start) {
            Some(i) => law_in_not_in_partition(e.drop_first(), s, i + 1),
            None => law_in_not_in_partition(e.drop_first(), s, start),
        }
    }
}

/// After `remove`, a node has no parent and its former parent no longer
/// lists it.
pub proof fn law_removed_node(ns: Seq<NodeV>, x: int)
    requires
        0 <= x < ns.len(),
        ns[x].parent matches Some(p) && 0 <= p < ns.len() && ns[x].index < ns[p as int].children.len()
            && ns[p as int].children[ns[x].index as int] == x && p != x,
        forall|a: int, b: int|
            0 <= a < b < ns[ns[x].parent.unwrap() as int].children.len() ==> ns[ns[x].parent.unwrap() as int].children[a]
                != ns[ns[x].parent.unwrap() as int].children[b],
    ensures
        detached(ns, x)[x].parent is None,
        !detached(ns, x)[ns[x].parent.unwrap() as int].children.contains(x as usize),
{
    let p = ns[x].parent.unwrap() as int;
    let kids = ns[p].children;
    let idx = ns[x].index as int;
    let l = kids.remove(idx);
    if l.contains(x as usize) {
        let j = choose|j: int| 0 <= j < l.len() && l[j] == x as usize;
        let j0 = if j < idx { j } else { j + 1 };
        assert(l[j] == kids[j0]);
    }
    assert(kids.contains(x as usize)) by {
        assert(kids[idx] == x as usize);
    }
}

/// Appending a node that is not a root, nor the target or one of its
/// ancestors, to an element that allows it makes it the element's last
/// child.
pub proof fn law_append_last(ns: Seq<NodeV>, t: usize, x: usize)
    requires
        t < ns.len(),
        x < ns.len(),
        ns[t as int].kind == NodeKind::Tag,
        ns[x as int].kind != NodeKind::Root,
        t != x,
        !ns_above(ns, x as int, t as int),
        crate::html::spec_allow_insert(spec_lower_seq(ns[t as int].name), ns[x as int].kind),
    ensures
        insert_spec(ns, t as int, InsertPosition::BeforeEnd, x as int)[x as int].parent == Some(t),
        insert_spec(ns, t as int, InsertPosition::BeforeEnd, x as int)[t as int].children.last() == x,
{
    reveal_with_fuel(allowed_of, 2);
    let ns1 = detached(ns, x as int);
    let nodes0 = seq![x];
    assert(nodes0.drop_last() =~= Seq::<usize>::empty());
    assert(nodes0.last() == x);
    assert(allowed_of(spec_lower_seq(ns[t as int].name), ns, nodes0) =~= nodes0);
    assert(ns1.len() == ns.len());
    let list = ns1[t as int].children + nodes0;
    assert(list[list.len() - 1] == x);
    assert(list.contains(x));
}

/// Setting a non-empty text on an element that does not hold raw text
/// leaves it one child: a new text node of the encoded text.
pub proof fn law_set_text_child(ns: Seq<NodeV>, x: int, content: Seq<char>)
    requires
        0 <= x < ns.len(),
        ns[x].kind == NodeKind::Tag,
        !spec_content_tag(spec_lower_seq(ns[x].name)),
        content.len() > 0,
    ensures
        set_text_spec(ns, x, content)[x].children == seq![ns.len() as usize],
        set_text_spec(ns, x, content)[ns.len() as int] == (NodeV {
            parent: Some(x as usize),
            index: 0,
            ..text_node(html_encoded(content))
        }),
{
    let ns1 = ns.push(text_node(html_encoded(content)));
    let r = relinked(ns1, x, seq![ns.len() as usize]);
    assert(seq![ns.len() as usize].contains(ns.len() as usize)) by {
        assert(seq![ns.len() as usize][0] == ns.len() as usize);
    }
    let k = crate::mutate::pos_of(seq![ns.len() as usize], ns.len() as usize);
    assert(k == 0);
}

/// An attribute was found, with the value `v`.
pub open spec fn read_value_is(r: Option<(Option<Seq<char>>, Option<char>)>, v: Option<Seq<char>>) -> bool {
    match r {
        Some((x, _)) => x == v,
        None => false,
    }
}

/// After setting an attribute, reading it gives the value as written (its
/// quotes encoded, see `quote_run`); an attribute set without a value reads
/// as one without a value.
pub proof fn law_set_attr_read(n: NodeV, name: Seq<char>, value: Option<Seq<char>>)
    requires
        forall|k: int| 0 <= k < n.attr_map.len() ==> (#[trigger] n.attr_map[k]).1 < n.attrs.len(),
        n.attrs.len() < usize::MAX,
    ensures
        read_value_is(
            node_attr(set_attr_node(n, name, value), name),
            match value {
                Some(s) => Some(quote_run(s).out),
                None => None,
            },
        ),
{
    let lname = spec_lower_seq(name);
    let n2 = set_attr_node(n, name, value);
    match map_find(n.attr_map, lname) {
        Some(p) => {
            lemma_map_find_in(n.attr_map, lname);
            let k = choose|k: int| 0 <= k < n.attr_map.len() && n.attr_map[k].1 == p;
            assert(n.attr_map[k].1 < n.attrs.len());
            assert(n2.attr_map == n.attr_map);
            assert(n2.attrs[p as int].value == match value {
                Some(s) => Some(quote_run(s).out),
                None => None::<Seq<char>>,
            });
        },
        None => {
            lemma_map_find_push(n.attr_map, lname, n.attrs.len() as usize);
            assert(n2.attrs[n.attrs.len() as int].value == match value {
                Some(s) => Some(quote_run(s).out),
                None => None::<Seq<char>>,
            });
        },
    }
}

proof fn lemma_map_find_in(m: Seq<(Seq<char>, usize)>, key: Seq<char>)
    requires
        map_find(m, key) is Some,
    ensures
        exists|k: int| 0 <= k < m.len() && m[k].1 == map_find(m, key).unwrap(),
    decreases m.len(),
{
    if m.len() > 0 && m[0].0 != key {
        lemma_map_find_in(m.drop_first(), key);
        let k = choose|k: int| 0 <= k < m.drop_first().len() && m.drop_first()[k].1 == map_find(m, key).unwrap();
        assert(m[k + 1] == m.drop_first()[k]);
    }
}

proof fn lemma_map_find_push(m: Seq<(Seq<char>, usize)>, key: Seq<char>, v: usize)
    requires
        map_find(m, key) is None,
    ensures
        map_find(m.push((key, v)), key) == Some(v),
    decreases m.len(),
{
    if m.len() > 0 {
        lemma_map_find_push(m.drop_first(), key, v);
        assert(m.push((key, v)).drop_first() =~= m.drop_first().push((key, v)));
    } else {
        assert(m.push((key, v)) =~= seq![(key, v)]);
    }
}

/// After removing an attribute by its lowercase name, reading it gives
/// nothing, where the node's map names each key once.
pub proof fn law_remove_attr_read(n: NodeV, name: Seq<char>)
    requires
        name == spec_lower_seq(name),
        forall|a: int, b: int| 0 <= a < b < n.attr_map.len() ==> n.attr_map[a].0 != n.attr_map[b].0,
    ensures
        node_attr(remove_attr_node(n, name), name) is None,
{
    match map_find(n.attr_map, name) {
        None => {},
        Some(p) => {
            lemma_map_remove_gone(n.attr_map, name);
        },
    }
}

proof fn lemma_map_remove_gone(m: Seq<(Seq<char>, usize)>, key: Seq<char>)
    requires
        forall|a: int, b: int| 0 <= a < b < m.len() ==> m[a].0 != m[b].0,
    ensures
        map_find(map_remove(m, key), key) is None,
    decreases m.len(),
{
    if m.len() > 0 {
        let rest = m.drop_first();
        assert forall|a: int, b: int| 0 <= a < b < rest.len() implies rest[a].0 != rest[b].0 by {
            assert(rest[a] == m[a + 1] && rest[b] == m[b + 1]);
        }
        if m[0].0 == key {
            assert forall|k: int| 0 <= k < rest.len() implies rest[k].0 != key by {
                assert(rest[k] == m[k + 1]);
            }
            lemma_map_find_none(rest, key);
        } else {
            lemma_map_remove_gone(rest, key);
            let r = seq![m[0]] + map_remove(rest, key);
            assert(r.drop_first() =~= map_remove(rest, key));
        }
    }
}

proof fn lemma_map_find_none(m: Seq<(Seq<char>, usize)>, key: Seq<char>)
    requires
        forall|k: int| 0 <= k < m.len() ==> m[k].0 != key,
    ensures
        map_find(m, key) is None,
    decreases m.len(),
{
    if m.len() > 0 {
        lemma_map_find_none(m.drop_first(), key);
    }
}

/// A class name: not empty, without whitespace.
pub open spec fn class_name_ok(c: Seq<char>) -> bool {
    c.len() > 0 && forall|k: int| 0 <= k < c.len() ==> !spec_is_ws(#[trigger] c[k])
}

proof fn lemma_split_append_word(p: Seq<char>, q: Seq<char>)
    requires
        forall|k: int| 0 <= k < q.len() ==> !spec_is_ws(#[trigger] q[k]),
    ensures
        spec_class_split(p + q) == (spec_class_split(p).0, spec_class_split(p).1 + q),
    decreases q.len(),
{
    if q.len() == 0 {
        assert(p + q =~= p);
        assert(spec_class_split(p).1 + q =~= spec_class_split(p).1);
    } else {
        let q1 = q.drop_last();
        assert forall|k: int| 0 <= k < q1.len() implies !spec_is_ws(#[trigger] q1[k]) by {
            assert(q1[k] == q[k]);
        }
        lemma_split_append_word(p, q1);
        assert((p + q).drop_last() =~= p + q1);
        assert((p + q).last() == q.last());
        assert(!spec_is_ws(q[q.len() - 1]));
        assert((spec_class_split(p).1 + q1).push(q.last()) =~= spec_class_split(p).1 + q);
    }
}

/// The names joined by single spaces split back into their pieces: all but
/// the last are finished, the last is being read.
proof fn lemma_split_join(w: Seq<Seq<char>>)
    requires
        w.len() > 0,
        forall|k: int| 0 <= k < w.len() ==> class_name_ok(#[trigger] w[k]),
    ensures
        spec_class_split(spec_join_classes(w)) == (w.drop_last(), w.last()),
    decreases w.len(),
{
    assert(class_name_ok(w[w.len() - 1]));
    if w.len() == 1 {
        lemma_split_append_word(Seq::empty(), w[0]);
        assert(Seq::<char>::empty() + w[0] =~= w[0]);
        assert(Seq::<char>::empty() + w[0] =~= w[0]);
        assert(w.drop_last() =~= Seq::<Seq<char>>::empty());
    } else {
        let w1 = w.drop_last();
        assert forall|k: int| 0 <= k < w1.len() implies class_name_ok(#[trigger] w1[k]) by {
            assert(w1[k] == w[k]);
        }
        lemma_split_join(w1);
        let j1 = spec_join_classes(w1);
        assert(class_name_ok(w1[w1.len() - 1]));
        let sp = j1.push(' ');
        assert(sp.drop_last() =~= j1);
        assert(spec_class_split(sp) == (w1.drop_last().push(w1.last()), Seq::<char>::empty()));
        assert(w1.drop_last().push(w1.last()) =~= w1);
        lemma_split_append_word(sp, w.last());
        assert(Seq::<char>::empty() + w.last() =~= w.last());
    }
}

/// The class names of names joined by single spaces are the names.
pub proof fn lemma_class_list_join(w: Seq<Seq<char>>)
    requires
        forall|k: int| 0 <= k < w.len() ==> class_name_ok(#[trigger] w[k]),
    ensures
        spec_class_list(spec_join_classes(w)) == w,
{
    if w.len() == 0 {
        assert(spec_join_classes(w) =~= Seq::<char>::empty());
        assert(spec_class_list(Seq::<char>::empty()) =~= w);
    } else {
        lemma_split_join(w);
        assert(class_name_ok(w[w.len() - 1]));
        assert(w.drop_last().push(w.last()) =~= w);
    }
}

proof fn lemma_split_names(s: Seq<char>)
    ensures
        forall|k: int| 0 <= k < spec_class_split(s).0.len() ==> class_name_ok(#[trigger] spec_class_split(s).0[k]),
        forall|k: int| 0 <= k < spec_class_split(s).1.len() ==> !spec_is_ws(#[trigger] spec_class_split(s).1[k]),
    decreases s.len(),
{
    if s.len() > 0 {
        lemma_split_names(s.drop_last());
        let (l0, c0) = spec_class_split(s.drop_last());
        if !spec_is_ws(s.last()) {
            assert forall|k: int| 0 <= k < c0.push(s.last()).len() implies !spec_is_ws(#[trigger] c0.push(s.last())[k]) by {
                if k < c0.len() {
                    assert(c0.push(s.last())[k] == c0[k]);
                }
            }
        }
    }
}

/// The class names read from a text are class names.
pub proof fn lemma_class_list_names(s: Seq<char>)
    ensures
        forall|k: int| 0 <= k < spec_class_list(s).len() ==> class_name_ok(#[trigger] spec_class_list(s)[k]),
{
    lemma_split_names(s);
}

proof fn lemma_append_missing(o: Seq<Seq<char>>, list: Seq<Seq<char>>)
    ensures
        forall|k: int| 0 <= k < list.len() ==> append_missing(o, list).contains(#[trigger] list[k]),
        forall|k: int|
            0 <= k < append_missing(o, list).len() ==> o.contains(#[trigger] append_missing(o, list)[k])
                || list.contains(append_missing(o, list)[k]),
    decreases list.len(),
{
    if list.len() > 0 {
        let l1 = list.drop_last();
        lemma_append_missing(o, l1);
        let a1 = append_missing(o, l1);
        assert forall|k: int| 0 <= k < list.len() implies append_missing(o, list).contains(#[trigger] list[k]) by {
            if k < l1.len() {
                assert(l1[k] == list[k]);
                assert(a1.contains(l1[k]));
                if !a1.contains(list.last()) {
                    let t = choose|t: int| 0 <= t < a1.len() && a1[t] == l1[k];
                    assert(a1.push(list.last())[t] == l1[k]);
                }
            } else {
                if !a1.contains(list.last()) {
                    assert(a1.push(list.last())[a1.len() as int] == list.last());
                }
            }
        }
        assert forall|k: int| 0 <= k < append_missing(o, list).len() implies o.contains(
            #[trigger] append_missing(o, list)[k],
        ) || list.contains(append_missing(o, list)[k]) by {
            let a = append_missing(o, list);
            if k < a1.len() {
                assert(a[k] == a1[k]);
                if l1.contains(a1[k]) {
                    let t = choose|t: int| 0 <= t < l1.len() && l1[t] == a1[k];
                    assert(list[t] == a1[k]);
                }
            } else {
                assert(a[k] == list.last());
                assert(list[list.len() - 1] == list.last());
            }
        }
    }
}

/// Adding class names to a node with a class value gives a value that has
/// each of them, where the names are class names (as those read from the
/// text given to `add_class` are; see `lemma_class_list_names`).
pub proof fn law_add_class_has_all(n: NodeV, list: Seq<Seq<char>>, raw: Seq<char>)
    requires
        node_class(n) is Some,
        forall|k: int| 0 <= k < list.len() ==> class_name_ok(#[trigger] list[k]),
    ensures
        add_class_value(n, list, raw) matches Some(v) && has_all_classes(v, list),
{
    let v = node_class(n).unwrap();
    let o = spec_class_list(v);
    lemma_class_list_names(v);
    lemma_append_missing(o, list);
    let a = append_missing(o, list);
    assert forall|k: int| 0 <= k < a.len() implies class_name_ok(#[trigger] a[k]) by {
        if o.contains(a[k]) {
            let t = choose|t: int| 0 <= t < o.len() && o[t] == a[k];
            assert(class_name_ok(o[t]));
        } else {
            let t = choose|t: int| 0 <= t < list.len() && list[t] == a[k];
            assert(class_name_ok(list[t]));
        }
    }
    lemma_class_list_join(a);
}

/// A node without a class value takes the text given to `add_class` as it
/// is, and that text has each of its class names.
pub proof fn law_add_class_raw_has_all(n: NodeV, raw: Seq<char>)
    requires
        node_class(n) is None,
    ensures
        add_class_value(n, spec_class_list(raw), raw) matches Some(v) && has_all_classes(v, spec_class_list(raw)),
{
}

/// The text has no quote characters.
pub open spec fn quote_free(v: Seq<char>) -> bool {
    forall|k: int| 0 <= k < v.len() ==> #[trigger] v[k] != '"' && v[k] != '\''
}

/// A value without quotes is written as it is.
pub proof fn lemma_quote_free_run(v: Seq<char>)
    requires
        quote_free(v),
    ensures
        quote_run(v).out == v,
    decreases v.len(),
{
    if v.len() > 0 {
        let v1 = v.drop_last();
        assert forall|k: int| 0 <= k < v1.len() implies #[trigger] v1[k] != '"' && v1[k] != '\'' by {
            assert(v1[k] == v[k]);
        }
        lemma_quote_free_run(v1);
        assert(v[v.len() - 1] != '"' && v[v.len() - 1] != '\'');
        assert(v1.push(v.last()) =~= v);
    }
}

proof fn lemma_split_quote_free(s: Seq<char>)
    requires
        quote_free(s),
    ensures
        forall|k: int| 0 <= k < spec_class_split(s).0.len() ==> quote_free(#[trigger] spec_class_split(s).0[k]),
        quote_free(spec_class_split(s).1),
    decreases s.len(),
{
    if s.len() > 0 {
        let s1 = s.drop_last();
        assert forall|k: int| 0 <= k < s1.len() implies #[trigger] s1[k] != '"' && s1[k] != '\'' by {
            assert(s1[k] == s[k]);
        }
        lemma_split_quote_free(s1);
        let (l0, c0) = spec_class_split(s1);
        assert(s[s.len() - 1] != '"' && s[s.len() - 1] != '\'');
        assert forall|k: int| 0 <= k < c0.push(s.last()).len() implies #[trigger] c0.push(s.last())[k] != '"'
            && c0.push(s.last())[k] != '\'' by {
            if k < c0.len() {
                assert(c0.push(s.last())[k] == c0[k]);
            }
        }
    }
}

proof fn lemma_join_quote_free(w: Seq<Seq<char>>)
    requires
        forall|k: int| 0 <= k < w.len() ==> quote_free(#[trigger] w[k]),
    ensures
        quote_free(spec_join_classes(w)),
    decreases w.len(),
{
    if w.len() > 1 {
        let w1 = w.drop_last();
        assert forall|k: int| 0 <= k < w1.len() implies quote_free(#[trigger] w1[k]) by {
            assert(w1[k] == w[k]);
        }
        lemma_join_quote_free(w1);
        let j1 = spec_join_classes(w1);
        let l = w.last();
        assert(quote_free(w[w.len() - 1]));
        let j = j1.push(' ') + l;
        assert forall|k: int| 0 <= k < j.len() implies #[trigger] j[k] != '"' && j[k] != '\'' by {
            if k < j1.len() {
                assert(j[k] == j1[k]);
            } else if k > j1.len() {
                assert(j[k] == l[k - j1.len() - 1]);
            }
        }
    } else if w.len() == 1 {
        assert(quote_free(w[0]));
    }
}

/// After `add_class` on a node with a class value, reading its class value
/// gives every name added, where neither the value nor the names hold
/// quotes (quotes are written as entities).
pub proof fn law_add_class_then_has(n: NodeV, list: Seq<Seq<char>>, raw: Seq<char>)
    requires
        forall|k: int| 0 <= k < n.attr_map.len() ==> (#[trigger] n.attr_map[k]).1 < n.attrs.len(),
        n.attrs.len() < usize::MAX,
        node_class(n) matches Some(v) && quote_free(v),
        forall|k: int| 0 <= k < list.len() ==> class_name_ok(#[trigger] list[k]) && quote_free(list[k]),
    ensures
        class_has_all(set_attr_node(n, "class"@, add_class_value(n, list, raw)), list),
{
    let v = node_class(n).unwrap();
    law_add_class_has_all(n, list, raw);
    let o = spec_class_list(v);
    let a = append_missing(o, list);
    let nv = add_class_value(n, list, raw).unwrap();
    assert(nv == spec_join_classes(a));
    lemma_split_quote_free(v);
    lemma_append_missing(o, list);
    assert forall|k: int| 0 <= k < o.len() implies quote_free(#[trigger] o[k]) by {
        let (l, c) = spec_class_split(v);
        if k < l.len() {
            assert(o[k] == l[k]);
        } else {
            assert(o[k] == c);
        }
    }
    assert forall|k: int| 0 <= k < a.len() implies quote_free(#[trigger] a[k]) by {
        if o.contains(a[k]) {
            let t = choose|t: int| 0 <= t < o.len() && o[t] == a[k];
            assert(quote_free(o[t]));
        } else {
            let t = choose|t: int| 0 <= t < list.len() && list[t] == a[k];
            assert(quote_free(list[t]));
        }
    }
    lemma_join_quote_free(a);
    lemma_quote_free_run(nv);
    law_set_attr_read(n, "class"@, Some(nv));
}

/// With the same answers of the caller's function, `filter_by` and
/// `not_by` split a set in two: their results together are as long as the
/// set.
pub proof fn law_filter_by_not_by_partition(s: Seq<usize>, keep: Seq<bool>)
    requires
        keep.len() == s.len(),
    ensures
        kept(s, marks(keep, true)).len() + kept(s, marks(keep, false)).len() == s.len(),
    decreases s.len(),
{
    if s.len() > 0 {
        let n = s.len() - 1;
        let k1 = keep.take(n);
        law_filter_by_not_by_partition(s.drop_last(), k1);
        assert(marks(keep, true).take(n) =~= marks(k1, true));
        assert(marks(keep, false).take(n) =~= marks(k1, false));
    }
}

/// A document loaded from a text is written back (see
/// `Document::source_code`) as the renderer writes the tree that the parser
/// built of the text.
pub proof fn law_load_then_source(d: Document, html: Seq<char>, o: ParseOptions)
    requires
        loaded(d, parsed(html, o)),
    ensures
        rendered(d.render_tree(0), RenderOptions::spec_plain(), false) == rendered(
            pt_rtree(parsed(html, o), d.fuel()),
            RenderOptions::spec_plain(),
            false,
        ),
{
    assert(d.rtree(0, d.fuel()) == pt_rtree(parsed(html, o), d.fuel()));
}

/// `slice` with an included end position keeps the items from the start
/// position up to and including the end position, or up to the last item
/// where the list is shorter: as many items as that, in order.
pub proof fn law_slice_included(s: Seq<usize>, start: Option<usize>, e: usize)
    requires
        slice_start(s.len() as int, start) < s.len(),
        slice_start(s.len() as int, start) <= e,
        e < usize::MAX,
    ensures
        ({
            let b = slice_start(s.len() as int, start);
            let r = slice_result(s, start, SliceEnd::Included(e));
            &&& r.len() == (if e < s.len() { e + 1 } else { s.len() as int }) - b
            &&& forall|j: int| 0 <= j < r.len() ==> #[trigger] r[j] == s[b + j]
            &&& e < s.len() ==> r[e - b] == s[e as int]
        }),
{
}

/// Once `x` is taken out of its parent, the parent `p` of `t` lists its
/// children once each, `t` where its position says, and not `x`.
#[verifier::rlimit(60)]
#[verifier::spinoff_prover]
proof fn lemma_after_detached(d: &Document, t: usize, x: usize)
    requires
        d.wf(),
        d.valid(t as int),
        d.valid(x as int),
        d@[t as int].kind == NodeKind::Tag,
        d@[x as int].kind != NodeKind::Root,
        t != x,
        !ns_above(d@, x as int, t as int),
        d@[t as int].parent is Some,
    ensures
        ({
            let ns1 = detached(d@, x as int);
            let p = d@[t as int].parent.unwrap() as int;
            let kids = ns1[p].children;
            let i = ns1[t as int].index as int;
            &&& ns1.len() == d@.len()
            &&& ns1[t as int].parent == d@[t as int].parent
            &&& x as int != p
            &&& t as int != p
            &&& distinct(kids)
            &&& 0 <= i < kids.len()
            &&& kids[i] == t
            &&& !kids.contains(x)
            &&& kids.len() <= d@[p].children.len() <= usize::MAX
        }),
{
    let ns = d@;
    let p = ns[t as int].parent.unwrap() as int;
    let nodes0 = seq![x];
    let ns1 = detached(ns, x as int);
    crate::insert::lemma_moving(d, ns1, t, x, false, nodes0);
    crate::insert::lemma_linked_view(d);
    crate::mutate::lemma_kids(d, p);
    assert(nodes0[0] == x);
    assert(x as int != p);
    let kids = ns1[p].children;
    let i = ns1[t as int].index as int;
    assert(ns[p].children.len() <= usize::MAX) by {
        vstd::std_specs::vec::axiom_spec_len(&d.nodes@[p].children);
        assert(ns[p] == d.nodes@[p]@);
    }
    assert(distinct(kids) && 0 <= i < kids.len() && kids[i] == t && !kids.contains(x) && kids.len() <= ns[p].children.len()) by {
        match ns[x as int].parent {
            None => {
                assert(ns1 == ns);
                assert(ns[p].children[ns[t as int].index as int] == t);
                if kids.contains(x) {
                    let j = choose|j: int| 0 <= j < kids.len() && kids[j] == x;
                    assert(ns[p].children[j] == x);
                }
            },
            Some(q) => {
                let q = q as int;
                let ix = ns[x as int].index as int;
                crate::mutate::lemma_kids(d, q);
                let l = ns[q].children.remove(ix);
                assert(ns[q].children[ix] == x);
                assert(distinct(l)) by {
                    assert forall|a: int, b: int| 0 <= a < b < l.len() implies l[a] != l[b] by {
                        let a0 = if a < ix { a } else { a + 1 };
                        let b0 = if b < ix { b } else { b + 1 };
                        assert(l[a] == ns[q].children[a0]);
                        assert(l[b] == ns[q].children[b0]);
                    }
                }
                assert(!l.contains(x)) by {
                    if l.contains(x) {
                        let j = choose|j: int| 0 <= j < l.len() && l[j] == x;
                        let j0 = if j < ix { j } else { j + 1 };
                        assert(l[j] == ns[q].children[j0]);
                    }
                }
                if q == p {
                    assert(kids == l);
                    let it = ns[t as int].index as int;
                    assert(ns[q].children[it] == t);
                    assert(it != ix);
                    let jt = if it < ix { it } else { it - 1 };
                    assert(l[jt] == t);
                    assert(l.contains(t as usize));
                    assert(t as int != q);
                    crate::mutate::lemma_pos_of(l, jt);
                } else {
                    assert(kids == ns[p].children);
                    assert(!ns[q].children.contains(t)) by {
                        if ns[q].children.contains(t) {
                            let j = choose|j: int| 0 <= j < ns[q].children.len() && ns[q].children[j] == t;
                            assert(ns[q].children[j] == t);
                        }
                    }
                    assert(!l.contains(t)) by {
                        if l.contains(t) {
                            let j = choose|j: int| 0 <= j < l.len() && l[j] == t;
                            let j0 = if j < ix { j } else { j + 1 };
                            assert(l[j] == ns[q].children[j0]);
                        }
                    }
                    assert(ns1[t as int].index == ns[t as int].index);
                    assert(ns[p].children[ns[t as int].index as int] == t);
                    if kids.contains(x) {
                        let j = choose|j: int| 0 <= j < kids.len() && kids[j] == x;
                        assert(ns[p].children[j] == x);
                    }
                }
            },
        }
    }
}

/// Inserting a node after an element that has a parent puts it among that
/// parent's children right after the element: the node's parent is the
/// element's parent, and its position is the element's plus one.
pub proof fn law_insert_after_next(d: &Document, t: usize, x: usize)
    requires
        d.wf(),
        d.valid(t as int),
        d.valid(x as int),
        d@[t as int].kind == NodeKind::Tag,
        d@[x as int].kind != NodeKind::Root,
        t != x,
        !ns_above(d@, x as int, t as int),
        d@[t as int].parent is Some,
    ensures
        ({
            let ns2 = insert_spec(d@, t as int, InsertPosition::AfterEnd, x as int);
            let p = d@[t as int].parent.unwrap();
            &&& ns2[x as int].parent == Some(p)
            &&& ns2[t as int].parent == Some(p)
            &&& ns2[x as int].index == ns2[t as int].index + 1
            &&& ns2[p as int].children[ns2[t as int].index as int] == t
            &&& ns2[p as int].children[ns2[x as int].index as int] == x
        }),
{
    let ns = d@;
    let p = ns[t as int].parent.unwrap() as int;
    let nodes0 = seq![x];
    let ns1 = detached(ns, x as int);
    lemma_after_detached(d, t, x);
    let kids = ns1[p].children;
    let i = ns1[t as int].index as int;
    let list = kids.take(i + 1) + nodes0 + kids.skip(i + 1);
    assert(list[i] == t);
    assert(list[i + 1] == x);
    assert(distinct(list)) by {
        assert forall|a: int, b: int| 0 <= a < b < list.len() implies list[a] != list[b] by {
            if a <= i && b <= i {
                assert(list[a] == kids[a] && list[b] == kids[b]);
            } else if a <= i && b == i + 1 {
                assert(list[a] == kids[a]);
            } else if a <= i {
                assert(list[a] == kids[a] && list[b] == kids[b - 1]);
            } else if a == i + 1 {
                assert(list[b] == kids[b - 1]);
            } else {
                assert(list[a] == kids[a - 1] && list[b] == kids[b - 1]);
            }
        }
    }
    crate::mutate::lemma_pos_of(list, i);
    crate::mutate::lemma_pos_of(list, i + 1);
    assert(list.contains(x));
    assert(list.contains(t));
    assert(kids.take(i + 1) + nodes0 + kids.skip(i + 1) == list);
    assert(insert_spec(ns, t as int, InsertPosition::AfterEnd, x as int) == relinked(ns1, p, list));
    let ns2 = relinked(ns1, p, list);
    assert(0 <= x < ns1.len() && 0 <= t < ns1.len());
    assert(pos_of(list, x) == i + 1);
    assert(pos_of(list, t) == i);
    assert(ns2[x as int] == NodeV { parent: Some(p as usize), index: pos_of(list, x) as usize, ..ns1[x as int] });
    assert(ns2[t as int] == NodeV { parent: Some(p as usize), index: pos_of(list, t) as usize, ..ns1[t as int] });
    assert(ns2[x as int].parent == Some(p as usize) && ns2[x as int].index == i + 1);
    assert(ns2[t as int].parent == Some(p as usize) && ns2[t as int].index == i);
    assert(ns2[p].children == list);
}

/// `:input` matches by the selector list of the tag names `input`,
/// `select`, `textarea` and `button`: the matcher that its rule makes, from
/// whatever it read, is the alias of exactly that list.
pub proof fn law_input_alias(data: Seq<crate::pattern::MatchedV>, k: crate::rule::MatcherKind)
    requires
        crate::rule::spec_made(crate::rule::RuleKind::Input, data, k),
    ensures
        crate::matching::mk_view(k) == crate::matching::MK::Alias(
            "input"@ + seq![','] + "select"@ + seq![','] + "textarea"@ + seq![','] + "button"@,
        ),
{
    crate::matching::lemma_made_mk(crate::rule::RuleKind::Input, data, k);
    reveal_strlit("input");
    reveal_strlit("select");
    reveal_strlit("textarea");
    reveal_strlit("button");
    reveal_strlit("input,select,textarea,button");
    assert(crate::rule::input_alias() =~= "input"@ + seq![','] + "select"@ + seq![','] + "textarea"@ + seq![','] + "button"@);
}

/// The quotient that `divide_isize` gives by `Ceil` for a positive divisor
/// is the least `k` with `k * m >= x`, but where `0 < x < m` (it gives 0).
proof fn lemma_ceil_div(x: int, m: int, k: int)
    requires
        m > 0,
    ensures
        (x <= 0 || x >= m) ==> (k * m >= x <==> k >= spec_divide(x, m, RoundType::Ceil)),
        (0 < x < m) ==> spec_divide(x, m, RoundType::Ceil) == 0,
{
    if x >= 0 {
        lemma_fundamental_div_mod(x, m);
        lemma_mod_pos_bound(x, m);
        let t = x / m;
        let r = x % m;
        assert(spec_trunc_div(x, m) == t && spec_trunc_rem(x, m) == r);
        assert(x == m * t + r);
        if x >= m {
            assert(t >= 1) by (nonlinear_arith)
                requires
                    x == m * t + r,
                    0 <= r < m,
                    x >= m,
            ;
            if r == 0 {
                assert(k * m >= x <==> k >= t) by (nonlinear_arith)
                    requires
                        x == m * t,
                        m > 0,
                ;
            } else {
                assert(k * m >= x <==> k >= t + 1) by (nonlinear_arith)
                    requires
                        x == m * t + r,
                        0 < r < m,
                ;
            }
        } else if x > 0 {
            assert(t == 0) by (nonlinear_arith)
                requires
                    x == m * t + r,
                    0 <= r < m,
                    0 < x < m,
            ;
        } else {
            assert(t == 0) by (nonlinear_arith)
                requires
                    0 == m * t + r,
                    0 <= r < m,
            ;
            assert(k * m >= x <==> k >= 0) by (nonlinear_arith)
                requires
                    m > 0,
                    x == 0,
            ;
        }
    } else {
        let y = -x;
        lemma_fundamental_div_mod(y, m);
        lemma_mod_pos_bound(y, m);
        let t = y / m;
        let r = y % m;
        assert(spec_trunc_div(x, m) == -t && spec_trunc_rem(x, m) == -r);
        assert(y == m * t + r);
        assert(t >= 0) by (nonlinear_arith)
            requires
                y == m * t + r,
                0 <= r < m,
                y > 0,
        ;
        assert(spec_divide(x, m, RoundType::Ceil) == -t);
        assert(k * m >= x <==> k >= -t) by (nonlinear_arith)
            requires
                y == m * t + r,
                0 <= r < m,
                x == -y,
        ;
    }
}

/// The quotient that `divide_isize` gives by `Floor` for a positive divisor
/// is the greatest `k` with `k * m <= x` where `x >= 0`, and 0 where
/// `-m < x < 0`.
proof fn lemma_floor_div(x: int, m: int, k: int)
    requires
        m > 0,
    ensures
        x >= 0 ==> (k * m <= x <==> k <= spec_divide(x, m, RoundType::Floor)),
        (-m < x < 0) ==> spec_divide(x, m, RoundType::Floor) == 0,
{
    if x >= 0 {
        lemma_fundamental_div_mod(x, m);
        lemma_mod_pos_bound(x, m);
        let t = x / m;
        let r = x % m;
        assert(spec_trunc_div(x, m) == t && spec_trunc_rem(x, m) == r);
        assert(t >= 0) by (nonlinear_arith)
            requires
                x == m * t + r,
                0 <= r < m,
                x >= 0,
        ;
        assert(spec_divide(x, m, RoundType::Floor) == t);
        assert(k * m <= x <==> k <= t) by (nonlinear_arith)
            requires
                x == m * t + r,
                0 <= r < m,
        ;
    } else if -m < x {
        let y = -x;
        lemma_fundamental_div_mod(y, m);
        lemma_mod_pos_bound(y, m);
        let t = y / m;
        let r = y % m;
        assert(t == 0) by (nonlinear_arith)
            requires
                y == m * t + r,
                0 <= r < m,
                0 < y < m,
        ;
        assert(spec_trunc_div(x, m) == 0);
    }
}

/// A position is among those of the walk over `k` from `start` to `end`
/// exactly when one `k` there gives it.
proof fn lemma_nth_items(start: int, end: int, n: int, index: int, p: int)
    ensures
        spec_nth_items(start, end, n, index).contains(p) <==> exists|k: int|
            start <= k <= end && #[trigger] spec_nth_item(k, n, index) == Some(p),
    decreases end - start + 1,
{
    if end >= start {
        lemma_nth_items(start, end - 1, n, index, p);
        let prev = spec_nth_items(start, end - 1, n, index);
        let items = spec_nth_items(start, end, n, index);
        if items.contains(p) {
            if !prev.contains(p) {
                let j = choose|j: int| 0 <= j < items.len() && items[j] == p;
                if spec_nth_item(end, n, index) is Some {
                    assert(items == prev.push(spec_nth_item(end, n, index).unwrap()));
                    if j < prev.len() {
                        assert(prev[j] == p);
                    }
                    assert(spec_nth_item(end, n, index) == Some(p));
                } else {
                    assert(items == prev);
                }
            }
        }
        if exists|k: int| start <= k <= end && #[trigger] spec_nth_item(k, n, index) == Some(p) {
            let k = choose|k: int| start <= k <= end && #[trigger] spec_nth_item(k, n, index) == Some(p);
            if k == end {
                assert(items == prev.push(p));
                assert(items[items.len() - 1] == p);
            } else {
                assert(prev.contains(p));
                let j = choose|j: int| 0 <= j < prev.len() && prev[j] == p;
                if spec_nth_item(end, n, index) is Some {
                    assert(items[j] == prev[j]);
                }
            }
        }
    }
}

/// `an+b` as css reads it: a position `p` (from 0) among `total` elements
/// is allowed exactly when `p + 1 == k * a + b` for some `k >= 0`. Left out
/// are the lists so long that a position wrapped around as `usize` falls
/// inside them (`a > 0`, `1 - a < b < 0`).
pub proof fn law_nth_allowed(a: int, b: int, total: int, p: int)
    requires
        0 <= p < total,
        !(a > 0 && 1 - a < b < 0 && usize::MAX + b < total),
    ensures
        spec_allowed_indexs(Some(a), Some(b), total).contains(p) <==> exists|k: int|
            k >= 0 && #[trigger] (k * a) + b == p + 1,
{
    let list = spec_allowed_indexs(Some(a), Some(b), total);
    if a == 0 {
        if list.contains(p) {
            assert(0 * a + b == p + 1);
        }
        if exists|k: int| k >= 0 && #[trigger] (k * a) + b == p + 1 {
            let k = choose|k: int| k >= 0 && #[trigger] (k * a) + b == p + 1;
            assert(k * a == 0);
            assert(list[0] == p);
        }
    } else if a < 0 && b <= 0 {
        if exists|k: int| k >= 0 && #[trigger] (k * a) + b == p + 1 {
            let k = choose|k: int| k >= 0 && #[trigger] (k * a) + b == p + 1;
            assert(k * a <= 0) by (nonlinear_arith)
                requires
                    k >= 0,
                    a < 0,
            ;
        }
    } else if a < 0 && b <= -a {
        if list.contains(p) {
            assert(0 * a + b == p + 1);
        }
        if exists|k: int| k >= 0 && #[trigger] (k * a) + b == p + 1 {
            let k = choose|k: int| k >= 0 && #[trigger] (k * a) + b == p + 1;
            if k >= 1 {
                assert(k * a <= a) by (nonlinear_arith)
                    requires
                        k >= 1,
                        a < 0,
                ;
            }
            assert(k == 0);
            assert(list[0] == p);
        }
    } else if a < 0 {
        let m = -a;
        let start0 = spec_divide(b - total, m, RoundType::Ceil);
        let end = spec_divide(b - 1, m, RoundType::Floor);
        let start = if start0 < 0 { 0 } else { start0 };
        let items = spec_nth_items(start, end, a, b);
        assert(list == items.reverse());
        lemma_nth_items(start, end, a, b, p);
        assert(list.contains(p) <==> items.contains(p)) by {
            if list.contains(p) {
                let j = choose|j: int| 0 <= j < list.len() && list[j] == p;
                assert(items[items.len() - 1 - j] == p);
            }
            if items.contains(p) {
                let j = choose|j: int| 0 <= j < items.len() && items[j] == p;
                assert(list[items.len() - 1 - j] == p);
            }
        }
        if items.contains(p) {
            let k = choose|k: int| start <= k <= end && #[trigger] spec_nth_item(k, a, b) == Some(p);
            lemma_floor_div(b - 1, m, k);
            assert(k * a == -(k * m)) by (nonlinear_arith)
                requires
                    m == -a,
            ;
            assert(k * a + b >= 1);
            assert(k >= 0 && (k * a) + b == p + 1);
        }
        if exists|k: int| k >= 0 && #[trigger] (k * a) + b == p + 1 {
            let k = choose|k: int| k >= 0 && #[trigger] (k * a) + b == p + 1;
            assert(k * a == -(k * m)) by (nonlinear_arith)
                requires
                    m == -a,
            ;
            lemma_floor_div(b - 1, m, k);
            lemma_ceil_div(b - total, m, k);
            assert(start <= k <= end);
            assert(spec_nth_item(k, a, b) == Some(p));
        }
    } else {
        let start0 = spec_divide(1 - b, a, RoundType::Ceil);
        let end = spec_divide(total - b, a, RoundType::Floor);
        let start = if start0 < 0 { 0 } else { start0 };
        assert(list == spec_nth_items(start, end, a, b));
        lemma_nth_items(start, end, a, b, p);
        if list.contains(p) {
            let k = choose|k: int| start <= k <= end && #[trigger] spec_nth_item(k, a, b) == Some(p);
            lemma_ceil_div(1 - b, a, k);
            if k * a + b < 1 {
                if 1 - b <= 0 || 1 - b >= a {
                    assert(false);
                } else {
                    if k >= 1 {
                        assert(k * a >= a) by (nonlinear_arith)
                            requires
                                k >= 1,
                                a > 0,
                        ;
                    }
                    assert(k == 0);
                    assert(0 * a == 0);
                    assert(false);
                }
            }
            assert(k >= 0 && (k * a) + b == p + 1);
        }
        if exists|k: int| k >= 0 && #[trigger] (k * a) + b == p + 1 {
            let k = choose|k: int| k >= 0 && #[trigger] (k * a) + b == p + 1;
            assert(k * a >= 0) by (nonlinear_arith)
                requires
                    k >= 0,
                    a > 0,
            ;
            lemma_ceil_div(1 - b, a, k);
            lemma_floor_div(total - b, a, k);
            assert(start <= k <= end);
            assert(spec_nth_item(k, a, b) == Some(p));
        }
    }
}

/// The names not in `list`.
pub open spec fn unlisted(list: Seq<Seq<char>>) -> spec_fn(Seq<char>) -> bool {
    |c: Seq<char>| !list.contains(c)
}

/// No name comes twice.
pub open spec fn names_distinct(s: Seq<Seq<char>>) -> bool {
    forall|a: int, b: int| 0 <= a < b < s.len() ==> s[a] != s[b]
}

/// The names of `list` that `o` holds come in `o` in the order of `list`.
pub open spec fn same_order(o: Seq<Seq<char>>, list: Seq<Seq<char>>) -> bool {
    forall|i: int, j: int, x: int, y: int|
        #![trigger list[i], list[j], o[x], o[y]]
        0 <= i < j < list.len() && 0 <= x < o.len() && 0 <= y < o.len() && o[x] == list[i] && o[y] == list[j] ==> x < y
}

/// The positions rise.
pub open spec fn rising(idx: Seq<usize>) -> bool {
    forall|a: int, b: int| 0 <= a < b < idx.len() ==> idx[a] < idx[b]
}

/// `v` without the items at the rising positions `idx`.
pub open spec fn gaps(v: Seq<Seq<char>>, idx: Seq<usize>) -> Seq<Seq<char>>
    decreases idx.len(),
{
    if idx.len() == 0 {
        v
    } else {
        gaps(v.take(idx.last() as int), idx.drop_last()) + v.skip(idx.last() + 1)
    }
}

proof fn lemma_gaps_len(v: Seq<Seq<char>>, idx: Seq<usize>, q: int)
    requires
        rising(idx),
        forall|i: int| 0 <= i < idx.len() ==> #[trigger] idx[i] < q,
        0 <= q <= v.len(),
    ensures
        gaps(v.take(q), idx).len() == q - idx.len(),
    decreases idx.len(),
{
    if idx.len() > 0 {
        let l = idx.last() as int;
        let idx1 = idx.drop_last();
        assert forall|i: int| 0 <= i < idx1.len() implies #[trigger] idx1[i] < l by {
            assert(idx[i] < idx[idx.len() - 1]);
        }
        lemma_gaps_len(v, idx1, l);
        assert(v.take(q).take(l) =~= v.take(l));
    }
}

proof fn lemma_gaps_split(v: Seq<Seq<char>>, idx: Seq<usize>, q: int)
    requires
        forall|i: int| 0 <= i < idx.len() ==> #[trigger] idx[i] < q,
        0 <= q <= v.len(),
    ensures
        gaps(v, idx) == gaps(v.take(q), idx) + v.skip(q),
    decreases idx.len(),
{
    if idx.len() == 0 {
        assert(v =~= v.take(q) + v.skip(q));
    } else {
        let l = idx.last() as int;
        assert(l < q);
        assert(v.take(q).take(l) =~= v.take(l));
        assert(v.skip(l + 1) =~= v.take(q).skip(l + 1) + v.skip(q));
        let g = gaps(v.take(l), idx.drop_last());
        assert(g + v.skip(l + 1) =~= (g + v.take(q).skip(l + 1)) + v.skip(q));
    }
}

proof fn lemma_retain_gaps(v: Seq<Seq<char>>, idx: Seq<usize>)
    requires
        rising(idx),
        forall|i: int| 0 <= i < idx.len() ==> #[trigger] idx[i] < v.len(),
    ensures
        crate::utils::spec_retain_by_index(v, idx) == gaps(v, idx),
    decreases idx.len(),
{
    if idx.len() > 0 {
        let q = idx.last() as int;
        let idx1 = idx.drop_last();
        assert forall|i: int| 0 <= i < idx1.len() implies #[trigger] idx1[i] < q by {
            assert(idx[i] < idx[idx.len() - 1]);
        }
        lemma_retain_gaps(v, idx1);
        lemma_gaps_split(v, idx1, q);
        lemma_gaps_len(v, idx1, q);
        let x = gaps(v.take(q), idx1);
        assert((x + v.skip(q)).remove(x.len() as int) =~= x + v.skip(q + 1));
    }
}

proof fn lemma_filter_keeps_all(v: Seq<Seq<char>>, p: spec_fn(Seq<char>) -> bool)
    requires
        forall|i: int| 0 <= i < v.len() ==> p(#[trigger] v[i]),
    ensures
        v.filter(p) == v,
    decreases v.len(),
{
    reveal(Seq::filter);
    if v.len() > 0 {
        let w = v.drop_last();
        assert forall|i: int| 0 <= i < w.len() implies p(#[trigger] w[i]) by {
            assert(w[i] == v[i]);
        }
        lemma_filter_keeps_all(w, p);
        assert(p(v[v.len() - 1]));
        assert(v.filter(p) == w.filter(p).push(v.last()));
        assert(w.push(v.last()) =~= v);
    }
}

proof fn lemma_gaps_filter(v: Seq<Seq<char>>, list: Seq<Seq<char>>, idx: Seq<usize>)
    requires
        v.len() <= usize::MAX,
        rising(idx),
        forall|i: int| 0 <= i < idx.len() ==> #[trigger] idx[i] < v.len(),
        forall|x: int| 0 <= x < v.len() ==> (list.contains(#[trigger] v[x]) <==> idx.contains(x as usize)),
    ensures
        gaps(v, idx) == v.filter(unlisted(list)),
    decreases idx.len(),
{
    let p = unlisted(list);
    if idx.len() == 0 {
        assert forall|i: int| 0 <= i < v.len() implies p(#[trigger] v[i]) by {
            if list.contains(v[i]) {
                assert(idx.contains(i as usize));
            }
        }
        lemma_filter_keeps_all(v, p);
    } else {
        let q = idx.last() as int;
        let idx1 = idx.drop_last();
        let a = v.take(q);
        assert forall|i: int| 0 <= i < idx1.len() implies #[trigger] idx1[i] < a.len() by {
            assert(idx[i] < idx[idx.len() - 1]);
        }
        assert forall|x: int| 0 <= x < a.len() implies (list.contains(#[trigger] a[x]) <==> idx1.contains(x as usize)) by {
            assert(a[x] == v[x]);
            if idx.contains(x as usize) {
                let j = choose|j: int| 0 <= j < idx.len() && idx[j] == x as usize;
                assert(j != idx.len() - 1);
                assert(idx1[j] == x as usize);
            }
            if idx1.contains(x as usize) {
                let j = choose|j: int| 0 <= j < idx1.len() && idx1[j] == x as usize;
                assert(idx[j] == x as usize);
            }
        }
        lemma_gaps_filter(a, list, idx1);
        let b = v.skip(q + 1);
        assert(idx.contains(q as usize)) by {
            assert(idx[idx.len() - 1] == q as usize);
        }
        assert(list.contains(v[q]));
        assert forall|i: int| 0 <= i < b.len() implies p(#[trigger] b[i]) by {
            let y = q + 1 + i;
            assert(b[i] == v[y]);
            if list.contains(v[y]) {
                assert(idx.contains(y as usize));
                let j = choose|j: int| 0 <= j < idx.len() && idx[j] == y as usize;
                if j < idx.len() - 1 {
                    assert(idx[j] < idx[idx.len() - 1]);
                }
                assert(false);
            }
            assert(p(b[i]) == !list.contains(b[i]));
        }
        lemma_filter_keeps_all(b, p);
        let single = seq![v[q]];
        assert(single.filter(p) =~= Seq::<Seq<char>>::empty()) by {
            reveal(Seq::filter);
            assert(single.drop_last() =~= Seq::<Seq<char>>::empty());
            assert(single.drop_last().filter(p) =~= Seq::<Seq<char>>::empty());
            assert(!p(single.last()));
        }
        assert(v =~= a + (single + b));
        Seq::<Seq<char>>::filter_distributes_over_add(a, single + b, p);
        Seq::<Seq<char>>::filter_distributes_over_add(single, b, p);
        assert(v.filter(p) =~= a.filter(p) + b);
    }
}

proof fn lemma_found_rising(o: Seq<Seq<char>>, list: Seq<Seq<char>>)
    requires
        o.len() <= usize::MAX,
        names_distinct(o),
        names_distinct(list),
        same_order(o, list),
    ensures
        rising(crate::content::found_positions(o, list)),
        forall|e: int|
            0 <= e < crate::content::found_positions(o, list).len() ==> {
                let x = #[trigger] crate::content::found_positions(o, list)[e] as int;
                &&& x < o.len()
                &&& list.contains(o[x])
            },
        forall|x: int|
            0 <= x < o.len() ==> (list.contains(#[trigger] o[x]) <==> crate::content::found_positions(o, list).contains(
                x as usize,
            )),
    decreases list.len(),
{
    let fp = crate::content::found_positions(o, list);
    if list.len() == 0 {
        assert forall|x: int| 0 <= x < o.len() implies (list.contains(#[trigger] o[x]) <==> fp.contains(x as usize)) by {}
    } else {
        let l1 = list.drop_last();
        let c = list.last();
        assert(same_order(o, l1)) by {
            assert forall|i: int, j: int, x: int, y: int|
                #![trigger l1[i], l1[j], o[x], o[y]]
                0 <= i < j < l1.len() && 0 <= x < o.len() && 0 <= y < o.len() && o[x] == l1[i] && o[y] == l1[j] implies x < y by {
                assert(list[i] == l1[i] && list[j] == l1[j]);
            }
        }
        lemma_found_rising(o, l1);
        let fp1 = crate::content::found_positions(o, l1);
        assert(list =~= l1.push(c));
        assert forall|y: Seq<char>| list.contains(y) <==> (l1.contains(y) || y == c) by {
            if list.contains(y) {
                let j = choose|j: int| 0 <= j < list.len() && list[j] == y;
                if j < l1.len() {
                    assert(l1[j] == y);
                }
            }
            if l1.contains(y) {
                let j = choose|j: int| 0 <= j < l1.len() && l1[j] == y;
                assert(list[j] == y);
            }
            if y == c {
                assert(list[list.len() - 1] == y);
            }
        }
        match crate::content::first_pos(o, c) {
            Some(q) => {
                crate::content::lemma_first_pos_at(o, c);
                assert(fp == fp1.push(q as usize));
                assert(list.contains(c));
                assert(o[q] == c);
                assert forall|e: int| 0 <= e < fp1.len() implies #[trigger] fp1[e] < q by {
                    let x = fp1[e] as int;
                    assert(l1.contains(o[x]));
                    let i = choose|i: int| 0 <= i < l1.len() && l1[i] == o[x];
                    assert(list[i] == o[x]);
                    assert(list[list.len() - 1] == o[q]);
                    if x == q {
                        assert(list[i] == list[list.len() - 1]);
                    }
                }
                assert(rising(fp)) by {
                    assert forall|a: int, b: int| 0 <= a < b < fp.len() implies fp[a] < fp[b] by {
                        if b < fp1.len() {
                            assert(fp[a] == fp1[a] && fp[b] == fp1[b]);
                        } else {
                            assert(fp[a] == fp1[a]);
                            assert(fp[b] == q as usize);
                            assert(fp1[a] < q);
                        }
                    }
                }
                assert forall|e: int| 0 <= e < fp.len() implies {
                    let x = #[trigger] fp[e] as int;
                    &&& x < o.len()
                    &&& list.contains(o[x])
                } by {
                    if e < fp1.len() {
                        assert(fp[e] == fp1[e]);
                    } else {
                        assert(fp[e] == q as usize);
                    }
                }
                assert forall|x: int| 0 <= x < o.len() implies (list.contains(#[trigger] o[x]) <==> fp.contains(
                    x as usize,
                )) by {
                    if fp.contains(x as usize) {
                        let e = choose|e: int| 0 <= e < fp.len() && fp[e] == x as usize;
                        if e < fp1.len() {
                            assert(fp1[e] == x as usize);
                        }
                    }
                    if o[x] == c {
                        if x != q {
                            if x < q {
                                assert(o[x] != o[q]);
                            } else {
                                assert(o[q] != o[x]);
                            }
                        }
                        assert(fp[fp.len() - 1] == x as usize);
                    } else if l1.contains(o[x]) {
                        assert(fp1.contains(x as usize));
                        let e = choose|e: int| 0 <= e < fp1.len() && fp1[e] == x as usize;
                        assert(fp[e] == x as usize);
                    }
                }
            },
            None => {
                assert(fp == fp1);
                assert forall|x: int| 0 <= x < o.len() implies o[x] != c by {
                    if o[x] == c {
                        crate::content::lemma_first_pos_found(o, c, x);
                    }
                }
            },
        }
    }
}

/// Removing class names from a node with a class value takes out every
/// name of the list and keeps every other name, in order; where the value
/// holds none of them, nothing changes. Left out are class values or lists
/// that repeat a name, lists that name classes in another order than the
/// value holds them, and values of more names than a `usize` counts.
pub proof fn law_remove_class_names(n: NodeV, list: Seq<Seq<char>>)
    requires
        node_class(n) is Some,
        spec_class_list(node_class(n).unwrap()).len() <= usize::MAX,
        names_distinct(spec_class_list(node_class(n).unwrap())),
        names_distinct(list),
        same_order(spec_class_list(node_class(n).unwrap()), list),
    ensures
        ({
            let o = spec_class_list(node_class(n).unwrap());
            let r = crate::content::remove_class_value(n, list);
            &&& (exists|x: int| 0 <= x < o.len() && list.contains(#[trigger] o[x])) ==> (r matches Some(w)
                && spec_class_list(w) == o.filter(unlisted(list)))
            &&& !(exists|x: int| 0 <= x < o.len() && list.contains(#[trigger] o[x])) ==> r is None
        }),
{
    let v = node_class(n).unwrap();
    let o = spec_class_list(v);
    let fp = crate::content::found_positions(o, list);
    lemma_found_rising(o, list);
    if exists|x: int| 0 <= x < o.len() && list.contains(#[trigger] o[x]) {
        let x = choose|x: int| 0 <= x < o.len() && list.contains(#[trigger] o[x]);
        assert(fp.contains(x as usize));
        assert(fp.len() > 0);
        assert forall|i: int| 0 <= i < fp.len() implies #[trigger] fp[i] < o.len() by {}
        lemma_retain_gaps(o, fp);
        lemma_gaps_filter(o, list, fp);
        let f = o.filter(unlisted(list));
        lemma_class_list_names(v);
        assert forall|k: int| 0 <= k < f.len() implies class_name_ok(#[trigger] f[k]) by {
            assert(f.contains(f[k]));
            o.lemma_filter_contains_rev(unlisted(list), f[k]);
            assert(o.contains(f[k]));
            let j = choose|j: int| 0 <= j < o.len() && o[j] == f[k];
            assert(class_name_ok(o[j]));
        }
        lemma_class_list_join(f);
    } else {
        if fp.len() > 0 {
            let x = fp[0] as int;
            assert(list.contains(o[x]));
        }
    }
}

/// A number alone (no `n`) allows only the position it names, counted
/// from 1.
pub proof fn law_nth_index_only(b: int, total: int, p: int)
    requires
        0 <= p < total,
    ensures
        spec_allowed_indexs(None, Some(b), total).contains(p) <==> p + 1 == b,
{
    let list = spec_allowed_indexs(None, Some(b), total);
    if p + 1 == b {
        assert(list[0] == p);
    }
}

/// The position that `an+b` counts for an element among its parent's
/// element children is one of them: below their number.
proof fn lemma_nth_pos_below(d: &Document, x: int, asc: bool)
    requires
        d.wf(),
        d.valid(x),
        d.kind_of(x) == NodeKind::Tag,
        d@[x].parent is Some,
    ensures
        0 <= crate::matching::nth_pos(d, x, asc) < d.elem_children(d@[x].parent.unwrap() as int).len(),
{
    crate::insert::lemma_linked_view(d);
    let p = d@[x].parent.unwrap() as int;
    let cs = d@[p].children;
    let i = d@[x].index as int;
    assert(cs[i] == x);
    assert(cs == d.nodes@[p].children@) by {
        assert(d@[p] == d.nodes@[p]@);
    }
    let f = |c: usize| d.kind_of(c as int) == NodeKind::Tag;
    let a = cs.take(i);
    let b = cs.skip(i + 1);
    let single = seq![x as usize];
    assert(cs =~= a + (single + b));
    Seq::<usize>::filter_distributes_over_add(a, single + b, f);
    Seq::<usize>::filter_distributes_over_add(single, b, f);
    assert(single.filter(f).len() == 1) by {
        reveal(Seq::filter);
        assert(single.drop_last() =~= Seq::<usize>::empty());
        assert(single.drop_last().filter(f) =~= Seq::<usize>::empty());
        assert(d.kind_of(single.last() as int) == NodeKind::Tag);
    }
    assert(d.elem_children(p) == cs.filter(f));
}

/// `:nth-child(an+b)` (and `:nth-last-child`, counting from the last)
/// matches an element exactly when its position among its parent's element
/// children, counted from 1, is `k * a + b` for some `k >= 0`. Left out are
/// parents with so many element children that a position wrapped around as
/// `usize` falls among them (`a > 0`, `1 - a < b < 0`).
pub proof fn law_nth_child_match(d: &Document, x: int, asc: bool, a: int, b: int)
    requires
        d.wf(),
        d.valid(x),
        d.kind_of(x) == NodeKind::Tag,
        d@[x].parent is Some,
        !(a > 0 && 1 - a < b < 0 && usize::MAX + b < d.elem_children(d@[x].parent.unwrap() as int).len()),
    ensures
        crate::matching::local_match(d, x, crate::matching::MK::NthChild { asc, n: Some(a), index: Some(b) })
            <==> exists|k: int| k >= 0 && #[trigger] (k * a) + b == crate::matching::nth_pos(d, x, asc) + 1,
{
    lemma_nth_pos_below(d, x, asc);
    law_nth_allowed(a, b, d.elem_children(d@[x].parent.unwrap() as int).len() as int, crate::matching::nth_pos(d, x, asc));
}

/// `:first-child` (and `:last-child`, from the last) matches an element
/// exactly when no element sibling comes before it (after it).
pub proof fn law_first_child_match(d: &Document, x: int, asc: bool)
    requires
        d.wf(),
        d.valid(x),
        d.kind_of(x) == NodeKind::Tag,
        d@[x].parent is Some,
    ensures
        crate::matching::local_match(d, x, crate::matching::MK::NthChild { asc, n: None, index: Some(1) })
            <==> crate::matching::nth_pos(d, x, asc) == 0,
{
    lemma_nth_pos_below(d, x, asc);
    law_nth_index_only(1, d.elem_children(d@[x].parent.unwrap() as int).len() as int, crate::matching::nth_pos(d, x, asc));
}

/// `:first-child` and `:last-child` test the first position among the
/// element siblings, counted from the first and from the last.
pub proof fn law_first_last_child_rules(data: Seq<crate::pattern::MatchedV>, k: crate::rule::MatcherKind)
    ensures
        crate::rule::spec_made(crate::rule::RuleKind::FirstChild, data, k) ==> crate::matching::mk_view(k)
            == (crate::matching::MK::NthChild { asc: true, n: None, index: Some(1) }),
        crate::rule::spec_made(crate::rule::RuleKind::LastChild, data, k) ==> crate::matching::mk_view(k)
            == (crate::matching::MK::NthChild { asc: false, n: None, index: Some(1) }),
{
    if crate::rule::spec_made(crate::rule::RuleKind::FirstChild, data, k) {
        crate::matching::lemma_made_mk(crate::rule::RuleKind::FirstChild, data, k);
    }
    if crate::rule::spec_made(crate::rule::RuleKind::LastChild, data, k) {
        crate::matching::lemma_made_mk(crate::rule::RuleKind::LastChild, data, k);
    }
}

/// `:header` matches by the selector list of the tag names `h1` to `h6`,
/// and `:submit` by that of inputs and buttons whose `type` is `submit`.
pub proof fn law_header_submit_alias(data: Seq<crate::pattern::MatchedV>, k: crate::rule::MatcherKind)
    ensures
        crate::rule::spec_made(crate::rule::RuleKind::Header, data, k) ==> crate::matching::mk_view(k)
            == crate::matching::MK::Alias(
            "h1"@ + seq![','] + "h2"@ + seq![','] + "h3"@ + seq![','] + "h4"@ + seq![','] + "h5"@ + seq![','] + "h6"@,
        ),
        crate::rule::spec_made(crate::rule::RuleKind::Submit, data, k) ==> crate::matching::mk_view(k)
            == crate::matching::MK::Alias("input[type='submit']"@ + seq![','] + "button[type='submit']"@),
{
    reveal_strlit("h1");
    reveal_strlit("h2");
    reveal_strlit("h3");
    reveal_strlit("h4");
    reveal_strlit("h5");
    reveal_strlit("h6");
    reveal_strlit("h1,h2,h3,h4,h5,h6");
    reveal_strlit("input[type='submit']");
    reveal_strlit("button[type='submit']");
    reveal_strlit("input[type='submit'],button[type='submit']");
    if crate::rule::spec_made(crate::rule::RuleKind::Header, data, k) {
        crate::matching::lemma_made_mk(crate::rule::RuleKind::Header, data, k);
        assert(crate::rule::header_alias() =~= "h1"@ + seq![','] + "h2"@ + seq![','] + "h3"@ + seq![','] + "h4"@ + seq![',']
            + "h5"@ + seq![','] + "h6"@);
    }
    if crate::rule::spec_made(crate::rule::RuleKind::Submit, data, k) {
        crate::matching::lemma_made_mk(crate::rule::RuleKind::Submit, data, k);
        assert(crate::rule::submit_alias() =~= "input[type='submit']"@ + seq![','] + "button[type='submit']"@);
    }
}

/// `slice` with an excluded end position keeps the items from the start
/// position up to but not including the end position, or up to the last
/// item where the list is shorter; without an end, up to the last item.
pub proof fn law_slice_excluded(s: Seq<usize>, start: Option<usize>, e: usize)
    requires
        slice_start(s.len() as int, start) < s.len(),
        slice_start(s.len() as int, start) <= e,
    ensures
        ({
            let b = slice_start(s.len() as int, start);
            let r = slice_result(s, start, SliceEnd::Excluded(e));
            let u = slice_result(s, start, SliceEnd::Unbounded);
            &&& r.len() == (if e < s.len() { e as int } else { s.len() as int }) - b
            &&& forall|j: int| 0 <= j < r.len() ==> #[trigger] r[j] == s[b + j]
            &&& u.len() == s.len() - b
            &&& forall|j: int| 0 <= j < u.len() ==> #[trigger] u[j] == s[b + j]
        }),
{
}

/// Inserting a node before an element that has a parent puts it among that
/// parent's children right before the element: the node's parent is the
/// element's parent, and the element's position is the node's plus one.
pub proof fn law_insert_before_prev(d: &Document, t: usize, x: usize)
    requires
        d.wf(),
        d.valid(t as int),
        d.valid(x as int),
        d@[t as int].kind == NodeKind::Tag,
        d@[x as int].kind != NodeKind::Root,
        t != x,
        !ns_above(d@, x as int, t as int),
        d@[t as int].parent is Some,
    ensures
        ({
            let ns2 = insert_spec(d@, t as int, InsertPosition::BeforeBegin, x as int);
            let p = d@[t as int].parent.unwrap();
            &&& ns2[x as int].parent == Some(p)
            &&& ns2[t as int].parent == Some(p)
            &&& ns2[t as int].index == ns2[x as int].index + 1
            &&& ns2[p as int].children[ns2[t as int].index as int] == t
            &&& ns2[p as int].children[ns2[x as int].index as int] == x
        }),
{
    let ns = d@;
    let p = ns[t as int].parent.unwrap() as int;
    let nodes0 = seq![x];
    let ns1 = detached(ns, x as int);
    lemma_after_detached(d, t, x);
    let kids = ns1[p].children;
    let i = ns1[t as int].index as int;
    let list = kids.take(i) + nodes0 + kids.skip(i);
    assert(list[i] == x);
    assert(list[i + 1] == t);
    assert(distinct(list)) by {
        assert forall|a: int, b: int| 0 <= a < b < list.len() implies list[a] != list[b] by {
            if a < i && b < i {
                assert(list[a] == kids[a] && list[b] == kids[b]);
            } else if a < i && b == i {
                assert(list[a] == kids[a]);
            } else if a < i {
                assert(list[a] == kids[a] && list[b] == kids[b - 1]);
            } else if a == i {
                assert(list[b] == kids[b - 1]);
            } else {
                assert(list[a] == kids[a - 1] && list[b] == kids[b - 1]);
            }
        }
    }
    crate::mutate::lemma_pos_of(list, i);
    crate::mutate::lemma_pos_of(list, i + 1);
    assert(list.contains(x));
    assert(list.contains(t));
    assert(kids.take(i) + nodes0 + kids.skip(i) == list);
    assert(insert_spec(ns, t as int, InsertPosition::BeforeBegin, x as int) == relinked(ns1, p, list));
    let ns2 = relinked(ns1, p, list);
    assert(0 <= x < ns1.len() && 0 <= t < ns1.len());
    assert(ns2[x as int] == NodeV { parent: Some(p as usize), index: pos_of(list, x) as usize, ..ns1[x as int] });
    assert(ns2[t as int] == NodeV { parent: Some(p as usize), index: pos_of(list, t) as usize, ..ns1[t as int] });
    assert(ns2[p].children == list);
}

/// The names not in `o`.
pub open spec fn absent_from(o: Seq<Seq<char>>) -> spec_fn(Seq<char>) -> bool {
    |c: Seq<char>| !o.contains(c)
}

proof fn lemma_missing_filter(o: Seq<Seq<char>>, list: Seq<Seq<char>>)
    ensures
        crate::content::missing_names(o, list) == list.filter(absent_from(o)),
    decreases list.len(),
{
    reveal(Seq::filter);
    if list.len() > 0 {
        lemma_missing_filter(o, list.drop_last());
        let c = list.last();
        if crate::content::first_pos(o, c) is Some {
            crate::content::lemma_first_pos_at(o, c);
            let q = crate::content::first_pos(o, c).unwrap();
            assert(o[q] == c);
            assert(o.contains(c));
        } else {
            if o.contains(c) {
                let j = choose|j: int| 0 <= j < o.len() && o[j] == c;
                crate::content::lemma_first_pos_found(o, c, j);
            }
        }
    }
}

/// Toggling class names on a node with a class value takes out the names
/// of the list it holds, keeping its other names in order, and adds after
/// them, in the list's order, the names of the list it lacks; only an empty
/// list changes nothing. Left out as for `law_remove_class_names`, and
/// lists of texts that are not class names.
pub proof fn law_toggle_class_names(n: NodeV, list: Seq<Seq<char>>, raw: Seq<char>)
    requires
        node_class(n) is Some,
        spec_class_list(node_class(n).unwrap()).len() <= usize::MAX,
        names_distinct(spec_class_list(node_class(n).unwrap())),
        names_distinct(list),
        same_order(spec_class_list(node_class(n).unwrap()), list),
        forall|k: int| 0 <= k < list.len() ==> class_name_ok(#[trigger] list[k]),
    ensures
        ({
            let o = spec_class_list(node_class(n).unwrap());
            let r = crate::content::toggle_class_value(n, list, raw);
            &&& list.len() > 0 ==> (r matches Some(w) && spec_class_list(w) == o.filter(unlisted(list)) + list.filter(
                absent_from(o),
            ))
            &&& list.len() == 0 ==> r is None
        }),
{
    let v = node_class(n).unwrap();
    let o = spec_class_list(v);
    let fp = crate::content::found_positions(o, list);
    let add = crate::content::missing_names(o, list);
    lemma_found_rising(o, list);
    lemma_missing_filter(o, list);
    assert forall|i: int| 0 <= i < fp.len() implies #[trigger] fp[i] < o.len() by {}
    lemma_retain_gaps(o, fp);
    lemma_gaps_filter(o, list, fp);
    if list.len() > 0 {
        let c = list[0];
        if o.contains(c) {
            let x = choose|x: int| 0 <= x < o.len() && o[x] == c;
            assert(list.contains(o[x]));
            assert(fp.contains(x as usize));
        } else {
            list.filter_lemma(absent_from(o));
            assert(list.filter(absent_from(o)).contains(list[0]));
        }
        assert(fp.len() > 0 || add.len() > 0);
        let f = o.filter(unlisted(list));
        let g = list.filter(absent_from(o));
        lemma_class_list_names(v);
        assert forall|k: int| 0 <= k < (f + g).len() implies class_name_ok(#[trigger] (f + g)[k]) by {
            if k < f.len() {
                assert((f + g)[k] == f[k]);
                assert(f.contains(f[k]));
                o.lemma_filter_contains_rev(unlisted(list), f[k]);
                let j = choose|j: int| 0 <= j < o.len() && o[j] == f[k];
                assert(class_name_ok(o[j]));
            } else {
                let kk = k - f.len();
                assert((f + g)[k] == g[kk]);
                assert(g.contains(g[kk]));
                list.lemma_filter_contains_rev(absent_from(o), g[kk]);
                let j = choose|j: int| 0 <= j < list.len() && list[j] == g[kk];
                assert(class_name_ok(list[j]));
            }
        }
        lemma_class_list_join(f + g);
    } else {
        assert(fp.len() == 0);
        assert(add.len() == 0);
    }
}

} // verus!
