//! Changing the tree: a node's list of children replaced, nodes detached,
//! new nodes added.
use crate::dom::{nodes_linked, Document, NodeData, NodeKind, NodeV};
use crate::elements::{all_valid, copy_ids};
use vstd::prelude::*;

verus! {

/// The position of `x` in `list`.
pub open spec fn pos_of(list: Seq<usize>, x: usize) -> int {
    choose|k: int| 0 <= k < list.len() && list[k] == x
}

/// No node comes twice in `list`.
pub open spec fn distinct(list: Seq<usize>) -> bool {
    forall|a: int, b: int| 0 <= a < b < list.len() ==> list[a] != list[b]
}

/// Node `p` can take `list` as its children: `p` is not its own child, and
/// `list` holds distinct nodes of the document, none the root or `p`, each
/// a child of `p` already or without a parent.
pub open spec fn can_adopt(d: &Document, p: int, list: Seq<usize>) -> bool {
    &&& d.valid(p)
    &&& d@[p].parent != Some(p as usize)
    &&& distinct(list)
    &&& forall|k: int|
        0 <= k < list.len() ==> {
            let c = #[trigger] list[k] as int;
            &&& d.valid(c)
            &&& c != 0
            &&& c != p
            &&& (d@[c].parent == Some(p as usize) || d@[c].parent is None)
        }
}

/// The nodes after `p` takes `list` as its children: each node of `list`
/// names `p` as its parent and its position there; the children of `p`
/// left out lose their parent; the rest stays.
pub open spec fn relinked(ns: Seq<NodeV>, p: int, list: Seq<usize>) -> Seq<NodeV> {
    Seq::new(
        ns.len(),
        |i: int|
            if i == p {
                NodeV { children: list, ..ns[i] }
            } else if list.contains(i as usize) {
                NodeV { parent: Some(p as usize), index: pos_of(list, i as usize) as usize, ..ns[i] }
            } else if ns[p].children.contains(i as usize) {
                NodeV { parent: None, index: 0, ..ns[i] }
            } else {
                ns[i]
            },
    )
}

/// The document keeps its ids, rules and splitter.
pub open spec fn same_setup(d: &Document, old: &Document) -> bool {
    &&& d.ids == old.ids
    &&& d.rules == old.rules
    &&& d.splitter == old.splitter
}

pub(crate) proof fn lemma_pos_of(list: Seq<usize>, k: int)
    requires
        distinct(list),
        0 <= k < list.len(),
    ensures
        pos_of(list, list[k]) == k,
{
    let j = pos_of(list, list[k]);
    assert(0 <= j < list.len() && list[j] == list[k]);
}

impl Document {
    /// Node `p` takes `list` as its children (see `relinked`).
    pub fn set_children(&mut self, p: usize, list: &Vec<usize>)
        requires
            old(self).wf(),
            can_adopt(old(self), p as int, list@),
        ensures
            final(self).wf(),
            same_setup(final(self), old(self)),
            final(self)@ == relinked(old(self)@, p as int, list@),
    {
        let ghost o = self.nodes@;
        let ghost ov = self@;
        let old_kids = copy_ids(&self.nodes[p].children);
        let n = self.nodes.len();
        let mut k: usize = 0;
        while k < old_kids.len()
            invariant
                n == o.len() == self.nodes@.len(),
                old_kids@ == o[p as int].children@,
                nodes_linked(o),
                ov == o.map_values(|x: NodeData| x@),
                0 <= p < n,
                k <= old_kids@.len(),
                same_setup(self, old(self)),
                o == old(self).nodes@,
                forall|i: int|
                    0 <= i < n ==> #[trigger] self@[i] == if old_kids@.take(k as int).contains(i as usize) {
                        NodeV { parent: None, index: 0, ..ov[i] }
                    } else {
                        ov[i]
                    },
            decreases old_kids.len() - k,
        {
            let c = old_kids[k];
            assert(o[p as int].children@[k as int] == c);
            assert(!old_kids@.take(k as int).contains(c)) by {
                if old_kids@.take(k as int).contains(c) {
                    let a = choose|a: int| 0 <= a < k && old_kids@.take(k as int)[a] == c;
                    assert(o[p as int].children@[a] == c);
                }
            }
            let ghost before = self@;
            assert(before[c as int] == ov[c as int]);
            self.nodes[c].parent = None;
            self.nodes[c].index = 0;
            assert(self@[c as int] == (NodeV { parent: None, index: 0, ..ov[c as int] }));
            assert forall|i: int|
                0 <= i < n implies #[trigger] self@[i] == if old_kids@.take(k + 1).contains(i as usize) {
                    NodeV { parent: None, index: 0, ..ov[i] }
                } else {
                    ov[i]
                } by {
                assert(old_kids@.take(k + 1) =~= old_kids@.take(k as int).push(c));
                if i != c {
                    assert(self@[i] == before[i]);
                    assert(old_kids@.take(k + 1).contains(i as usize) == old_kids@.take(k as int).contains(i as usize));
                } else {
                    assert(old_kids@.take(k + 1)[k as int] == c);
                    assert(old_kids@.take(k + 1).contains(i as usize));
                }
            }
            k += 1;
        }
        assert(old_kids@.take(k as int) =~= old_kids@);
        // p is not among its old children
        assert(!old_kids@.contains(p)) by {
            if old_kids@.contains(p) {
                let j = choose|j: int| 0 <= j < old_kids@.len() && old_kids@[j] == p;
                assert(o[p as int].children@[j] == p);
            }
        }
        let ghost mid = self@;
        assert(mid[p as int] == ov[p as int]);
        self.nodes[p].children = copy_ids(list);
        assert forall|i: int| 0 <= i < n && i != p implies #[trigger] self@[i] == mid[i] by {}
        assert(self@[p as int] == (NodeV { children: list@, ..ov[p as int] }));
        let mut j: usize = 0;
        while j < list.len()
            invariant
                n == o.len() == self.nodes@.len(),
                old_kids@ == o[p as int].children@,
                !old_kids@.contains(p),
                ov == o.map_values(|x: NodeData| x@),
                0 <= p < n,
                can_adopt(old(self), p as int, list@),
                old(self)@ == ov,
                old(self).nodes@.len() == n,
                j <= list@.len(),
                same_setup(self, old(self)),
                self@[p as int] == (NodeV { children: list@, ..ov[p as int] }),
                forall|i: int|
                    0 <= i < n && i != p ==> #[trigger] self@[i] == if list@.take(j as int).contains(i as usize) {
                        NodeV { parent: Some(p), index: pos_of(list@, i as usize) as usize, ..ov[i] }
                    } else if old_kids@.contains(i as usize) {
                        NodeV { parent: None, index: 0, ..ov[i] }
                    } else {
                        ov[i]
                    },
            decreases list.len() - j,
        {
            let c = list[j];
            assert(old(self).valid(list@[j as int] as int));
            proof {
                lemma_pos_of(list@, j as int);
            }
            assert(c != p);
            assert(!list@.take(j as int).contains(c)) by {
                if list@.take(j as int).contains(c) {
                    let a = choose|a: int| 0 <= a < j && list@.take(j as int)[a] == c;
                    assert(list@[a] == list@[j as int]);
                }
            }
            let ghost before = self@;
            self.nodes[c].parent = Some(p);
            self.nodes[c].index = j;
            assert(self@[c as int] == (NodeV { parent: Some(p), index: j, ..before[c as int] }));
            assert forall|i: int|
                0 <= i < n && i != p implies #[trigger] self@[i] == if list@.take(j + 1).contains(i as usize) {
                    NodeV { parent: Some(p), index: pos_of(list@, i as usize) as usize, ..ov[i] }
                } else if old_kids@.contains(i as usize) {
                    NodeV { parent: None, index: 0, ..ov[i] }
                } else {
                    ov[i]
                } by {
                assert(list@.take(j + 1) =~= list@.take(j as int).push(c));
                if i != c {
                    assert(self@[i] == before[i]);
                    assert(list@.take(j + 1).contains(i as usize) == list@.take(j as int).contains(i as usize));
                } else {
                    assert(list@.take(j + 1)[j as int] == c);
                    assert(list@.take(j + 1).contains(c));
                }
            }
            assert(self@[p as int] == before[p as int]);
            j += 1;
        }
        assert(list@.take(j as int) =~= list@);
        assert(self@ =~= relinked(ov, p as int, list@));
        proof {
            lemma_relinked_linked(o, self.nodes@, p as int, list@);
            assert(self@[0] == self.nodes@[0]@);
            assert(ov[0] == o[0]@);
        }
    }
}

/// The children of a node of a well linked document are distinct nodes of
/// it, none the root or the node itself, each naming the node as parent.
pub proof fn lemma_kids(d: &Document, p: int)
    requires
        d.wf(),
        d.valid(p),
    ensures
        distinct(d@[p].children),
        d@[p].parent != Some(p as usize),
        forall|k: int|
            0 <= k < d@[p].children.len() ==> {
                let c = #[trigger] d@[p].children[k] as int;
                &&& d.valid(c)
                &&& c != 0
                &&& c != p
                &&& d@[c].parent == Some(p as usize)
                &&& d@[c].index == k
            },
{
    let n = d.nodes@;
    assert(d@[p] == n[p]@);
    assert forall|k: int| 0 <= k < d@[p].children.len() implies {
        let c = #[trigger] d@[p].children[k] as int;
        &&& d.valid(c)
        &&& c != 0
        &&& c != p
        &&& d@[c].parent == Some(p as usize)
        &&& d@[c].index == k
    } by {
        assert(d@[p].children[k] == n[p].children@[k]);
        let c = n[p].children@[k] as int;
        assert(d@[c] == n[c]@);
        assert(n[c].parent == Some(p as usize));
    }
    assert forall|a: int, b: int| 0 <= a < b < d@[p].children.len() implies d@[p].children[a] != d@[p].children[b] by {
        assert(d@[p].children[a] == n[p].children@[a]);
        assert(d@[p].children[b] == n[p].children@[b]);
    }
    if n[p].parent == Some(p as usize) {
        assert(n[p].parent is Some);
    }
}

/// Nodes that are children of `p`, each once, can be its children.
pub proof fn lemma_kids_adopt(d: &Document, p: int, list: Seq<usize>)
    requires
        d.wf(),
        d.valid(p),
        distinct(list),
        forall|k: int| 0 <= k < list.len() ==> d@[p].children.contains(#[trigger] list[k]),
    ensures
        can_adopt(d, p, list),
{
    lemma_kids(d, p);
    assert forall|k: int| 0 <= k < list.len() implies {
        let c = #[trigger] list[k] as int;
        &&& d.valid(c)
        &&& c != 0
        &&& c != p
        &&& (d@[c].parent == Some(p as usize) || d@[c].parent is None)
    } by {
        assert(d@[p].children.contains(list[k]));
        let j = choose|j: int| 0 <= j < d@[p].children.len() && d@[p].children[j] == list[k];
        assert(d@[p].children[j] == list[k]);
    }
}

/// The nodes after `x` is taken out of its parent's children; a node
/// without a parent stays as it is.
pub open spec fn detached(ns: Seq<NodeV>, x: int) -> Seq<NodeV> {
    match ns[x].parent {
        Some(p) => relinked(ns, p as int, ns[p as int].children.remove(ns[x].index as int)),
        None => ns,
    }
}

/// The nodes after each node of `e` in turn is taken out of its parent.
pub open spec fn detach_all(ns: Seq<NodeV>, e: Seq<usize>) -> Seq<NodeV>
    decreases e.len(),
{
    if e.len() == 0 {
        ns
    } else {
        detached(detach_all(ns, e.drop_last()), e.last() as int)
    }
}

impl Document {
    /// Takes `x` out of its parent's children (see `detached`).
    pub fn detach(&mut self, x: usize)
        requires
            old(self).wf(),
            old(self).valid(x as int),
        ensures
            final(self).wf(),
            same_setup(final(self), old(self)),
            final(self)@ == detached(old(self)@, x as int),
    {
        assert(self@[x as int] == self.nodes@[x as int]@);
        match self.nodes[x].parent {
            Some(p) => {
                let idx = self.nodes[x].index;
                let mut kids = copy_ids(&self.nodes[p].children);
                assert(self@[p as int] == self.nodes@[p as int]@);
                proof {
                    lemma_kids(self, p as int);
                }
                let ghost k0 = kids@;
                kids.remove(idx);
                proof {
                    assert(kids@ == k0.remove(idx as int));
                    assert forall|a: int, b: int| 0 <= a < b < kids@.len() implies kids@[a] != kids@[b] by {
                        let a0 = if a < idx { a } else { a + 1 };
                        let b0 = if b < idx { b } else { b + 1 };
                        assert(kids@[a] == k0[a0] && kids@[b] == k0[b0]);
                    }
                    assert forall|k: int| 0 <= k < kids@.len() implies self@[p as int].children.contains(#[trigger] kids@[k]) by {
                        let k0i = if k < idx { k } else { k + 1 };
                        assert(kids@[k] == k0[k0i]);
                        assert(self@[p as int].children[k0i] == k0[k0i]);
                    }
                    lemma_kids_adopt(self, p as int, kids@);
                }
                self.set_children(p, &kids);
            },
            None => {},
        }
    }
}

impl crate::elements::Elements {
    /// Takes each element in turn out of its parent (see `detach_all`).
    pub fn remove(&self, d: &mut Document)
        requires
            old(d).wf(),
            all_valid(old(d), self@),
        ensures
            final(d).wf(),
            same_setup(final(d), old(d)),
            final(d)@ == detach_all(old(d)@, self@),
    {
        let ghost d0 = *d;
        let mut i: usize = 0;
        assert(self@.take(0) =~= Seq::<usize>::empty());
        while i < self.nodes.len()
            invariant
                d.wf(),
                all_valid(&d0, self@),
                d.nodes@.len() == d0.nodes@.len(),
                same_setup(d, &d0),
                i <= self@.len(),
                d@ == detach_all(d0@, self@.take(i as int)),
            decreases self.nodes.len() - i,
        {
            assert(self@.take(i + 1).drop_last() =~= self@.take(i as int));
            assert(d0.valid(self@[i as int] as int));
            d.detach(self.nodes[i]);
            assert(d.nodes@.len() == d@.len());
            i += 1;
        }
        assert(self@.take(i as int) =~= self@);
    }
}

/// What `relinked` keeps of the links: taking `list` as the children of
/// `p` leaves the nodes well linked.
proof fn lemma_relinked_linked(o: Seq<NodeData>, n: Seq<NodeData>, p: int, list: Seq<usize>)
    requires
        nodes_linked(o),
        0 <= p < o.len(),
        o[p].parent != Some(p as usize),
        distinct(list),
        list.len() <= usize::MAX,
        forall|k: int|
            0 <= k < list.len() ==> {
                let c = #[trigger] list[k] as int;
                &&& 0 <= c < o.len()
                &&& c != 0
                &&& c != p
                &&& (o[c].parent == Some(p as usize) || o[c].parent is None)
            },
        n.map_values(|x: NodeData| x@) == relinked(o.map_values(|x: NodeData| x@), p, list),
    ensures
        nodes_linked(n),
{
    let ov = o.map_values(|x: NodeData| x@);
    let nv = n.map_values(|x: NodeData| x@);
    assert(n.len() == o.len()) by {
        assert(nv.len() == ov.len());
    }
    assert forall|i: int| 0 <= i < n.len() implies {
        &&& #[trigger] n[i].kind == o[i].kind
        &&& n[i].content is Some == o[i].content is Some
        &&& n[i].attrs@.len() == o[i].attrs@.len()
        &&& n[i].attr_map@.len() == o[i].attr_map@.len()
        &&& forall|k: int| 0 <= k < n[i].attr_map@.len() ==> n[i].attr_map@[k].1 == o[i].attr_map@[k].1
        &&& (i != p ==> n[i].children@ == o[i].children@)
        &&& (i == p ==> n[i].children@ == list && n[i].parent == o[i].parent && n[i].index == o[i].index)
        &&& (i != p && list.contains(i as usize) ==> n[i].parent == Some(p as usize) && n[i].index == pos_of(list, i as usize) as usize)
        &&& (i != p && !list.contains(i as usize) && o[p].children@.contains(i as usize) ==> n[i].parent is None)
        &&& (i != p && !list.contains(i as usize) && !o[p].children@.contains(i as usize) ==> n[i].parent == o[i].parent && n[i].index == o[i].index)
    } by {
        assert(nv[i] == n[i]@);
        assert(ov[i] == o[i]@);
        assert(ov[p] == o[p]@);
        assert(nv[i].attr_map == ov[i].attr_map);
        assert(nv[i].attrs == ov[i].attrs);
        assert(n[i].attr_map@.len() == nv[i].attr_map.len());
        assert(o[i].attr_map@.len() == ov[i].attr_map.len());
        assert(n[i].attrs@.len() == nv[i].attrs.len());
        assert(o[i].attrs@.len() == ov[i].attrs.len());
        assert forall|k: int| 0 <= k < n[i].attr_map@.len() implies n[i].attr_map@[k].1 == o[i].attr_map@[k].1 by {
            assert(nv[i].attr_map[k].1 == n[i].attr_map@[k].1);
            assert(ov[i].attr_map[k].1 == o[i].attr_map@[k].1);
        }
        assert(nv[i].content is Some == n[i].content is Some);
        assert(ov[i].content is Some == o[i].content is Some);
        assert(nv[i].children == n[i].children@);
        assert(ov[i].children == o[i].children@);
        assert(ov[p].children == o[p].children@);
        assert(nv[i].parent == n[i].parent && nv[i].index == n[i].index);
        assert(ov[i].parent == o[i].parent && ov[i].index == o[i].index);
    }
    assert(n[0].parent is None) by {
        assert(o[0].parent is None);
        assert(n[0].kind == o[0].kind);
        if list.contains(0usize) {
            let k = choose|k: int| 0 <= k < list.len() && list[k] == 0usize;
            assert(list[k] as int != 0);
        }
        if o[p].children@.contains(0usize) {
            let j = choose|j: int| 0 <= j < o[p].children@.len() && o[p].children@[j] == 0usize;
            assert(o[p].children@[j] == 0);
        }
    }
    assert forall|i: int, k: int|
        #![trigger n[i].children@[k]]
        0 <= i < n.len() && 0 <= k < n[i].children@.len() implies {
            let c = n[i].children@[k] as int;
            &&& 0 <= c < n.len()
            &&& n[c].parent == Some(i as usize)
            &&& n[c].index == k
        } by {
        assert(n[i].kind == o[i].kind);
        if i == p {
            let c = list[k] as int;
            assert(n[i].children@[k] == list[k]);
            assert(list.contains(c as usize)) by {
                assert(list[k] == c as usize);
            }
            lemma_pos_of(list, k);
            assert(n[c].kind == o[c].kind);
            assert(c != p);
            assert(n[c].parent == Some(p as usize));
            assert(n[c].index == k);
        } else {
            assert(n[i].children@[k] == o[i].children@[k]);
            let c = o[i].children@[k] as int;
            assert(o[c].parent == Some(i as usize));
            assert(n[c].kind == o[c].kind);
            if list.contains(c as usize) {
                let j = choose|j: int| 0 <= j < list.len() && list[j] == c as usize;
                assert(list[j] as int == c);
            }
            if o[p].children@.contains(c as usize) {
                let j = choose|j: int| 0 <= j < o[p].children@.len() && o[p].children@[j] == c as usize;
                assert(o[p].children@[j] == c);
            }
        }
    }
    assert forall|i: int|
        #![trigger n[i].parent]
        0 <= i < n.len() && n[i].parent is Some implies {
            let q = n[i].parent.unwrap() as int;
            &&& 0 <= q < n.len()
            &&& n[i].index < n[q].children@.len()
            &&& n[q].children@[n[i].index as int] == i
            &&& q != i
        } by {
        assert(n[i].kind == o[i].kind);
        if i == p {
            let q = o[i].parent.unwrap() as int;
            assert(q != p);
            assert(n[q].kind == o[q].kind);
            assert(o[q].children@[o[i].index as int] == i);
        } else if list.contains(i as usize) {
            let j = choose|j: int| 0 <= j < list.len() && list[j] == i as usize;
            lemma_pos_of(list, j);
            assert(n[p].kind == o[p].kind);
        } else if o[p].children@.contains(i as usize) {
        } else {
            let q = o[i].parent.unwrap() as int;
            assert(o[q].children@[o[i].index as int] == i);
            if q == p {
                assert(o[p].children@.contains(i as usize));
            }
            assert(n[q].kind == o[q].kind);
        }
    }
    assert forall|i: int, k: int|
        #![trigger n[i].attr_map@[k]]
        0 <= i < n.len() && 0 <= k < n[i].attr_map@.len() implies n[i].attr_map@[k].1 < n[i].attrs@.len() by {
        assert(n[i].kind == o[i].kind);
        assert(o[i].attr_map@[k].1 < o[i].attrs@.len());
    }
    assert forall|i: int|
        #![trigger n[i].kind]
        0 <= i < n.len() && (n[i].kind == NodeKind::Text || n[i].kind == NodeKind::Spaces) implies n[i].content is Some by {
        assert(o[i].kind == n[i].kind);
    }
}

} // verus!
