//! Copies of nodes: a node and its descendants added again to the document,
//! without a parent.
use crate::chars::copy_chars;
use crate::dom::{nodes_linked, opt_chars, Attr, AttrV, Document, NodeData, NodeKind, NodeV};
use crate::elements::{all_valid, copy_ids, Elements};
use crate::mutate::{can_adopt, distinct, relinked, same_setup};
use vstd::prelude::*;

verus! {

/// Node `n` without its links: no parent, no children.
pub open spec fn unlinked(n: NodeV) -> NodeV {
    NodeV { parent: None, index: 0, children: Seq::empty(), ..n }
}

/// The nodes from `lo` on were added after `lo` and link only to later
/// nodes: each child comes after its parent.
pub open spec fn fresh_from(d: &Document, lo: int) -> bool {
    forall|i: int, k: int|
        #![trigger d@[i].children[k]]
        lo <= i < d@.len() && 0 <= k < d@[i].children.len() ==> i < d@[i].children[k] < d@.len()
}

fn copy_opt(o: &Option<Vec<char>>) -> (r: Option<Vec<char>>)
    ensures
        opt_chars(r) == opt_chars(*o),
{
    match o {
        Some(v) => Some(copy_chars(v.as_slice())),
        None => None,
    }
}

fn copy_attrs(a: &Vec<Attr>) -> (r: Vec<Attr>)
    ensures
        r@.map_values(|x: Attr| x@) == a@.map_values(|x: Attr| x@),
{
    let mut r: Vec<Attr> = Vec::new();
    let mut k: usize = 0;
    while k < a.len()
        invariant
            k <= a@.len(),
            r@.len() == k,
            forall|j: int| 0 <= j < k ==> (#[trigger] r@[j])@ == a@[j]@,
        decreases a@.len() - k,
    {
        let x = &a[k];
        r.push(Attr { key: copy_opt(&x.key), value: copy_opt(&x.value), quote: x.quote, need_quote: x.need_quote });
        k += 1;
    }
    assert(r@.map_values(|x: Attr| x@) =~= a@.map_values(|x: Attr| x@));
    r
}

fn copy_attr_map(m: &Vec<(Vec<char>, usize)>) -> (r: Vec<(Vec<char>, usize)>)
    ensures
        r@.map_values(|e: (Vec<char>, usize)| (e.0@, e.1)) == m@.map_values(|e: (Vec<char>, usize)| (e.0@, e.1)),
{
    let mut r: Vec<(Vec<char>, usize)> = Vec::new();
    let mut k: usize = 0;
    while k < m.len()
        invariant
            k <= m@.len(),
            r@.len() == k,
            forall|j: int| 0 <= j < k ==> (#[trigger] r@[j]).0@ == m@[j].0@ && r@[j].1 == m@[j].1,
        decreases m@.len() - k,
    {
        r.push((copy_chars(m[k].0.as_slice()), m[k].1));
        k += 1;
    }
    assert(r@.map_values(|e: (Vec<char>, usize)| (e.0@, e.1)) =~= m@.map_values(
        |e: (Vec<char>, usize)| (e.0@, e.1),
    ));
    r
}

/// The tree that the renderer is given for node `i` is the same in two
/// documents that agree, but for parents and positions, on the nodes from
/// `lo` on, where those nodes link only among themselves.
pub proof fn lemma_rtree_frame(d1: &Document, d2: &Document, lo: int, i: int, fuel: nat)
    requires
        lo <= i < d1@.len() <= d2@.len(),
        forall|j: int| lo <= j < d1@.len() ==> #[trigger] unlinked(d1@[j]) == unlinked(d2@[j]),
        forall|j: int| lo <= j < d1@.len() ==> #[trigger] d1@[j].children == d2@[j].children,
        forall|j: int, k: int|
            #![trigger d1@[j].children[k]]
            lo <= j < d1@.len() && 0 <= k < d1@[j].children.len() ==> lo <= d1@[j].children[k] < d1@.len(),
    ensures
        d1.rtree(i, fuel) == d2.rtree(i, fuel),
    decreases fuel,
{
    assert(unlinked(d1@[i]) == unlinked(d2@[i]));
    assert(d1@[i].children == d2@[i].children);
    if fuel > 0 {
        let n = d1@[i];
        assert forall|k: int| 0 <= k < n.children.len() implies d1.rtree(n.children[k] as int, (fuel - 1) as nat)
            == d2.rtree(n.children[k] as int, (fuel - 1) as nat) by {
            assert(lo <= d1@[i].children[k] < d1@.len());
            lemma_rtree_frame(d1, d2, lo, n.children[k] as int, (fuel - 1) as nat);
        }
        assert(d1.rtree(i, fuel).children =~= d2.rtree(i, fuel).children);
    }
}

impl Document {
    /// Adds a copy of node `x` without its links; its position.
    fn push_copy(&mut self, x: usize) -> (r: usize)
        requires
            old(self).wf(),
            old(self).valid(x as int),
            old(self).nodes@.len() < usize::MAX - 1,
        ensures
            final(self).wf(),
            same_setup(final(self), old(self)),
            final(self)@ == old(self)@.push(unlinked(old(self)@[x as int])),
            r == old(self)@.len(),
    {
        let ghost o = self.nodes@;
        let id = self.nodes.len();
        let src = &self.nodes[x];
        let node = NodeData {
            kind: src.kind,
            name: copy_chars(src.name.as_slice()),
            attrs: copy_attrs(&src.attrs),
            attr_map: copy_attr_map(&src.attr_map),
            content: copy_opt(&src.content),
            self_closed: src.self_closed,
            auto_fix: src.auto_fix,
            end_tag: copy_opt(&src.end_tag),
            parent: None,
            index: 0,
            children: Vec::new(),
        };
        self.nodes.push(node);
        proof {
            let n = self.nodes@;
            assert(n[id as int].attrs@.len() == o[x as int].attrs@.len()) by {
                assert(n[id as int].attrs@.map_values(|a: Attr| a@).len() == o[x as int].attrs@.map_values(
                    |a: Attr| a@,
                ).len());
            }
            assert(self@ =~= old(self)@.push(unlinked(old(self)@[x as int]))) by {
                assert(n[id as int]@.children =~= Seq::<usize>::empty());
            }
            assert forall|j: int, k: int|
                #![trigger n[j].children@[k]]
                0 <= j < n.len() && 0 <= k < n[j].children@.len() implies {
                    let c = n[j].children@[k] as int;
                    &&& 0 <= c < n.len()
                    &&& n[c].parent == Some(j as usize)
                    &&& n[c].index == k
                } by {
                assert(j < id);
                assert(o[j].children@[k] == n[j].children@[k]);
            }
            assert forall|j: int|
                #![trigger n[j].parent]
                0 <= j < n.len() && n[j].parent is Some implies {
                    let p = n[j].parent.unwrap() as int;
                    &&& 0 <= p < n.len()
                    &&& n[j].index < n[p].children@.len()
                    &&& n[p].children@[n[j].index as int] == j
                    &&& p != j
                } by {
                assert(j < id);
                assert(o[j].parent == n[j].parent);
                let p = o[j].parent.unwrap() as int;
                assert(o[p].children@ == n[p].children@);
            }
            assert forall|j: int, k: int|
                #![trigger n[j].attr_map@[k]]
                0 <= j < n.len() && 0 <= k < n[j].attr_map@.len() implies n[j].attr_map@[k].1 < n[j].attrs@.len() by {
                if j < id {
                    assert(o[j].attr_map@[k].1 < o[j].attrs@.len());
                } else {
                    let mo = o[x as int].attr_map@.map_values(|e: (Vec<char>, usize)| (e.0@, e.1));
                    let mn = n[j].attr_map@.map_values(|e: (Vec<char>, usize)| (e.0@, e.1));
                    assert(mn == mo);
                    assert(mn.len() == n[j].attr_map@.len() && mo.len() == o[x as int].attr_map@.len());
                    assert(mn[k].1 == n[j].attr_map@[k].1);
                    assert(mo[k].1 == o[x as int].attr_map@[k].1);
                    assert(o[x as int].attr_map@[k].1 < o[x as int].attrs@.len());
                }
            }
            assert forall|j: int|
                #![trigger n[j].kind]
                0 <= j < n.len() && (n[j].kind == NodeKind::Text || n[j].kind == NodeKind::Spaces) implies n[j].content
                    is Some by {
                if j < id {
                    assert(o[j].kind == n[j].kind);
                } else {
                    assert(o[x as int].kind == n[j].kind);
                    assert(self@[j].content == old(self)@[x as int].content);
                }
            }
        }
        id
    }
}

impl Document {
    /// Adds a copy of node `x` and of its descendants down to `fuel` levels
    /// after the nodes of the document, the copy of `x` without a parent:
    /// its position, and the renderer is given the same tree for it as for
    /// `x`. `None` comes back only when the document has no room left.
    #[verifier::rlimit(40)]
    pub(crate) fn copy_tree(&mut self, x: usize, fuel: usize) -> (r: Option<usize>)
        requires
            old(self).wf(),
            old(self).valid(x as int),
        ensures
            final(self).wf(),
            same_setup(final(self), old(self)),
            final(self)@.len() >= old(self)@.len(),
            final(self)@.take(old(self)@.len() as int) == old(self)@,
            r is Some ==> fresh_from(final(self), old(self)@.len() as int),
            r is None ==> final(self)@.len() >= usize::MAX - 2,
            r matches Some(c) ==> {
                &&& c == old(self)@.len() < final(self)@.len()
                &&& final(self)@[c as int].parent is None
                &&& final(self).rtree(c as int, fuel as nat) == old(self).rtree(x as int, fuel as nat)
            },
        decreases fuel,
    {
        let ghost d0 = *self;
        let n0 = self.nodes.len();
        if n0 >= usize::MAX - 2 {
            return None;
        }
        let c = self.push_copy(x);
        assert(self@.take(n0 as int) =~= d0@);
        if fuel == 0 {
            assert(self.rtree(c as int, 0) == d0.rtree(x as int, 0));
            return Some(c);
        }
        let kids = copy_ids(&self.nodes[x].children);
        assert(kids@ == d0@[x as int].children);
        let mut list: Vec<usize> = Vec::new();
        let mut k: usize = 0;
        while k < kids.len()
            invariant
                d0 == *old(self),
                d0.wf(),
                d0.valid(x as int),
                c == n0 == d0@.len(),
                kids@ == d0@[x as int].children,
                self.wf(),
                same_setup(self, &d0),
                self@.len() > c,
                self@.take(n0 as int) == d0@,
                self@[c as int] == unlinked(d0@[x as int]),
                fresh_from(self, c + 1),
                0 < fuel,
                k <= kids@.len(),
                list@.len() == k,
                forall|j: int| 0 <= j < k ==> c < #[trigger] list@[j] < self@.len(),
                forall|j: int| 0 <= j < k ==> self@[#[trigger] list@[j] as int].parent is None,
                forall|a: int, b: int| 0 <= a < b < k ==> list@[a] < list@[b],
                forall|j: int|
                    0 <= j < k ==> self.rtree(#[trigger] list@[j] as int, (fuel - 1) as nat) == d0.rtree(
                        kids@[j] as int,
                        (fuel - 1) as nat,
                    ),
            decreases kids@.len() - k,
        {
            let ghost before = *self;
            let kid = kids[k];
            assert(d0.valid(kid as int)) by {
                assert(d0@[x as int].children[k as int] == kid);
            }
            assert(self@[kid as int] == d0@[kid as int]);
            let res = self.copy_tree(kid, fuel - 1);
            proof {
                assert(self@.take(n0 as int) =~= d0@) by {
                    assert forall|j: int| 0 <= j < n0 implies self@[j] == d0@[j] by {
                        assert(self@.take(before@.len() as int)[j] == self@[j]);
                        assert(before@.take(n0 as int)[j] == before@[j]);
                    }
                }
            }
            let cc = match res {
                Some(v) => v,
                None => {
                    return None;
                },
            };
            proof {
                // the copy of `kid` renders as `kid` did in the first document
                assert forall|j: int| 0 <= j < d0@.len() implies #[trigger] unlinked(d0@[j]) == unlinked(before@[j])
                    && d0@[j].children == before@[j].children by {
                    assert(before@.take(n0 as int)[j] == before@[j]);
                }
                lemma_rtree_frame(&d0, &before, 0, kid as int, (fuel - 1) as nat);
                // the earlier copies are left as they were
                assert forall|j: int| c + 1 <= j < before@.len() implies #[trigger] unlinked(before@[j]) == unlinked(
                    self@[j],
                ) && before@[j].children == self@[j].children by {
                    assert(self@.take(before@.len() as int)[j] == self@[j]);
                }
                assert forall|j: int| 0 <= j < k implies self.rtree(#[trigger] list@[j] as int, (fuel - 1) as nat)
                    == d0.rtree(kids@[j] as int, (fuel - 1) as nat) by {
                    lemma_rtree_frame(&before, self, c + 1, list@[j] as int, (fuel - 1) as nat);
                }
                assert forall|j: int| 0 <= j < k implies self@[#[trigger] list@[j] as int].parent is None by {
                    assert(self@.take(before@.len() as int)[list@[j] as int] == self@[list@[j] as int]);
                }
                assert forall|i: int, t: int|
                    #![trigger self@[i].children[t]]
                    c + 1 <= i < self@.len() && 0 <= t < self@[i].children.len() implies i < self@[i].children[t]
                        < self@.len() by {
                    if i < before@.len() {
                        assert(self@.take(before@.len() as int)[i] == self@[i]);
                        assert(i < before@[i].children[t] < before@.len());
                    }
                }
                assert(self@[c as int] == before@[c as int]) by {
                    assert(self@.take(before@.len() as int)[c as int] == self@[c as int]);
                }
            }
            list.push(cc);
            k += 1;
        }
        let ghost before = *self;
        proof {
            assert(distinct(list@)) by {
                assert forall|a: int, b: int| 0 <= a < list@.len() && 0 <= b < list@.len() && a != b implies list@[a]
                    != list@[b] by {
                    if a < b {
                        assert(list@[a] < list@[b]);
                    } else {
                        assert(list@[b] < list@[a]);
                    }
                }
            }
            assert(can_adopt(self, c as int, list@));
        }
        self.set_children(c, &list);
        proof {
            let ns = before@;
            assert forall|j: int| c + 1 <= j < before@.len() implies #[trigger] unlinked(before@[j]) == unlinked(self@[j])
                && before@[j].children == self@[j].children by {
                if list@.contains(j as usize) {
                } else {
                    assert(!ns[c as int].children.contains(j as usize));
                }
            }
            assert forall|j: int| 0 <= j < list@.len() implies self.rtree(#[trigger] list@[j] as int, (fuel - 1) as nat)
                == d0.rtree(kids@[j] as int, (fuel - 1) as nat) by {
                lemma_rtree_frame(&before, self, c + 1, list@[j] as int, (fuel - 1) as nat);
            }
            assert(self.rtree(c as int, fuel as nat).children =~= d0.rtree(x as int, fuel as nat).children);
            assert forall|j: int| 0 <= j < n0 implies #[trigger] self@[j] == d0@[j] by {
                assert(before@.take(n0 as int)[j] == before@[j]);
                assert(!list@.contains(j as usize)) by {
                    if list@.contains(j as usize) {
                        let t = choose|t: int| 0 <= t < list@.len() && list@[t] == j as usize;
                        assert(c < list@[t]);
                    }
                }
                assert(!ns[c as int].children.contains(j as usize));
            }
            assert(self@.take(n0 as int) =~= d0@);
            assert forall|i: int, t: int|
                #![trigger self@[i].children[t]]
                c <= i < self@.len() && 0 <= t < self@[i].children.len() implies i < self@[i].children[t] < self@.len() by {
                if i == c {
                    assert(self@[i].children == list@);
                } else {
                    assert(before@[i].children == self@[i].children);
                }
            }
        }
        Some(c)
    }
}

impl Elements {
    /// Copies of the elements, each with its descendants (see
    /// `Document::copy_tree`), in the order of the set; the copies have no
    /// parent. The set comes back shorter only when the document has no
    /// room left.
    pub fn copied(&self, d: &mut Document) -> (r: Elements)
        requires
            old(d).wf(),
            all_valid(old(d), self@),
        ensures
            final(d).wf(),
            same_setup(final(d), old(d)),
            final(d)@.take(old(d)@.len() as int) == old(d)@,
            r@.len() <= self@.len(),
            r@.len() < self@.len() ==> final(d)@.len() >= usize::MAX - 2,
            forall|k: int|
                0 <= k < r@.len() ==> {
                    let c = #[trigger] r@[k] as int;
                    &&& old(d)@.len() <= c < final(d)@.len()
                    &&& final(d)@[c].parent is None
                    &&& final(d).rtree(c, old(d).fuel()) == old(d).rtree(self@[k] as int, old(d).fuel())
                },
    {
        let ghost d0 = *d;
        let fuel = d.nodes.len();
        let mut r: Vec<usize> = Vec::new();
        let mut i: usize = 0;
        while i < self.nodes.len()
            invariant
                d0 == *old(d),
                d0.wf(),
                all_valid(&d0, self@),
                fuel == d0.fuel(),
                d.wf(),
                same_setup(d, &d0),
                d@.len() >= d0@.len(),
                d@.take(d0@.len() as int) == d0@,
                fresh_from(d, d0@.len() as int),
                i <= self@.len(),
                r@.len() == i,
                forall|k: int|
                    0 <= k < i ==> {
                        let c = #[trigger] r@[k] as int;
                        &&& d0@.len() <= c < d@.len()
                        &&& d@[c].parent is None
                        &&& d.rtree(c, fuel as nat) == d0.rtree(self@[k] as int, fuel as nat)
                    },
            decreases self@.len() - i,
        {
            let ghost before = *d;
            let x = self.nodes[i];
            assert(d0.valid(x as int));
            assert(d@[x as int] == d0@[x as int]) by {
                assert(d@.take(d0@.len() as int)[x as int] == d@[x as int]);
            }
            match d.copy_tree(x, fuel) {
                Some(c) => {
                    proof {
                        assert forall|j: int| 0 <= j < before@.len() implies #[trigger] unlinked(before@[j]) == unlinked(
                            d@[j],
                        ) && before@[j].children == d@[j].children by {
                            assert(d@.take(before@.len() as int)[j] == d@[j]);
                        }
                        assert forall|j: int| 0 <= j < d0@.len() implies #[trigger] unlinked(d0@[j]) == unlinked(
                            before@[j],
                        ) && d0@[j].children == before@[j].children by {
                            assert(before@.take(d0@.len() as int)[j] == before@[j]);
                        }
                        lemma_rtree_frame(&d0, &before, 0, x as int, fuel as nat);
                        assert forall|k: int| 0 <= k < i implies {
                            let c = #[trigger] r@[k] as int;
                            &&& d0@.len() <= c < d@.len()
                            &&& d@[c].parent is None
                            &&& d.rtree(c, fuel as nat) == d0.rtree(self@[k] as int, fuel as nat)
                        } by {
                            let c = r@[k] as int;
                            assert(d@.take(before@.len() as int)[c] == d@[c]);
                            lemma_rtree_frame(&before, d, d0@.len() as int, c, fuel as nat);
                        }
                        assert(d@.take(d0@.len() as int) =~= d0@) by {
                            assert forall|j: int| 0 <= j < d0@.len() implies d@[j] == d0@[j] by {
                                assert(d@.take(before@.len() as int)[j] == d@[j]);
                                assert(before@.take(d0@.len() as int)[j] == before@[j]);
                            }
                        }
                        assert forall|j: int, t: int|
                            #![trigger d@[j].children[t]]
                            d0@.len() <= j < d@.len() && 0 <= t < d@[j].children.len() implies j < d@[j].children[t]
                                < d@.len() by {
                            if j < before@.len() {
                                assert(d@.take(before@.len() as int)[j] == d@[j]);
                            }
                        }
                    }
                    r.push(c);
                },
                None => {
                    proof {
                        assert forall|k: int| 0 <= k < i implies {
                            let c = #[trigger] r@[k] as int;
                            &&& d0@.len() <= c < d@.len()
                            &&& d@[c].parent is None
                            &&& d.rtree(c, fuel as nat) == d0.rtree(self@[k] as int, fuel as nat)
                        } by {
                            let c = r@[k] as int;
                            assert(d@.take(before@.len() as int)[c] == d@[c]);
                            assert forall|j: int| 0 <= j < before@.len() implies #[trigger] unlinked(before@[j])
                                == unlinked(d@[j]) && before@[j].children == d@[j].children by {
                                assert(d@.take(before@.len() as int)[j] == d@[j]);
                            }
                            lemma_rtree_frame(&before, d, d0@.len() as int, c, fuel as nat);
                        }
                        assert(d@.take(d0@.len() as int) =~= d0@) by {
                            assert forall|j: int| 0 <= j < d0@.len() implies d@[j] == d0@[j] by {
                                assert(d@.take(before@.len() as int)[j] == d@[j]);
                                assert(before@.take(d0@.len() as int)[j] == before@[j]);
                            }
                        }
                    }
                    return Elements { nodes: r };
                },
            }
            i += 1;
        }
        Elements { nodes: r }
    }
}

} // verus!
