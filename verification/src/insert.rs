//! Moving nodes: inserting a node, or the children of a fragment, before,
//! into or after an element.
use crate::chars::spec_lower_seq;
use crate::dom::{Document, NodeKind, NodeV};
use crate::elements::{all_valid, copy_ids, Elements};
use crate::html::{allow_insert, spec_allow_insert};
use crate::mutate::{can_adopt, detached, distinct, lemma_kids, relinked, same_setup};
use vstd::prelude::*;

verus! {

/// Where a node goes relative to an element.
#[derive(PartialEq, Eq, Structural, Clone, Copy, Debug)]
pub enum InsertPosition {
    /// before the element, among its siblings
    BeforeBegin,
    /// first among its children
    AfterBegin,
    /// last among its children
    BeforeEnd,
    /// after the element, among its siblings
    AfterEnd,
}

impl InsertPosition {
    /// The name of the action.
    pub fn action(&self) -> (r: &'static str)
        ensures
            r@ == match self {
                InsertPosition::BeforeBegin => "insert before"@,
                InsertPosition::AfterBegin => "prepend"@,
                InsertPosition::BeforeEnd => "append"@,
                InsertPosition::AfterEnd => "insert after"@,
            },
    {
        match self {
            InsertPosition::BeforeBegin => "insert before",
            InsertPosition::AfterBegin => "prepend",
            InsertPosition::BeforeEnd => "append",
            InsertPosition::AfterEnd => "insert after",
        }
    }
}

/// The ancestor `k` levels up from `i` (`i` itself at 0).
pub open spec fn ns_ancestor(ns: Seq<NodeV>, i: int, k: nat) -> Option<usize>
    decreases k,
{
    if k == 0 {
        if 0 <= i < ns.len() {
            Some(i as usize)
        } else {
            None
        }
    } else {
        match ns_ancestor(ns, i, (k - 1) as nat) {
            Some(j) => if j < ns.len() {
                ns[j as int].parent
            } else {
                None
            },
            None => None,
        }
    }
}

/// `a` is an ancestor of `t`, within as many levels as there are nodes.
pub open spec fn ns_above(ns: Seq<NodeV>, a: int, t: int) -> bool {
    exists|k: nat| 1 <= k <= ns.len() && #[trigger] ns_ancestor(ns, t, k) == Some(a as usize)
}

/// The root `x` has an `html` element child: it is a whole page.
pub open spec fn ns_is_document(ns: Seq<NodeV>, x: int) -> bool {
    exists|k: int|
        0 <= k < ns[x].children.len() && {
            let c = #[trigger] ns[x].children[k] as int;
            ns[c].kind == NodeKind::Tag && spec_lower_seq(ns[c].name) == "html"@
        }
}

/// The nodes of `s` that may go into an element named `name`, in order.
pub open spec fn allowed_of(name: Seq<char>, ns: Seq<NodeV>, s: Seq<usize>) -> Seq<usize>
    decreases s.len(),
{
    if s.len() == 0 {
        Seq::empty()
    } else {
        let r = allowed_of(name, ns, s.drop_last());
        if spec_allow_insert(name, ns[s.last() as int].kind) {
            r.push(s.last())
        } else {
            r
        }
    }
}

/// The nodes after inserting `x` at `pos` relative to `t`. Nothing happens
/// where `t` is not an element, `x` is a whole page, `x` is `t` or one of
/// its ancestors. Otherwise the children of `x` go where `x` is a root,
/// `x` itself else, first taken out of their parent; into `t` go only the
/// nodes that it allows; beside `t` they go only where it has a parent.
pub open spec fn insert_spec(ns: Seq<NodeV>, t: int, pos: InsertPosition, x: int) -> Seq<NodeV> {
    if ns[t].kind != NodeKind::Tag || (ns[x].kind == NodeKind::Root && ns_is_document(ns, x)) || t == x || ns_above(
        ns,
        x,
        t,
    ) {
        ns
    } else {
        let frag = ns[x].kind == NodeKind::Root;
        let nodes0 = if frag {
            ns[x].children
        } else {
            seq![x as usize]
        };
        let ns1 = if frag {
            relinked(ns, x, Seq::empty())
        } else {
            detached(ns, x)
        };
        let nodes = if pos == InsertPosition::AfterBegin || pos == InsertPosition::BeforeEnd {
            allowed_of(spec_lower_seq(ns[t].name), ns, nodes0)
        } else {
            nodes0
        };
        place_spec(ns1, t, pos, nodes)
    }
}

/// The nodes after `nodes` are put at `pos` relative to `t`: first or last
/// among its children, or before or after it among its parent's children
/// where it has a parent; nothing for no nodes.
pub open spec fn place_spec(ns1: Seq<NodeV>, t: int, pos: InsertPosition, nodes: Seq<usize>) -> Seq<NodeV> {
    if nodes.len() == 0 {
        ns1
    } else {
        match pos {
            InsertPosition::AfterBegin => relinked(ns1, t, nodes + ns1[t].children),
            InsertPosition::BeforeEnd => relinked(ns1, t, ns1[t].children + nodes),
            _ => match ns1[t].parent {
                Some(p) => {
                    let idx = if pos == InsertPosition::AfterEnd {
                        ns1[t].index + 1
                    } else {
                        ns1[t].index as int
                    };
                    let kids = ns1[p as int].children;
                    relinked(ns1, p as int, kids.take(idx) + nodes + kids.skip(idx))
                },
                None => ns1,
            },
        }
    }
}

proof fn lemma_allowed_of(name: Seq<char>, ns: Seq<NodeV>, s: Seq<usize>)
    ensures
        forall|k: int| 0 <= k < allowed_of(name, ns, s).len() ==> s.contains(#[trigger] allowed_of(name, ns, s)[k]),
        distinct(s) ==> distinct(allowed_of(name, ns, s)),
    decreases s.len(),
{
    if s.len() > 0 {
        let r = allowed_of(name, ns, s.drop_last());
        lemma_allowed_of(name, ns, s.drop_last());
        assert forall|k: int| 0 <= k < allowed_of(name, ns, s).len() implies s.contains(
            #[trigger] allowed_of(name, ns, s)[k],
        ) by {
            if k < r.len() {
                assert(allowed_of(name, ns, s)[k] == r[k]);
                assert(s.drop_last().contains(r[k]));
                let j = choose|j: int| 0 <= j < s.drop_last().len() && s.drop_last()[j] == r[k];
                assert(s[j] == r[k]);
            } else {
                assert(s[s.len() - 1] == s.last());
            }
        }
        if distinct(s) {
            assert(distinct(s.drop_last()));
            assert forall|a: int, b: int|
                0 <= a < b < allowed_of(name, ns, s).len() implies allowed_of(name, ns, s)[a] != allowed_of(
                name,
                ns,
                s,
            )[b] by {
                if b < r.len() {
                } else {
                    assert(allowed_of(name, ns, s)[a] == r[a]);
                    assert(s.drop_last().contains(r[a]));
                    let j = choose|j: int| 0 <= j < s.drop_last().len() && s.drop_last()[j] == r[a];
                    assert(s[j] == r[a]);
                    assert(allowed_of(name, ns, s)[b] == s[s.len() - 1]);
                }
            }
        }
    }
}

/// Nodes without a parent, each once, none the root or `p`, put among the
/// children of `p` at `i`: `p` can take the list.
proof fn lemma_insert_adopt(d: &Document, p: int, nodes: Seq<usize>, i: int)
    requires
        d.wf(),
        d.valid(p),
        0 <= i <= d@[p].children.len(),
        distinct(nodes),
        forall|k: int|
            0 <= k < nodes.len() ==> {
                let c = #[trigger] nodes[k] as int;
                &&& d.valid(c)
                &&& c != 0
                &&& c != p
                &&& d@[c].parent is None
            },
    ensures
        can_adopt(d, p, d@[p].children.take(i) + nodes + d@[p].children.skip(i)),
{
    lemma_kids(d, p);
    let kids = d@[p].children;
    let l = kids.take(i) + nodes + kids.skip(i);
    let a = kids.take(i);
    let m = a.len() + nodes.len();
    assert forall|k: int| 0 <= k < l.len() implies {
        let c = #[trigger] l[k] as int;
        &&& d.valid(c)
        &&& c != 0
        &&& c != p
        &&& (d@[c].parent == Some(p as usize) || d@[c].parent is None)
    } by {
        if k < a.len() {
            assert(l[k] == kids[k]);
        } else if k < m {
            assert(l[k] == nodes[k - a.len()]);
        } else {
            assert(l[k] == kids[k - m + i]);
        }
    }
    assert forall|x: int, y: int| 0 <= x < y < l.len() implies l[x] != l[y] by {
        let kx = if x < a.len() {
            x
        } else if x < m {
            -1
        } else {
            x - m + i
        };
        let ky = if y < a.len() {
            y
        } else if y < m {
            -1
        } else {
            y - m + i
        };
        if kx >= 0 {
            assert(l[x] == kids[kx]);
        } else {
            assert(l[x] == nodes[x - a.len()]);
        }
        if ky >= 0 {
            assert(l[y] == kids[ky]);
        } else {
            assert(l[y] == nodes[y - a.len()]);
        }
    }
}

/// Walks up from `t`: `x` is one of its ancestors (see `ns_above`).
fn is_above(d: &Document, x: usize, t: usize) -> (r: bool)
    requires
        d.wf(),
        d.valid(t as int),
    ensures
        r == ns_above(d@, x as int, t as int),
{
    let n = d.nodes.len();
    let mut cur: Option<usize> = Some(t);
    let mut k: usize = 0;
    assert(ns_ancestor(d@, t as int, 0) == Some(t));
    while k < n
        invariant
            d.wf(),
            d.valid(t as int),
            n == d@.len(),
            k <= n,
            cur == ns_ancestor(d@, t as int, k as nat),
            cur matches Some(c) ==> c < n,
            forall|j: nat| 1 <= j <= k ==> #[trigger] ns_ancestor(d@, t as int, j) != Some(x),
        decreases n - k,
    {
        let next = match cur {
            Some(c) => {
                assert(d@[c as int] == d.nodes@[c as int]@);
                let q = d.nodes[c].parent;
                proof {
                    if q is Some {
                        assert(d.nodes@[c as int].parent is Some);
                    }
                }
                q
            },
            None => None,
        };
        assert(next == ns_ancestor(d@, t as int, (k + 1) as nat));
        if next == Some(x) {
            return true;
        }
        cur = next;
        k += 1;
    }
    false
}

impl Document {
    /// The root `x` holds a whole page (see `ns_is_document`).
    fn is_page(&self, x: usize) -> (r: bool)
        requires
            self.wf(),
            self.valid(x as int),
        ensures
            r == (self@[x as int].kind == NodeKind::Root && ns_is_document(self@, x as int)),
    {
        assert(self@[x as int] == self.nodes@[x as int]@);
        if self.nodes[x].kind != NodeKind::Root {
            return false;
        }
        let r = self.is_document(x);
        proof {
            if r {
                let k = choose|k: int|
                    0 <= k < self.nodes@[x as int].children@.len() && {
                        let c = #[trigger] self.nodes@[x as int].children@[k] as int;
                        self.kind_of(c) == NodeKind::Tag && spec_lower_seq(self.nodes@[c].name@) == "html"@
                    };
                let c = self.nodes@[x as int].children@[k] as int;
                assert(self@[x as int].children[k] == c);
                assert(self@[c] == self.nodes@[c]@);
            } else if ns_is_document(self@, x as int) {
                let k = choose|k: int|
                    0 <= k < self@[x as int].children.len() && {
                        let c = #[trigger] self@[x as int].children[k] as int;
                        self@[c].kind == NodeKind::Tag && spec_lower_seq(self@[c].name) == "html"@
                    };
                let c = self@[x as int].children[k] as int;
                assert(self.nodes@[x as int].children@[k] == c);
                assert(self@[c] == self.nodes@[c]@);
                assert(self.kind_of(c) == NodeKind::Tag);
            }
        }
        r
    }

    /// Takes out of their parent the nodes that move: the children of the
    /// root `x`, or `x` itself.
    fn take_moving(&mut self, x: usize, frag: bool) -> (r: Vec<usize>)
        requires
            old(self).wf(),
            old(self).valid(x as int),
            frag == (old(self)@[x as int].kind == NodeKind::Root),
        ensures
            final(self).wf(),
            same_setup(final(self), old(self)),
            final(self)@.len() == old(self)@.len(),
            final(self)@ == if frag {
                relinked(old(self)@, x as int, Seq::empty())
            } else {
                detached(old(self)@, x as int)
            },
            r@ == if frag {
                old(self)@[x as int].children
            } else {
                seq![x]
            },
    {
        assert(self@[x as int] == self.nodes@[x as int]@);
        if frag {
            let kids = copy_ids(&self.nodes[x].children);
            proof {
                crate::mutate::lemma_kids_adopt(self, x as int, Seq::<usize>::empty());
            }
            let empty: Vec<usize> = Vec::new();
            self.set_children(x, &empty);
            kids
        } else {
            self.detach(x);
            vec![x]
        }
    }

    /// Puts `nodes` at `pos` relative to `t` (see `place_spec`).
    fn place(&mut self, t: usize, pos: InsertPosition, nodes: &Vec<usize>)
        requires
            old(self).wf(),
            old(self).valid(t as int),
            distinct(nodes@),
            forall|k: int|
                0 <= k < nodes@.len() ==> {
                    let c = #[trigger] nodes@[k] as int;
                    &&& old(self).valid(c)
                    &&& c != 0
                    &&& c != t
                    &&& old(self)@[c].parent is None
                    &&& (old(self)@[t as int].parent matches Some(p) ==> c != p as int)
                },
        ensures
            final(self).wf(),
            same_setup(final(self), old(self)),
            final(self)@.len() == old(self)@.len(),
            final(self)@ == place_spec(old(self)@, t as int, pos, nodes@),
    {
        if nodes.len() == 0 {
            return;
        }
        assert(self@[t as int] == self.nodes@[t as int]@);
        match pos {
            InsertPosition::AfterBegin => {
                let mut list = copy_ids(nodes);
                let mut rest = copy_ids(&self.nodes[t].children);
                list.append(&mut rest);
                proof {
                    lemma_insert_adopt(self, t as int, nodes@, 0);
                    assert(self@[t as int].children.take(0) + nodes@ + self@[t as int].children.skip(0) =~= list@);
                }
                self.set_children(t, &list);
            },
            InsertPosition::BeforeEnd => {
                let mut list = copy_ids(&self.nodes[t].children);
                let n_kids = list.len();
                let mut more = copy_ids(nodes);
                list.append(&mut more);
                proof {
                    lemma_insert_adopt(self, t as int, nodes@, n_kids as int);
                    assert(self@[t as int].children.take(n_kids as int) + nodes@ + self@[t as int].children.skip(
                        n_kids as int,
                    ) =~= list@);
                }
                self.set_children(t, &list);
            },
            _ => {
                match self.nodes[t].parent {
                    Some(p) => {
                        assert(self@[p as int] == self.nodes@[p as int]@);
                        proof {
                            lemma_linked_view(self);
                        }
                        let plen = self.nodes[p].children.len();
                        assert(self.nodes[t as int].index < plen);
                        let idx = if pos == InsertPosition::AfterEnd {
                            self.nodes[t].index + 1
                        } else {
                            self.nodes[t].index
                        };
                        let kids = copy_ids(&self.nodes[p].children);
                        let mut list: Vec<usize> = Vec::new();
                        let mut k: usize = 0;
                        while k < idx
                            invariant
                                idx <= kids@.len(),
                                k <= idx,
                                list@ == kids@.take(k as int),
                            decreases idx - k,
                        {
                            list.push(kids[k]);
                            k += 1;
                            assert(list@ =~= kids@.take(k as int));
                        }
                        let mut more = copy_ids(nodes);
                        list.append(&mut more);
                        while k < kids.len()
                            invariant
                                idx <= k <= kids@.len(),
                                list@ == kids@.take(idx as int) + nodes@ + kids@.subrange(idx as int, k as int),
                            decreases kids.len() - k,
                        {
                            list.push(kids[k]);
                            k += 1;
                            assert(list@ =~= kids@.take(idx as int) + nodes@ + kids@.subrange(idx as int, k as int));
                        }
                        assert(kids@.subrange(idx as int, k as int) =~= kids@.skip(idx as int));
                        proof {
                            lemma_insert_adopt(self, p as int, nodes@, idx as int);
                        }
                        self.set_children(p, &list);
                    },
                    None => {},
                }
            },
        }
    }

    /// Inserts `x`, or the children of the root `x`, at `pos` relative to
    /// `t` (see `insert_spec`).
    pub fn insert_adjacent(&mut self, t: usize, pos: InsertPosition, x: usize)
        requires
            old(self).wf(),
            old(self).valid(t as int),
            old(self).valid(x as int),
        ensures
            final(self).wf(),
            same_setup(final(self), old(self)),
            final(self)@.len() == old(self)@.len(),
            final(self)@ == insert_spec(old(self)@, t as int, pos, x as int),
    {
        let ghost d0 = *self;
        let ghost ns = self@;
        assert(self@[t as int] == self.nodes@[t as int]@);
        assert(self@[x as int] == self.nodes@[x as int]@);
        if self.nodes[t].kind != NodeKind::Tag || self.is_page(x) || t == x || is_above(self, x, t) {
            return;
        }
        let frag = self.nodes[x].kind == NodeKind::Root;
        let tname = crate::chars::lower_chars(self.nodes[t].name.as_slice());
        let nodes0 = self.take_moving(x, frag);
        let ghost ns1 = self@;
        proof {
            lemma_moving(&d0, ns1, t, x, frag, nodes0@);
        }
        let is_into = pos == InsertPosition::AfterBegin || pos == InsertPosition::BeforeEnd;
        let mut nodes: Vec<usize> = Vec::new();
        if is_into {
            let mut k: usize = 0;
            assert(nodes0@.take(0) =~= Seq::<usize>::empty());
            while k < nodes0.len()
                invariant
                    self.wf(),
                    ns1 == self@,
                    ns1.len() == ns.len(),
                    k <= nodes0@.len(),
                    tname@ == spec_lower_seq(ns[t as int].name),
                    forall|j: int|
                        0 <= j < nodes0@.len() ==> 0 <= #[trigger] nodes0@[j] < ns.len() && ns1[nodes0@[j] as int].kind
                            == ns[nodes0@[j] as int].kind,
                    nodes@ == allowed_of(spec_lower_seq(ns[t as int].name), ns, nodes0@.take(k as int)),
                decreases nodes0.len() - k,
            {
                let c = nodes0[k];
                assert(nodes0@.take(k + 1).drop_last() =~= nodes0@.take(k as int));
                assert(0 <= nodes0@[k as int] < ns.len());
                assert(self@[c as int] == self.nodes@[c as int]@);
                if allow_insert(tname.as_slice(), self.nodes[c].kind) {
                    nodes.push(c);
                }
                k += 1;
            }
            assert(nodes0@.take(k as int) =~= nodes0@);
        } else {
            nodes = nodes0;
        }
        proof {
            lemma_allowed_of(spec_lower_seq(ns[t as int].name), ns, nodes0@);
            assert forall|k: int| 0 <= k < nodes@.len() implies {
                let c = #[trigger] nodes@[k] as int;
                &&& self.valid(c)
                &&& c != 0
                &&& c != t
                &&& self@[c].parent is None
                &&& (self@[t as int].parent matches Some(p) ==> c != p as int)
            } by {
                if is_into {
                    assert(nodes0@.contains(nodes@[k]));
                    let i0 = choose|i0: int| 0 <= i0 < nodes0@.len() && nodes0@[i0] == nodes@[k];
                    assert(nodes0@[i0] == nodes@[k]);
                } else {
                    assert(nodes0@[k] == nodes@[k]);
                }
            }
        }
        self.place(t, pos, &nodes);
    }
}

/// The moved nodes: distinct nodes, none the root or `t` or its parent,
/// without a parent once taken out; the parent of `t` stays.
pub(crate) proof fn lemma_moving(d0: &Document, ns1: Seq<NodeV>, t: usize, x: usize, frag: bool, nodes0: Seq<usize>)
    requires
        d0.wf(),
        d0.valid(t as int),
        d0.valid(x as int),
        t != x,
        !ns_above(d0@, x as int, t as int),
        !(d0@[x as int].kind == NodeKind::Root && ns_is_document(d0@, x as int)),
        frag == (d0@[x as int].kind == NodeKind::Root),
        nodes0 == if frag {
            d0@[x as int].children
        } else {
            seq![x]
        },
        ns1 == if frag {
            relinked(d0@, x as int, Seq::empty())
        } else {
            detached(d0@, x as int)
        },
    ensures
        ns1.len() == d0@.len(),
        distinct(nodes0),
        ns1[t as int].parent == d0@[t as int].parent,
        forall|k: int|
            0 <= k < nodes0.len() ==> {
                let c = #[trigger] nodes0[k] as int;
                &&& 0 <= c < d0@.len()
                &&& c != 0
                &&& c != t
                &&& ns1[c].parent is None
                &&& ns1[c].kind == d0@[c].kind
                &&& (d0@[t as int].parent matches Some(p) ==> c != p as int)
            },
{
    reveal_with_fuel(ns_ancestor, 3);
    let ns = d0@;
    lemma_linked_view(d0);
    lemma_kids(d0, x as int);
    lemma_parent_kept(ns, ns1, t, x, frag);
    assert forall|k: int| 0 <= k < nodes0.len() implies {
        let c = #[trigger] nodes0[k] as int;
        &&& 0 <= c < d0@.len()
        &&& c != 0
        &&& c != t
        &&& ns1[c].parent is None
        &&& ns1[c].kind == d0@[c].kind
        &&& (d0@[t as int].parent matches Some(p) ==> c != p as int)
    } by {
        let c = nodes0[k] as int;
        if frag {
            assert(ns[x as int].children[k] == c);
            assert(ns[x as int].children.contains(c as usize));
            assert(ns[c].parent == Some(x));
            if c == t {
                assert(ns_ancestor(ns, t as int, 1) == Some(x));
            }
            match ns[t as int].parent {
                Some(p) => {
                    if c == p {
                        assert(ns_ancestor(ns, t as int, 1) == Some(p));
                        assert(ns_ancestor(ns, t as int, 2) == Some(x));
                    }
                },
                None => {},
            }
        } else {
            assert(c == x);
            assert(x != 0) by {
                if x == 0 {
                    assert(d0@[0] == d0.nodes@[0]@);
                }
            }
            match ns[t as int].parent {
                Some(p) => {
                    if c == p {
                        assert(ns_ancestor(ns, t as int, 1) == Some(p));
                    }
                },
                None => {},
            }
            match ns[x as int].parent {
                Some(q) => {
                    let l = ns[q as int].children.remove(ns[x as int].index as int);
                    lemma_kids(d0, q as int);
                    if l.contains(x) {
                        let j = choose|j: int| 0 <= j < l.len() && l[j] == x;
                        let j0 = if j < ns[x as int].index { j } else { j + 1 };
                        assert(l[j] == ns[q as int].children[j0]);
                    }
                    assert(ns[q as int].children[ns[x as int].index as int] == x);
                    assert(ns[q as int].children.contains(x));
                },
                None => {},
            }
        }
    }
}

/// The links of a well linked document, on its nodes as plain values.
pub proof fn lemma_linked_view(d: &Document)
    requires
        d.wf(),
    ensures
        forall|q: int, k: int|
            0 <= q < d@.len() && 0 <= k < d@[q].children.len() ==> {
                let c = #[trigger] d@[q].children[k] as int;
                &&& 0 <= c < d@.len()
                &&& d@[c].parent == Some(q as usize)
                &&& d@[c].index == k
            },
        forall|i: int|
            0 <= i < d@.len() && (#[trigger] d@[i].parent) is Some ==> {
                let q = d@[i].parent.unwrap() as int;
                &&& 0 <= q < d@.len()
                &&& d@[i].index < d@[q].children.len()
                &&& d@[q].children[d@[i].index as int] == i
                &&& q != i
            },
{
    let n = d.nodes@;
    assert forall|q: int, k: int| 0 <= q < d@.len() && 0 <= k < d@[q].children.len() implies {
        let c = #[trigger] d@[q].children[k] as int;
        &&& 0 <= c < d@.len()
        &&& d@[c].parent == Some(q as usize)
        &&& d@[c].index == k
    } by {
        assert(d@[q] == n[q]@);
        assert(d@[q].children[k] == n[q].children@[k]);
        let c = n[q].children@[k] as int;
        assert(d@[c] == n[c]@);
    }
    assert forall|i: int| 0 <= i < d@.len() && (#[trigger] d@[i].parent) is Some implies {
        let q = d@[i].parent.unwrap() as int;
        &&& 0 <= q < d@.len()
        &&& d@[i].index < d@[q].children.len()
        &&& d@[q].children[d@[i].index as int] == i
        &&& q != i
    } by {
        assert(d@[i] == n[i]@);
        assert(n[i].parent is Some);
        let q = n[i].parent.unwrap() as int;
        assert(d@[q] == n[q]@);
    }
}

/// Taking out `x` (or the children of the root `x`) leaves the parent of
/// `t` as it was, where `x` is neither `t` nor above it.
proof fn lemma_parent_kept(ns: Seq<NodeV>, ns1: Seq<NodeV>, t: usize, x: usize, frag: bool)
    requires
        t < ns.len(),
        x < ns.len(),
        t != x,
        !ns_above(ns, x as int, t as int),
        frag ==> ns1 == relinked(ns, x as int, Seq::empty()),
        !frag ==> ns1 == detached(ns, x as int),
        forall|q: int, k: int|
            0 <= q < ns.len() && 0 <= k < ns[q].children.len() ==> {
                let c = #[trigger] ns[q].children[k] as int;
                &&& 0 <= c < ns.len()
                &&& ns[c].parent == Some(q as usize)
                &&& ns[c].index == k
            },
        forall|i: int|
            0 <= i < ns.len() && (#[trigger] ns[i].parent) is Some ==> {
                let q = ns[i].parent.unwrap() as int;
                &&& 0 <= q < ns.len()
                &&& ns[i].index < ns[q].children.len()
                &&& ns[q].children[ns[i].index as int] == i
                &&& q != i
            },
    ensures
        ns1[t as int].parent == ns[t as int].parent,
{
    reveal_with_fuel(ns_ancestor, 3);
    if frag {
        if ns[x as int].children.contains(t) {
            let k = choose|k: int| 0 <= k < ns[x as int].children.len() && ns[x as int].children[k] == t;
            assert(ns[x as int].children[k] == t);
            assert(ns[t as int].parent == Some(x));
            assert(ns_ancestor(ns, t as int, 1) == Some(x));
            assert(ns_above(ns, x as int, t as int));
        }
        assert(ns1[t as int] == ns[t as int]);
    } else {
        match ns[x as int].parent {
            Some(q) => {
                let idx = ns[x as int].index as int;
                let kids = ns[q as int].children;
                assert(kids[idx] == x);
                let l = kids.remove(idx);
                if t == q {
                    assert(ns1[t as int].parent == ns[t as int].parent);
                } else if l.contains(t) {
                    let k = choose|k: int| 0 <= k < l.len() && l[k] == t;
                    let k0 = if k < idx { k } else { k + 1 };
                    assert(l[k] == kids[k0]);
                    assert(ns[t as int].parent == Some(q));
                    assert(ns1[t as int].parent == Some(q));
                } else if kids.contains(t) {
                    let j = choose|j: int| 0 <= j < kids.len() && kids[j] == t;
                    assert(j != idx);
                    let jl = if j < idx { j } else { j - 1 };
                    assert(l[jl] == kids[j]);
                    assert(l.contains(t));
                } else {
                    assert(ns1[t as int] == ns[t as int]);
                }
            },
            None => {},
        }
    }
}

/// The nodes after inserting each node of `xs` in turn at `pos` relative
/// to `t`.
pub open spec fn insert_each(ns: Seq<NodeV>, t: int, xs: Seq<usize>, pos: InsertPosition) -> Seq<NodeV>
    decreases xs.len(),
{
    if xs.len() == 0 {
        ns
    } else {
        insert_spec(insert_each(ns, t, xs.drop_last(), pos), t, pos, xs.last() as int)
    }
}

/// The nodes after inserting, for each target in turn, the nodes of `dest`
/// from the last to the first at `pos` (so that they keep their order).
pub open spec fn insert_all(ns: Seq<NodeV>, targets: Seq<usize>, dest: Seq<usize>, pos: InsertPosition) -> Seq<NodeV>
    decreases targets.len(),
{
    if targets.len() == 0 {
        ns
    } else {
        insert_each(insert_all(ns, targets.drop_last(), dest, pos), targets.last() as int, dest.reverse(), pos)
    }
}

/// The nodes and the handle after `t` is replaced by `x`, or by the
/// children of the root `x`: they take the place of `t` among its parent's
/// children and `t` loses its parent; the handle moves to the one node
/// that replaced `t`. Nothing happens where `x` is a whole page, is `t` or
/// one of its ancestors, or brings no node.
pub open spec fn replace_spec(ns: Seq<NodeV>, t: int, x: int) -> (Seq<NodeV>, usize) {
    if (ns[x].kind == NodeKind::Root && ns_is_document(ns, x)) || t == x || ns_above(ns, x, t) {
        (ns, t as usize)
    } else {
        let frag = ns[x].kind == NodeKind::Root;
        let nodes = if frag {
            ns[x].children
        } else {
            seq![x as usize]
        };
        let ns1 = if frag {
            relinked(ns, x, Seq::empty())
        } else {
            detached(ns, x)
        };
        if nodes.len() == 0 {
            (ns1, t as usize)
        } else {
            let ns2 = match ns1[t].parent {
                Some(p) => {
                    let kids = ns1[p as int].children;
                    let idx = ns1[t].index as int;
                    relinked(ns1, p as int, kids.take(idx) + nodes + kids.skip(idx + 1))
                },
                None => ns1,
            };
            (ns2, if nodes.len() == 1 { nodes[0] } else { t as usize })
        }
    }
}

/// The nodes and handle after the handle `t` is replaced by each node of
/// `xs` in turn.
pub open spec fn replace_each(ns: Seq<NodeV>, t: usize, xs: Seq<usize>) -> (Seq<NodeV>, usize)
    decreases xs.len(),
{
    if xs.len() == 0 {
        (ns, t)
    } else {
        let (ns1, t1) = replace_each(ns, t, xs.drop_last());
        replace_spec(ns1, t1 as int, xs.last() as int)
    }
}

/// The nodes and handles after each target in turn is replaced by the
/// nodes of `dest` from the last to the first.
pub open spec fn replace_all(ns: Seq<NodeV>, targets: Seq<usize>, dest: Seq<usize>) -> (Seq<NodeV>, Seq<usize>)
    decreases targets.len(),
{
    if targets.len() == 0 {
        (ns, Seq::empty())
    } else {
        let (ns1, hs) = replace_all(ns, targets.drop_last(), dest);
        let (ns2, h) = replace_each(ns1, targets.last(), dest.reverse());
        (ns2, hs.push(h))
    }
}

impl Document {
    /// Replaces `t` by `x`, or by the children of the root `x` (see
    /// `replace_spec`); the handle that stands for `t` afterwards.
    pub fn replace_node(&mut self, t: usize, x: usize) -> (r: usize)
        requires
            old(self).wf(),
            old(self).valid(t as int),
            old(self).valid(x as int),
        ensures
            final(self).wf(),
            same_setup(final(self), old(self)),
            final(self)@.len() == old(self)@.len(),
            (final(self)@, r) == replace_spec(old(self)@, t as int, x as int),
            final(self).valid(r as int),
    {
        let ghost d0 = *self;
        let ghost ns = self@;
        assert(self@[x as int] == self.nodes@[x as int]@);
        if self.is_page(x) || t == x || is_above(self, x, t) {
            return t;
        }
        let frag = self.nodes[x].kind == NodeKind::Root;
        let nodes = self.take_moving(x, frag);
        let ghost ns1 = self@;
        proof {
            lemma_moving(&d0, ns1, t, x, frag, nodes@);
        }
        if nodes.len() == 0 {
            return t;
        }
        let handle = if nodes.len() == 1 {
            nodes[0]
        } else {
            t
        };
        assert(self.valid(handle as int)) by {
            if nodes@.len() == 1 {
                assert(0 <= nodes@[0] < ns.len());
            }
        }
        self.splice_in(t, &nodes);
        handle
    }

    /// Puts `nodes` in the place of `t` among its parent's children; `t`
    /// loses its parent. Nothing where `t` has no parent.
    pub(crate) fn splice_in(&mut self, t: usize, nodes: &Vec<usize>)
        requires
            old(self).wf(),
            old(self).valid(t as int),
            distinct(nodes@),
            forall|k: int|
                0 <= k < nodes@.len() ==> {
                    let c = #[trigger] nodes@[k] as int;
                    &&& old(self).valid(c)
                    &&& c != 0
                    &&& c != t
                    &&& old(self)@[c].parent is None
                    &&& (old(self)@[t as int].parent matches Some(p) ==> c != p as int)
                },
        ensures
            final(self).wf(),
            same_setup(final(self), old(self)),
            final(self)@.len() == old(self)@.len(),
            final(self)@ == match old(self)@[t as int].parent {
                Some(p) => {
                    let kids = old(self)@[p as int].children;
                    let idx = old(self)@[t as int].index as int;
                    relinked(old(self)@, p as int, kids.take(idx) + nodes@ + kids.skip(idx + 1))
                },
                None => old(self)@,
            },
    {
        assert(self@[t as int] == self.nodes@[t as int]@);
        match self.nodes[t].parent {
            Some(p) => {
                assert(self@[p as int] == self.nodes@[p as int]@);
                proof {
                    lemma_linked_view(self);
                }
                let plen = self.nodes[p].children.len();
                let idx = self.nodes[t].index;
                assert(idx < plen);
                let kids = copy_ids(&self.nodes[p].children);
                let mut list: Vec<usize> = Vec::new();
                let mut k: usize = 0;
                while k < idx
                    invariant
                        idx < kids@.len(),
                        k <= idx,
                        list@ == kids@.take(k as int),
                    decreases idx - k,
                {
                    list.push(kids[k]);
                    k += 1;
                    assert(list@ =~= kids@.take(k as int));
                }
                let mut more = copy_ids(nodes);
                list.append(&mut more);
                k = idx + 1;
                while k < kids.len()
                    invariant
                        idx < k <= kids@.len(),
                        list@ == kids@.take(idx as int) + nodes@ + kids@.subrange(idx + 1, k as int),
                    decreases kids.len() - k,
                {
                    list.push(kids[k]);
                    k += 1;
                    assert(list@ =~= kids@.take(idx as int) + nodes@ + kids@.subrange(idx + 1, k as int));
                }
                assert(kids@.subrange(idx + 1, k as int) =~= kids@.skip(idx + 1));
                proof {
                    lemma_replace_adopt(self, p as int, t as int, nodes@);
                }
                self.set_children(p, &list);
            },
            None => {},
        }
    }
}

/// The nodes put in the place of the child `t` of `p` can be its children.
proof fn lemma_replace_adopt(d: &Document, p: int, t: int, nodes: Seq<usize>)
    requires
        d.wf(),
        d.valid(p),
        d.valid(t),
        d@[t].parent == Some(p as usize),
        distinct(nodes),
        forall|k: int|
            0 <= k < nodes.len() ==> {
                let c = #[trigger] nodes[k] as int;
                &&& d.valid(c)
                &&& c != 0
                &&& c != p
                &&& d@[c].parent is None
            },
    ensures
        ({
            let kids = d@[p].children;
            let idx = d@[t].index as int;
            can_adopt(d, p, kids.take(idx) + nodes + kids.skip(idx + 1))
        }),
{
    lemma_linked_view(d);
    let kids = d@[p].children;
    let idx = d@[t].index as int;
    lemma_insert_adopt(d, p, nodes, idx);
    let big = kids.take(idx) + nodes + kids.skip(idx);
    let l = kids.take(idx) + nodes + kids.skip(idx + 1);
    let m = idx + nodes.len();
    assert forall|k: int| 0 <= k < l.len() implies big.contains(#[trigger] l[k]) by {
        if k < m {
            assert(l[k] == big[k]);
        } else {
            assert(l[k] == big[k + 1]);
        }
    }
    assert forall|k: int| 0 <= k < l.len() implies {
        let c = #[trigger] l[k] as int;
        &&& d.valid(c)
        &&& c != 0
        &&& c != p
        &&& (d@[c].parent == Some(p as usize) || d@[c].parent is None)
    } by {
        assert(big.contains(l[k]));
        let j = choose|j: int| 0 <= j < big.len() && big[j] == l[k];
        assert(big[j] == l[k]);
    }
    assert forall|a: int, b: int| 0 <= a < b < l.len() implies l[a] != l[b] by {
        let a0 = if a < m { a } else { a + 1 };
        let b0 = if b < m { b } else { b + 1 };
        assert(l[a] == big[a0] && l[b] == big[b0]);
    }
}

impl Elements {
    /// Inserts the nodes of `dest`, from the last to the first, at `pos`
    /// relative to each element in turn (see `insert_all`).
    fn insert(&self, d: &mut Document, dest: &Elements, pos: InsertPosition)
        requires
            old(d).wf(),
            all_valid(old(d), self@),
            all_valid(old(d), dest@),
        ensures
            final(d).wf(),
            same_setup(final(d), old(d)),
            final(d)@.len() == old(d)@.len(),
            final(d)@ == insert_all(old(d)@, self@, dest@, pos),
    {
        let ghost d0 = *d;
        let mut i: usize = 0;
        assert(self@.take(0) =~= Seq::<usize>::empty());
        while i < self.nodes.len()
            invariant
                d.wf(),
                all_valid(&d0, self@),
                all_valid(&d0, dest@),
                d.nodes@.len() == d0.nodes@.len(),
                same_setup(d, &d0),
                i <= self@.len(),
                d@ == insert_all(d0@, self@.take(i as int), dest@, pos),
            decreases self.nodes.len() - i,
        {
            let t = self.nodes[i];
            assert(self@.take(i + 1).drop_last() =~= self@.take(i as int));
            assert(d0.valid(self@[i as int] as int));
            let ghost start = d@;
            let ghost rev = dest@.reverse();
            let mut j: usize = 0;
            assert(rev.take(0) =~= Seq::<usize>::empty());
            while j < dest.nodes.len()
                invariant
                    d.wf(),
                    all_valid(&d0, dest@),
                    d.nodes@.len() == d0.nodes@.len(),
                    same_setup(d, &d0),
                    d0.valid(t as int),
                    rev == dest@.reverse(),
                    j <= dest@.len(),
                    d@ == insert_each(start, t as int, rev.take(j as int), pos),
                decreases dest.nodes.len() - j,
            {
                let x = dest.nodes[dest.nodes.len() - 1 - j];
                assert(rev.take(j + 1).drop_last() =~= rev.take(j as int));
                assert(rev[j as int] == x);
                assert(d0.valid(dest@[dest@.len() - 1 - j] as int));
                d.insert_adjacent(t, pos, x);
                assert(d.nodes@.len() == d@.len());
                j += 1;
            }
            assert(rev.take(j as int) =~= rev);
            assert(d.nodes@.len() == d@.len());
            i += 1;
        }
        assert(self@.take(i as int) =~= self@);
    }

    /// Appends the nodes of `elements` to each element in turn (see
    /// `insert_all`).
    pub fn append(&self, d: &mut Document, elements: &Elements)
        requires
            old(d).wf(),
            all_valid(old(d), self@),
            all_valid(old(d), elements@),
        ensures
            final(d).wf(),
            same_setup(final(d), old(d)),
            final(d)@ == insert_all(old(d)@, self@, elements@, InsertPosition::BeforeEnd),
    {
        self.insert(d, elements, InsertPosition::BeforeEnd)
    }

    /// Appends the elements to each element of `elements`.
    pub fn append_to(&self, d: &mut Document, elements: &Elements)
        requires
            old(d).wf(),
            all_valid(old(d), self@),
            all_valid(old(d), elements@),
        ensures
            final(d).wf(),
            same_setup(final(d), old(d)),
            final(d)@ == insert_all(old(d)@, elements@, self@, InsertPosition::BeforeEnd),
    {
        elements.insert(d, self, InsertPosition::BeforeEnd)
    }

    /// Puts the nodes of `elements` first in each element in turn.
    pub fn prepend(&self, d: &mut Document, elements: &Elements)
        requires
            old(d).wf(),
            all_valid(old(d), self@),
            all_valid(old(d), elements@),
        ensures
            final(d).wf(),
            same_setup(final(d), old(d)),
            final(d)@ == insert_all(old(d)@, self@, elements@, InsertPosition::AfterBegin),
    {
        self.insert(d, elements, InsertPosition::AfterBegin)
    }

    /// Puts the elements first in each element of `elements`.
    pub fn prepend_to(&self, d: &mut Document, elements: &Elements)
        requires
            old(d).wf(),
            all_valid(old(d), self@),
            all_valid(old(d), elements@),
        ensures
            final(d).wf(),
            same_setup(final(d), old(d)),
            final(d)@ == insert_all(old(d)@, elements@, self@, InsertPosition::AfterBegin),
    {
        elements.insert(d, self, InsertPosition::AfterBegin)
    }

    /// Puts the nodes of `elements` before each element in turn.
    pub fn before(&self, d: &mut Document, elements: &Elements)
        requires
            old(d).wf(),
            all_valid(old(d), self@),
            all_valid(old(d), elements@),
        ensures
            final(d).wf(),
            same_setup(final(d), old(d)),
            final(d)@ == insert_all(old(d)@, self@, elements@, InsertPosition::BeforeBegin),
    {
        self.insert(d, elements, InsertPosition::BeforeBegin)
    }

    /// Puts the elements before each element of `elements`.
    pub fn insert_before(&self, d: &mut Document, elements: &Elements)
        requires
            old(d).wf(),
            all_valid(old(d), self@),
            all_valid(old(d), elements@),
        ensures
            final(d).wf(),
            same_setup(final(d), old(d)),
            final(d)@ == insert_all(old(d)@, elements@, self@, InsertPosition::BeforeBegin),
    {
        elements.insert(d, self, InsertPosition::BeforeBegin)
    }

    /// Puts the nodes of `elements` after each element in turn.
    pub fn after(&self, d: &mut Document, elements: &Elements)
        requires
            old(d).wf(),
            all_valid(old(d), self@),
            all_valid(old(d), elements@),
        ensures
            final(d).wf(),
            same_setup(final(d), old(d)),
            final(d)@ == insert_all(old(d)@, self@, elements@, InsertPosition::AfterEnd),
    {
        self.insert(d, elements, InsertPosition::AfterEnd)
    }

    /// Puts the elements after each element of `elements`.
    pub fn insert_after(&self, d: &mut Document, elements: &Elements)
        requires
            old(d).wf(),
            all_valid(old(d), self@),
            all_valid(old(d), elements@),
        ensures
            final(d).wf(),
            same_setup(final(d), old(d)),
            final(d)@ == insert_all(old(d)@, elements@, self@, InsertPosition::AfterEnd),
    {
        elements.insert(d, self, InsertPosition::AfterEnd)
    }

    /// Replaces each element in turn by the nodes of `elements`, from the
    /// last to the first (see `replace_all`); each element's place in the
    /// set goes to the node that replaced it last.
    pub fn replace_with(&mut self, d: &mut Document, elements: &Elements)
        requires
            old(d).wf(),
            all_valid(old(d), old(self)@),
            all_valid(old(d), elements@),
        ensures
            final(d).wf(),
            same_setup(final(d), old(d)),
            (final(d)@, final(self)@) == replace_all(old(d)@, old(self)@, elements@),
            all_valid(final(d), final(self)@),
    {
        let ghost d0 = *d;
        let ghost e0 = self@;
        let n = self.nodes.len();
        let mut i: usize = 0;
        assert(e0.take(0) =~= Seq::<usize>::empty());
        while i < n
            invariant
                d.wf(),
                n == e0.len() == self@.len(),
                all_valid(&d0, e0),
                all_valid(&d0, elements@),
                all_valid(d, self@),
                d.nodes@.len() == d0.nodes@.len(),
                same_setup(d, &d0),
                i <= n,
                forall|k: int| i <= k < n ==> self@[k] == e0[k],
                (d@, self@.take(i as int)) == replace_all(d0@, e0.take(i as int), elements@),
            decreases n - i,
        {
            let t0 = self.nodes[i];
            assert(e0.take(i + 1).drop_last() =~= e0.take(i as int));
            assert(e0.take(i + 1).last() == t0);
            let ghost hs = self@.take(i as int);
            let ghost start = d@;
            let ghost rev = elements@.reverse();
            let mut t = t0;
            let mut j: usize = 0;
            assert(rev.take(0) =~= Seq::<usize>::empty());
            while j < elements.nodes.len()
                invariant
                    d.wf(),
                    all_valid(&d0, elements@),
                    d.nodes@.len() == d0.nodes@.len(),
                    same_setup(d, &d0),
                    d.valid(t as int),
                    rev == elements@.reverse(),
                    j <= elements@.len(),
                    (d@, t) == replace_each(start, t0, rev.take(j as int)),
                decreases elements.nodes.len() - j,
            {
                let x = elements.nodes[elements.nodes.len() - 1 - j];
                assert(rev.take(j + 1).drop_last() =~= rev.take(j as int));
                assert(rev[j as int] == x);
                assert(d0.valid(elements@[elements@.len() - 1 - j] as int));
                t = d.replace_node(t, x);
                assert(d.nodes@.len() == d@.len());
                j += 1;
            }
            assert(rev.take(j as int) =~= rev);
            self.nodes.set(i, t);
            assert(self@.take(i + 1) =~= hs.push(t));
            assert(d.nodes@.len() == d@.len());
            i += 1;
        }
        assert(e0.take(i as int) =~= e0);
        assert(self@.take(i as int) =~= self@);
    }
}

} // verus!
