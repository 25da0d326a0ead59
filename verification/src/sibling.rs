//! The neighbours of one node: its child nodes and its element siblings.
use crate::dom::{Document, NodeKind};
use vstd::prelude::*;

verus! {

impl Document {
    /// The elements among the nodes `cs` from position `from` up to `to`,
    /// in order.
    pub open spec fn elems_between(&self, cs: Seq<usize>, from: int, to: int) -> Seq<usize> {
        cs.subrange(from, to).filter(|c: usize| self.kind_of(c as int) == NodeKind::Tag)
    }

    /// The element siblings before node `i`, in order; none without a
    /// parent.
    pub open spec fn prev_elems(&self, i: int) -> Seq<usize> {
        match self@[i].parent {
            Some(p) => self.elems_between(self@[p as int].children, 0, self@[i].index as int),
            None => Seq::empty(),
        }
    }

    /// The element siblings after node `i`, in order; none without a
    /// parent.
    pub open spec fn next_elems(&self, i: int) -> Seq<usize> {
        match self@[i].parent {
            Some(p) => self.elems_between(
                self@[p as int].children,
                self@[i].index + 1,
                self@[p as int].children.len() as int,
            ),
            None => Seq::empty(),
        }
    }

    /// The elements among the children of `p` from position `from` up to
    /// `to`.
    fn elems_in(&self, p: usize, from: usize, to: usize) -> (r: Vec<usize>)
        requires
            self.wf(),
            self.valid(p as int),
            from <= to <= self@[p as int].children.len(),
        ensures
            r@ == self.elems_between(self@[p as int].children, from as int, to as int),
    {
        let ghost cs = self.nodes@[p as int].children@;
        let ghost f = |c: usize| self.kind_of(c as int) == NodeKind::Tag;
        let mut r: Vec<usize> = Vec::new();
        let mut k: usize = from;
        assert(cs.subrange(from as int, from as int).filter(f) =~= Seq::<usize>::empty()) by {
            reveal(Seq::filter);
        }
        while k < to
            invariant
                self.wf(),
                self.valid(p as int),
                cs == self.nodes@[p as int].children@,
                cs == self@[p as int].children,
                f == (|c: usize| self.kind_of(c as int) == NodeKind::Tag),
                from <= k <= to <= cs.len(),
                r@ == cs.subrange(from as int, k as int).filter(f),
            decreases to - k,
        {
            let c = self.nodes[p].children[k];
            assert(self.valid(c as int));
            proof {
                assert(cs.subrange(from as int, k + 1).drop_last() =~= cs.subrange(from as int, k as int));
                reveal(Seq::filter);
            }
            if self.nodes[c].kind == NodeKind::Tag {
                r.push(c);
            }
            k += 1;
        }
        r
    }

    /// All the child nodes of node `i`, in order.
    pub fn child_nodes(&self, i: usize) -> (r: Vec<usize>)
        requires
            self.valid(i as int),
        ensures
            r@ == self@[i as int].children,
    {
        crate::elements::copy_ids(&self.nodes[i].children)
    }

    /// The element siblings before node `i`, in order.
    pub fn previous_element_siblings(&self, i: usize) -> (r: Vec<usize>)
        requires
            self.wf(),
            self.valid(i as int),
        ensures
            r@ == self.prev_elems(i as int),
    {
        match self.nodes[i].parent {
            Some(p) => self.elems_in(p, 0, self.nodes[i].index),
            None => Vec::new(),
        }
    }

    /// The element siblings after node `i`, in order.
    pub fn next_element_siblings(&self, i: usize) -> (r: Vec<usize>)
        requires
            self.wf(),
            self.valid(i as int),
        ensures
            r@ == self.next_elems(i as int),
    {
        match self.nodes[i].parent {
            Some(p) => {
                assert(self.nodes@[i as int].parent is Some);
                assert(self.nodes@[i as int].index < self.nodes@[p as int].children@.len());
                let n = self.nodes[p].children.len();
                self.elems_in(p, self.nodes[i].index + 1, n)
            },
            None => Vec::new(),
        }
    }

    /// The nearest element sibling before node `i`.
    pub fn previous_element_sibling(&self, i: usize) -> (r: Option<usize>)
        requires
            self.wf(),
            self.valid(i as int),
        ensures
            r == if self.prev_elems(i as int).len() == 0 {
                None
            } else {
                Some(self.prev_elems(i as int).last())
            },
    {
        let v = self.previous_element_siblings(i);
        if v.len() == 0 {
            None
        } else {
            Some(v[v.len() - 1])
        }
    }

    /// The nearest element sibling after node `i`.
    pub fn next_element_sibling(&self, i: usize) -> (r: Option<usize>)
        requires
            self.wf(),
            self.valid(i as int),
        ensures
            r == if self.next_elems(i as int).len() == 0 {
                None
            } else {
                Some(self.next_elems(i as int)[0])
            },
    {
        let v = self.next_element_siblings(i);
        if v.len() == 0 {
            None
        } else {
            Some(v[0])
        }
    }

    /// The element siblings of node `i`, those before it and then those
    /// after it, in order.
    pub fn element_siblings(&self, i: usize) -> (r: Vec<usize>)
        requires
            self.wf(),
            self.valid(i as int),
        ensures
            r@ == self.prev_elems(i as int) + self.next_elems(i as int),
    {
        let mut r = self.previous_element_siblings(i);
        let mut after = self.next_element_siblings(i);
        r.append(&mut after);
        r
    }
}

} // verus!
