//! The text nodes under elements, and changes to the text of text nodes.
use crate::chars::{lower_chars, spec_lower_seq, str_chars};
use crate::dom::{opt_chars, Document, NodeKind, NodeV};
use crate::elements::{all_valid, Elements};
use crate::html::{is_content_tag, spec_content_tag};
use crate::mutate::{detach_all, same_setup};
use vstd::prelude::*;

verus! {

/// A list of text nodes of a document (text nodes, and elements whose
/// content is raw text), by their positions.
pub struct Texts {
    pub nodes: Vec<usize>,
}

impl View for Texts {
    type V = Seq<usize>;

    open spec fn view(&self) -> Seq<usize> {
        self.nodes@
    }
}

/// The element holds raw text (see `spec_content_tag`), its lowercase name
/// taken.
pub open spec fn raw_text_tag(d: &Document, x: int) -> bool {
    spec_content_tag(d.spec_tag_names(x))
}

/// The text nodes found among the child nodes `cs` at depth `depth`: each
/// text node, each element holding raw text, and those under the other
/// elements while the next depth is below `limit`; `fuel` bounds the walk.
pub open spec fn texts_among(d: &Document, cs: Seq<usize>, depth: nat, limit: nat, fuel: nat) -> Seq<usize>
    decreases fuel, cs.len(),
{
    if cs.len() == 0 {
        Seq::empty()
    } else {
        let c = cs.last() as int;
        let before = texts_among(d, cs.drop_last(), depth, limit, fuel);
        before + if d.kind_of(c) == NodeKind::Text || d.kind_of(c) == NodeKind::Spaces {
            seq![c as usize]
        } else if d.kind_of(c) == NodeKind::Tag {
            if raw_text_tag(d, c) {
                seq![c as usize]
            } else if depth + 1 < limit && fuel > 0 {
                texts_among(d, d@[c].children, depth + 1, limit, (fuel - 1) as nat)
            } else {
                Seq::empty()
            }
        } else {
            Seq::empty()
        }
    }
}

/// The text nodes of node `x` down to `limit` levels (no limit for 0): those
/// among its children, or `x` itself where it has none and holds raw text.
pub open spec fn texts_of(d: &Document, x: int, limit: nat) -> Seq<usize> {
    let lim = if limit == 0 {
        usize::MAX as nat
    } else {
        limit
    };
    if d@[x].children.len() > 0 {
        texts_among(d, d@[x].children, 0, lim, d.fuel())
    } else if raw_text_tag(d, x) {
        seq![x as usize]
    } else {
        Seq::empty()
    }
}

/// The text nodes of each node of `e`, joined in order.
pub open spec fn texts_all(d: &Document, e: Seq<usize>, limit: nat) -> Seq<usize>
    decreases e.len(),
{
    if e.len() == 0 {
        Seq::empty()
    } else {
        texts_all(d, e.drop_last(), limit) + texts_of(d, e.last() as int, limit)
    }
}

/// See `texts_among`.
fn texts_among_exec(d: &Document, cs: &Vec<usize>, depth: usize, limit: usize, fuel: usize) -> (r: Vec<usize>)
    requires
        d.wf(),
        limit >= 1,
        forall|k: int| 0 <= k < cs@.len() ==> d.valid(#[trigger] cs@[k] as int),
    ensures
        r@ == texts_among(d, cs@, depth as nat, limit as nat, fuel as nat),
        all_valid(d, r@),
    decreases fuel, cs@.len(),
{
    let mut r: Vec<usize> = Vec::new();
    let mut i: usize = 0;
    assert(cs@.take(0) =~= Seq::<usize>::empty());
    while i < cs.len()
        invariant
            d.wf(),
            forall|k: int| 0 <= k < cs@.len() ==> d.valid(#[trigger] cs@[k] as int),
            limit >= 1,
            i <= cs@.len(),
            r@ == texts_among(d, cs@.take(i as int), depth as nat, limit as nat, fuel as nat),
            all_valid(d, r@),
        decreases cs.len() - i,
    {
        let c = cs[i];
        assert(cs@.take(i + 1).drop_last() =~= cs@.take(i as int));
        assert(cs@.take(i + 1).last() == c);
        assert(d.valid(cs@[i as int] as int));
        assert(d@[c as int] == d.nodes@[c as int]@);
        let k = d.nodes[c].kind;
        let ghost before = r@;
        if k == NodeKind::Text || k == NodeKind::Spaces {
            r.push(c);
        } else if k == NodeKind::Tag {
            let name = d.tag_names(c);
            if is_content_tag(name.as_slice()) {
                r.push(c);
            } else if depth < limit - 1 && fuel > 0 {
                let kids = crate::elements::copy_ids(&d.nodes[c].children);
                assert forall|j: int| 0 <= j < kids@.len() implies d.valid(#[trigger] kids@[j] as int) by {
                    assert(d.nodes@[c as int].children@[j] == kids@[j]);
                }
                let mut more = texts_among_exec(d, &kids, depth + 1, limit, fuel - 1);
                r.append(&mut more);
            }
        }
        assert(r@ =~= texts_among(d, cs@.take(i + 1), depth as nat, limit as nat, fuel as nat));
        i += 1;
    }
    assert(cs@.take(i as int) =~= cs@);
    r
}

impl Document {
    /// The text nodes of node `x` (see `texts_of`).
    pub fn texts(&self, x: usize, limit_depth: usize) -> (r: Vec<usize>)
        requires
            self.wf(),
            self.valid(x as int),
        ensures
            r@ == texts_of(self, x as int, limit_depth as nat),
            all_valid(self, r@),
    {
        let lim = if limit_depth == 0 {
            usize::MAX
        } else {
            limit_depth
        };
        assert(self@[x as int] == self.nodes@[x as int]@);
        if self.nodes[x].children.len() > 0 {
            let kids = crate::elements::copy_ids(&self.nodes[x].children);
            assert forall|j: int| 0 <= j < kids@.len() implies self.valid(#[trigger] kids@[j] as int) by {
                assert(self.nodes@[x as int].children@[j] == kids@[j]);
            }
            texts_among_exec(self, &kids, 0, lim, self.nodes.len())
        } else {
            let name = self.tag_names(x);
            if is_content_tag(name.as_slice()) {
                vec![x]
            } else {
                Vec::new()
            }
        }
    }

    /// Adds `content` at the end of the text of node `x`; the text is the
    /// content alone where the node had none.
    pub fn append_text(&mut self, x: usize, content: &str)
        requires
            old(self).wf(),
            old(self).valid(x as int),
        ensures
            final(self).wf(),
            same_setup(final(self), old(self)),
            final(self)@ == old(self)@.update(
                x as int,
                NodeV {
                    content: Some(
                        match old(self)@[x as int].content {
                            Some(c) => c + content@,
                            None => content@,
                        },
                    ),
                    ..old(self)@[x as int]
                },
            ),
    {
        assert(self@[x as int] == self.nodes@[x as int]@);
        let mut v = match &self.nodes[x].content {
            Some(c) => crate::chars::copy_chars(c.as_slice()),
            None => Vec::new(),
        };
        let mut add = str_chars(content);
        v.append(&mut add);
        self.set_content(x, Some(v));
    }

    /// Puts `content` before the text of node `x`; the text is the content
    /// alone where the node had none.
    pub fn prepend_text(&mut self, x: usize, content: &str)
        requires
            old(self).wf(),
            old(self).valid(x as int),
        ensures
            final(self).wf(),
            same_setup(final(self), old(self)),
            final(self)@ == old(self)@.update(
                x as int,
                NodeV {
                    content: Some(
                        match old(self)@[x as int].content {
                            Some(c) => content@ + c,
                            None => content@,
                        },
                    ),
                    ..old(self)@[x as int]
                },
            ),
    {
        assert(self@[x as int] == self.nodes@[x as int]@);
        let mut v = str_chars(content);
        match &self.nodes[x].content {
            Some(c) => {
                let mut rest = crate::chars::copy_chars(c.as_slice());
                v.append(&mut rest);
            },
            None => {},
        }
        self.set_content(x, Some(v));
    }
}

impl Elements {
    /// The text nodes of each element, joined in order (see `texts_of`).
    pub fn texts(&self, d: &Document, limit_depth: usize) -> (r: Texts)
        requires
            d.wf(),
            all_valid(d, self@),
        ensures
            r@ == texts_all(d, self@, limit_depth as nat),
            all_valid(d, r@),
    {
        let mut r: Vec<usize> = Vec::new();
        let mut i: usize = 0;
        assert(self@.take(0) =~= Seq::<usize>::empty());
        while i < self.nodes.len()
            invariant
                d.wf(),
                all_valid(d, self@),
                all_valid(d, r@),
                i <= self@.len(),
                r@ == texts_all(d, self@.take(i as int), limit_depth as nat),
            decreases self.nodes.len() - i,
        {
            assert(self@.take(i + 1).drop_last() =~= self@.take(i as int));
            assert(d.valid(self@[i as int] as int));
            let mut t = d.texts(self.nodes[i], limit_depth);
            let ghost before = r@;
            r.append(&mut t);
            assert(r@ =~= texts_all(d, self@.take(i + 1), limit_depth as nat));
            i += 1;
        }
        assert(self@.take(i as int) =~= self@);
        Texts { nodes: r }
    }
}

impl Texts {
    /// No text nodes, with room for `cap`.
    pub fn with_capacity(cap: usize) -> (r: Texts)
        ensures
            r@.len() == 0,
    {
        Texts { nodes: Vec::with_capacity(cap) }
    }

    /// The number of text nodes.
    pub fn length(&self) -> (r: usize)
        ensures
            r == self@.len(),
    {
        self.nodes.len()
    }

    /// There is no text node.
    pub fn is_empty(&self) -> (r: bool)
        ensures
            r == (self@.len() == 0),
    {
        self.nodes.len() == 0
    }

    /// The text nodes.
    pub fn get_ref(&self) -> (r: &Vec<usize>)
        ensures
            r@ == self@,
    {
        &self.nodes
    }

    /// The text nodes, to change in place.
    pub fn get_mut_ref(&mut self) -> (r: &mut Vec<usize>)
        ensures
            *r == old(self).nodes,
            *final(self) == (Texts { nodes: *final(r) }),
    {
        &mut self.nodes
    }

    /// Takes each text node in turn out of its parent.
    pub fn remove(&self, d: &mut Document)
        requires
            old(d).wf(),
            all_valid(old(d), self@),
        ensures
            final(d).wf(),
            same_setup(final(d), old(d)),
            final(d)@ == detach_all(old(d)@, self@),
    {
        let e = Elements { nodes: crate::elements::copy_ids(&self.nodes) };
        e.remove(d)
    }
}

} // verus!
