//! Reading the parser's tree into a document, and making parser nodes of a
//! document's nodes for the renderer.
use crate::chars::{lower_chars, spec_lower_seq, str_chars};
use crate::dom::{map_find, nodes_linked, Attr, AttrV, Document, NodeData, NodeKind, NodeV};
use crate::html::{
    build, new_node, parse_root, read_attrs, read_children, read_content, read_end_tag, read_flags, read_kind,
    read_name, set_children, set_end_tag, set_meta, BuiltNode, ParseOptions, ReadNode, RenderOptions, count_tags,
    complete, rendered, RTree, fresh_tree, push_attr, parses, parsed, PNode,
};
use crate::copy::{fresh_from, lemma_rtree_frame, unlinked};
use crate::mutate::{can_adopt, distinct, same_setup};
use vstd::prelude::*;

verus! {

pub open spec fn map_view(m: Seq<(Vec<char>, usize)>) -> Seq<(Seq<char>, usize)> {
    m.map_values(|e: (Vec<char>, usize)| (e.0@, e.1))
}

pub open spec fn attrs_view(a: Seq<Attr>) -> Seq<AttrV> {
    a.map_values(|x: Attr| x@)
}

/// The attribute map of a list of attributes: each lowercase key with the
/// position of its first attribute, in the order the keys first appear.
pub open spec fn attr_map_of(attrs: Seq<AttrV>) -> Seq<(Seq<char>, usize)>
    decreases attrs.len(),
{
    if attrs.len() == 0 {
        Seq::empty()
    } else {
        let m = attr_map_of(attrs.drop_last());
        match attrs.last().key {
            Some(k) => if map_find(m, spec_lower_seq(k)) is Some {
                m
            } else {
                m.push((spec_lower_seq(k), (attrs.len() - 1) as usize))
            },
            None => m,
        }
    }
}

/// The position recorded for `key` (see `map_find`).
pub fn map_lookup(m: &Vec<(Vec<char>, usize)>, key: &[char]) -> (r: Option<usize>)
    ensures
        r == map_find(map_view(m@), key@),
        r matches Some(p) ==> exists|k: int| 0 <= k < m@.len() && m@[k].1 == p,
{
    let ghost mv = map_view(m@);
    let n = m.len();
    let mut k: usize = 0;
    assert(mv.skip(0) =~= mv);
    while k < n
        invariant
            mv == map_view(m@),
            n == m@.len(),
            k <= n,
            map_find(mv, key@) == map_find(mv.skip(k as int), key@),
        decreases n - k,
    {
        assert(mv.skip(k as int)[0] == mv[k as int]);
        if crate::chars::chars_eq(m[k].0.as_slice(), key) {
            return Some(m[k].1);
        }
        assert(mv.skip(k as int).drop_first() =~= mv.skip(k + 1));
        k += 1;
    }
    None
}

/// The attribute map of `attrs` (see `attr_map_of`).
pub fn build_attr_map(attrs: &Vec<Attr>) -> (r: Vec<(Vec<char>, usize)>)
    ensures
        map_view(r@) == attr_map_of(attrs_view(attrs@)),
        forall|k: int| 0 <= k < r@.len() ==> #[trigger] r@[k].1 < attrs@.len(),
{
    let mut r: Vec<(Vec<char>, usize)> = Vec::new();
    let mut i: usize = 0;
    assert(attrs_view(attrs@).take(0) =~= Seq::<AttrV>::empty());
    assert(map_view(r@) =~= Seq::<(Seq<char>, usize)>::empty());
    while i < attrs.len()
        invariant
            i <= attrs@.len(),
            map_view(r@) == attr_map_of(attrs_view(attrs@).take(i as int)),
            forall|k: int| 0 <= k < r@.len() ==> #[trigger] r@[k].1 < i,
        decreases attrs.len() - i,
    {
        let ghost av = attrs_view(attrs@);
        proof {
            assert(av.take(i + 1).drop_last() =~= av.take(i as int));
            assert(av.take(i + 1).last() == attrs@[i as int]@);
        }
        match &attrs[i].key {
            Some(k) => {
                let lk = lower_chars(k.as_slice());
                if map_lookup(&r, lk.as_slice()).is_none() {
                    let ghost before = r@;
                    r.push((lk, i));
                    assert(map_view(r@) =~= map_view(before).push((lk@, i)));
                }
            },
            None => {},
        }
        i += 1;
    }
    assert(attrs_view(attrs@).take(i as int) =~= attrs_view(attrs@));
    r
}

/// The node data of a parsed node; `None` for a text without its text.
fn read_node(h: &ReadNode, kind: NodeKind, parent: Option<usize>, index: usize) -> (r: Option<NodeData>)
    ensures
        r matches Some(d) ==> {
            &&& d@ == (NodeV { parent, index, ..read_view(h@, kind) })
            &&& d.kind == kind
            &&& d.parent == parent
            &&& d.index == index
            &&& d.children@.len() == 0
            &&& (forall|k: int| 0 <= k < d.attr_map@.len() ==> #[trigger] d.attr_map@[k].1 < d.attrs@.len())
            &&& ((kind == NodeKind::Text || kind == NodeKind::Spaces) ==> d.content is Some)
        },
        !((kind == NodeKind::Text || kind == NodeKind::Spaces) && h@.content is None) ==> r is Some,
        r is None ==> (kind == NodeKind::Text || kind == NodeKind::Spaces) && h@.content is None,
{
    let name = read_name(h);
    let attrs = read_attrs(h);
    let attr_map = build_attr_map(&attrs);
    let content = read_content(h);
    if (kind == NodeKind::Text || kind == NodeKind::Spaces) && content.is_none() {
        return None;
    }
    let (self_closed, auto_fix) = read_flags(h);
    let end_tag = read_end_tag(h);
    let d = NodeData { kind, name, attrs, attr_map, content, self_closed, auto_fix, end_tag, parent, index, children: Vec::new() };
    assert(d@ =~= (NodeV { parent, index, ..read_view(h@, kind) }));
    Some(d)
}

/// The children that are read of a parsed node: those with a kind (an end
/// tag has none), in order.
pub open spec fn read_kept(cs: Seq<PNode>) -> Seq<PNode>
    decreases cs.len(),
{
    if cs.len() == 0 {
        Seq::empty()
    } else {
        let p = read_kept(cs.subrange(0, cs.len() - 1));
        if cs[cs.len() - 1].kind is Some {
            p.push(cs[cs.len() - 1])
        } else {
            p
        }
    }
}

/// The parsed node can be read, with its kept descendants: it has a kind,
/// and a text or spaces node has its text.
pub open spec fn pt_ok(t: PNode) -> bool
    decreases t,
{
    &&& t.kind is Some
    &&& (t.kind == Some(NodeKind::Text) || t.kind == Some(NodeKind::Spaces)) ==> t.content is Some
    &&& pts_ok(t.children)
}

/// Each kept node of the list can be read (see `pt_ok`).
pub open spec fn pts_ok(cs: Seq<PNode>) -> bool
    decreases cs,
{
    if cs.len() == 0 {
        true
    } else {
        &&& pts_ok(cs.subrange(0, cs.len() - 1))
        &&& cs[cs.len() - 1].kind is Some ==> pt_ok(cs[cs.len() - 1])
    }
}

/// The number of nodes read of a parsed node: itself and its kept
/// descendants.
pub open spec fn pt_size(t: PNode) -> nat
    decreases t,
{
    1 + pts_size(t.children)
}

/// The number of nodes read of the kept nodes of the list and their kept
/// descendants.
pub open spec fn pts_size(cs: Seq<PNode>) -> nat
    decreases cs,
{
    if cs.len() == 0 {
        0
    } else {
        pts_size(cs.subrange(0, cs.len() - 1)) + if cs[cs.len() - 1].kind is Some {
            pt_size(cs[cs.len() - 1])
        } else {
            0
        }
    }
}

/// The tree that the renderer is given for a node read of the parsed node
/// `t` (see `Document::rtree`), down to `fuel` levels.
pub open spec fn pt_rtree(t: PNode, fuel: nat) -> RTree
    decreases fuel,
{
    let kind = t.kind.unwrap();
    let meta = kind == NodeKind::Tag || kind == NodeKind::DocType;
    RTree {
        kind,
        has_meta: meta,
        name: if meta {
            t.name
        } else {
            Seq::empty()
        },
        attrs: if meta {
            t.attrs
        } else {
            Seq::empty()
        },
        self_closed: meta && t.self_closed,
        auto_fix: meta && t.auto_fix,
        content: t.content,
        end_tag: t.end_tag,
        children: if fuel == 0 {
            Seq::empty()
        } else {
            let ks = read_kept(t.children);
            Seq::new(ks.len(), |k: int| pt_rtree(ks[k], (fuel - 1) as nat))
        },
    }
}

/// One more node of the list: what it adds to `kept`, `pts_ok` and
/// `pts_size`.
proof fn lemma_take_step(cs: Seq<PNode>, k: int)
    requires
        0 <= k < cs.len(),
    ensures
        read_kept(cs.take(k + 1)) == if cs[k].kind is Some {
            read_kept(cs.take(k)).push(cs[k])
        } else {
            read_kept(cs.take(k))
        },
        pts_ok(cs.take(k + 1)) == (pts_ok(cs.take(k)) && (cs[k].kind is Some ==> pt_ok(cs[k]))),
        pts_size(cs.take(k + 1)) == pts_size(cs.take(k)) + if cs[k].kind is Some {
            pt_size(cs[k])
        } else {
            0
        },
{
    let s = cs.take(k + 1);
    assert(s.subrange(0, s.len() - 1) =~= cs.take(k));
    assert(s[s.len() - 1] == cs[k]);
}

/// A prefix of a list that can be read can be read, and has no more nodes.
proof fn lemma_take_le(cs: Seq<PNode>, k: int)
    requires
        0 <= k <= cs.len(),
    ensures
        pts_ok(cs) ==> pts_ok(cs.take(k)),
        pts_size(cs.take(k)) <= pts_size(cs),
    decreases cs.len() - k,
{
    if k == cs.len() {
        assert(cs.take(k) =~= cs);
    } else {
        lemma_take_step(cs, k);
        lemma_take_le(cs, k + 1);
    }
}

/// A kept node of a list that can be read can be read, and its nodes come
/// after those of the nodes before it.
proof fn lemma_elem(cs: Seq<PNode>, k: int)
    requires
        0 <= k < cs.len(),
        cs[k].kind is Some,
    ensures
        pts_ok(cs) ==> pt_ok(cs[k]),
        pts_size(cs.take(k)) + pt_size(cs[k]) <= pts_size(cs),
{
    lemma_take_step(cs, k);
    lemma_take_le(cs, k + 1);
}

/// The parsed node `h` and its kept descendants can be read (see `pt_ok`)
/// and are at most `room` nodes: their number.
pub(crate) fn check_tree(h: &ReadNode, room: usize) -> (r: Option<usize>)
    ensures
        r matches Some(s) ==> pt_ok(h@) && s == pt_size(h@) && s <= room,
        r is None ==> !pt_ok(h@) || pt_size(h@) > room,
    decreases h@, 1nat,
{
    let kind = match read_kind(h) {
        Some(k) => k,
        None => {
            return None;
        },
    };
    if kind == NodeKind::Text || kind == NodeKind::Spaces {
        if read_content(h).is_none() {
            return None;
        }
    }
    if room == 0 {
        return None;
    }
    match check_kids(h, room - 1) {
        Some(s) => Some(s + 1),
        None => None,
    }
}

/// The kept children of `h` and their kept descendants can be read and are
/// at most `room` nodes: their number.
pub(crate) fn check_kids(h: &ReadNode, room: usize) -> (r: Option<usize>)
    ensures
        r matches Some(s) ==> pts_ok(h@.children) && s == pts_size(h@.children) && s <= room,
        r is None ==> !pts_ok(h@.children) || pts_size(h@.children) > room,
    decreases h@, 0nat,
{
    let kids = read_children(h);
    let ghost cs = h@.children;
    let mut acc: usize = 0;
    let mut k: usize = 0;
    assert(cs.take(0) =~= Seq::<PNode>::empty());
    while k < kids.len()
        invariant
            cs == h@.children,
            kids@.len() == cs.len(),
            forall|j: int| 0 <= j < kids@.len() ==> (#[trigger] kids@[j])@ == cs[j],
            k <= kids@.len(),
            pts_ok(cs.take(k as int)),
            acc == pts_size(cs.take(k as int)),
            acc <= room,
        decreases kids@.len() - k,
    {
        proof {
            lemma_take_step(cs, k as int);
        }
        if read_kind(&kids[k]).is_some() {
            proof {
                lemma_elem(cs, k as int);
                assert(decreases_to!(h@ => h@.children));
                assert(decreases_to!(h@.children => h@.children[k as int]));
            }
            match check_tree(&kids[k], room - acc) {
                Some(s) => {
                    acc = acc + s;
                },
                None => {
                    return None;
                },
            }
        }
        k += 1;
    }
    assert(cs.take(k as int) =~= cs);
    Some(acc)
}

/// The node read of a parsed node (see `read_node`), without links.
pub open spec fn read_view(h: PNode, kind: NodeKind) -> NodeV {
    NodeV {
        kind,
        name: h.name,
        attrs: h.attrs,
        attr_map: attr_map_of(h.attrs),
        content: h.content,
        self_closed: h.self_closed,
        auto_fix: h.auto_fix,
        end_tag: h.end_tag,
        parent: None,
        index: 0,
        children: Seq::empty(),
    }
}

impl Document {
    /// Adds a node without links; its position.
    fn push_read(&mut self, d: NodeData) -> (r: usize)
        requires
            old(self).wf(),
            old(self).nodes@.len() + 1 < usize::MAX,
            d.parent is None,
            d.children@.len() == 0,
            forall|k: int| 0 <= k < d.attr_map@.len() ==> #[trigger] d.attr_map@[k].1 < d.attrs@.len(),
            (d.kind == NodeKind::Text || d.kind == NodeKind::Spaces) ==> d.content is Some,
        ensures
            final(self).wf(),
            same_setup(final(self), old(self)),
            final(self)@ == old(self)@.push(d@),
            r == old(self)@.len(),
    {
        proof {
            lemma_push_loose(self.nodes@, d);
        }
        let r = self.nodes.len();
        self.nodes.push(d);
        assert(self@ =~= old(self)@.push(d@));
        r
    }

    /// Reads the parsed node `h` and its kept descendants after the nodes of
    /// the document, `h` without a parent: its position, and the renderer
    /// is given the same tree for it as `pt_rtree` says of `h`.
    #[verifier::rlimit(40)]
    pub(crate) fn read_sub(&mut self, h: &ReadNode) -> (r: usize)
        requires
            old(self).wf(),
            pt_ok(h@),
            old(self)@.len() + pt_size(h@) < usize::MAX - 1,
        ensures
            final(self).wf(),
            same_setup(final(self), old(self)),
            r == old(self)@.len(),
            final(self)@.len() == old(self)@.len() + pt_size(h@),
            final(self)@.take(old(self)@.len() as int) == old(self)@,
            fresh_from(final(self), old(self)@.len() as int),
            final(self)@[r as int].parent is None,
            forall|f: nat| #[trigger] final(self).rtree(r as int, f) == pt_rtree(h@, f),
        decreases h@, 1nat,
    {
        let ghost d0 = *self;
        let kind = read_kind(h).unwrap();
        let d = read_node(h, kind, None, 0).unwrap();
        let c = self.push_read(d);
        let ghost mid = *self;
        assert(mid@.take(c as int) =~= d0@);
        let list = self.read_kids(h);
        let ghost before = *self;
        proof {
            assert(before@[c as int] == mid@[c as int]) by {
                assert(before@.take(mid@.len() as int)[c as int] == before@[c as int]);
            }
            assert(distinct(list@)) by {
                assert forall|a: int, b: int| 0 <= a < b < list@.len() implies list@[a] != list@[b] by {
                    assert(list@[a] < list@[b]);
                }
            }
            assert(can_adopt(self, c as int, list@));
        }
        self.set_children(c, &list);
        proof {
            let ns = before@;
            assert(ns[c as int].children =~= Seq::<usize>::empty());
            assert forall|j: int| c + 1 <= j < before@.len() implies #[trigger] unlinked(before@[j]) == unlinked(self@[j])
                && before@[j].children == self@[j].children by {}
            assert forall|j: int| 0 <= j < d0@.len() implies #[trigger] self@[j] == d0@[j] by {
                assert(before@.take(mid@.len() as int)[j] == before@[j]);
                assert(mid@.take(c as int)[j] == mid@[j]);
                assert(!list@.contains(j as usize)) by {
                    if list@.contains(j as usize) {
                        let t = choose|t: int| 0 <= t < list@.len() && list@[t] == j as usize;
                        assert(c < list@[t]);
                    }
                }
            }
            assert(self@.take(c as int) =~= d0@);
            assert forall|i: int, t: int|
                #![trigger self@[i].children[t]]
                c <= i < self@.len() && 0 <= t < self@[i].children.len() implies i < self@[i].children[t] < self@.len() by {
                if i == c {
                    assert(self@[i].children == list@);
                } else {
                    assert(before@[i].children == self@[i].children);
                }
            }
            assert forall|f: nat| #[trigger] self.rtree(c as int, f) == pt_rtree(h@, f) by {
                if f > 0 {
                    assert forall|k: int| 0 <= k < list@.len() implies self.rtree(#[trigger] list@[k] as int, (f - 1) as nat)
                        == pt_rtree(read_kept(h@.children)[k], (f - 1) as nat) by {
                        lemma_rtree_frame(&before, self, c + 1, list@[k] as int, (f - 1) as nat);
                    }
                    assert(self.rtree(c as int, f).children =~= pt_rtree(h@, f).children);
                } else {
                    assert(self.rtree(c as int, f).children =~= pt_rtree(h@, f).children);
                }
                assert(self.rtree(c as int, f) =~= pt_rtree(h@, f));
            }
        }
        c
    }

    /// Reads the kept children of the parsed node `h`, each with its kept
    /// descendants (see `read_sub`), after the nodes of the document: their
    /// positions, in order, each without a parent.
    #[verifier::rlimit(60)]
    pub(crate) fn read_kids(&mut self, h: &ReadNode) -> (r: Vec<usize>)
        requires
            old(self).wf(),
            pts_ok(h@.children),
            old(self)@.len() + pts_size(h@.children) < usize::MAX - 1,
        ensures
            final(self).wf(),
            same_setup(final(self), old(self)),
            final(self)@.len() == old(self)@.len() + pts_size(h@.children),
            final(self)@.take(old(self)@.len() as int) == old(self)@,
            fresh_from(final(self), old(self)@.len() as int),
            r@.len() == read_kept(h@.children).len(),
            forall|j: int|
                0 <= j < r@.len() ==> old(self)@.len() <= #[trigger] r@[j] < final(self)@.len() && final(self)@[r@[j] as int].parent
                    is None,
            forall|a: int, b: int| 0 <= a < b < r@.len() ==> r@[a] < r@[b],
            forall|j: int, f: nat|
                0 <= j < r@.len() ==> #[trigger] final(self).rtree(r@[j] as int, f) == pt_rtree(read_kept(h@.children)[j], f),
        decreases h@, 0nat,
    {
        let ghost d0 = *self;
        let ghost cs = h@.children;
        let kids = read_children(h);
        let mut list: Vec<usize> = Vec::new();
        let mut k: usize = 0;
        assert(cs.take(0) =~= Seq::<PNode>::empty());
        assert(self@.take(d0@.len() as int) =~= d0@);
        while k < kids.len()
            invariant
                d0 == *old(self),
                cs == h@.children,
                kids@.len() == cs.len(),
                forall|j: int| 0 <= j < kids@.len() ==> (#[trigger] kids@[j])@ == cs[j],
                pts_ok(cs),
                d0@.len() + pts_size(cs) < usize::MAX - 1,
                k <= kids@.len(),
                self.wf(),
                same_setup(self, &d0),
                self@.len() == d0@.len() + pts_size(cs.take(k as int)),
                self@.take(d0@.len() as int) == d0@,
                fresh_from(self, d0@.len() as int),
                list@.len() == read_kept(cs.take(k as int)).len(),
                forall|j: int| 0 <= j < list@.len() ==> d0@.len() <= #[trigger] list@[j] < self@.len(),
                forall|j: int| 0 <= j < list@.len() ==> self@[#[trigger] list@[j] as int].parent is None,
                forall|a: int, b: int| 0 <= a < b < list@.len() ==> list@[a] < list@[b],
                forall|j: int, f: nat|
                    0 <= j < list@.len() ==> #[trigger] self.rtree(list@[j] as int, f) == pt_rtree(
                        read_kept(cs.take(k as int))[j],
                        f,
                    ),
            decreases kids@.len() - k,
        {
            proof {
                lemma_take_step(cs, k as int);
                lemma_take_le(cs, k as int);
            }
            if read_kind(&kids[k]).is_some() {
                proof {
                    lemma_elem(cs, k as int);
                    assert(decreases_to!(h@ => h@.children));
                    assert(decreases_to!(h@.children => h@.children[k as int]));
                }
                let ghost before = *self;
                let c = self.read_sub(&kids[k]);
                proof {
                    assert(self@.take(d0@.len() as int) =~= d0@) by {
                        assert forall|j: int| 0 <= j < d0@.len() implies self@[j] == d0@[j] by {
                            assert(self@.take(before@.len() as int)[j] == self@[j]);
                            assert(before@.take(d0@.len() as int)[j] == before@[j]);
                        }
                    }
                    assert forall|j: int| d0@.len() <= j < before@.len() implies #[trigger] unlinked(before@[j]) == unlinked(
                        self@[j],
                    ) && before@[j].children == self@[j].children by {
                        assert(self@.take(before@.len() as int)[j] == self@[j]);
                    }
                    assert forall|j: int, f: nat| 0 <= j < list@.len() implies #[trigger] self.rtree(list@[j] as int, f)
                        == pt_rtree(read_kept(cs.take(k as int))[j], f) by {
                        lemma_rtree_frame(&before, self, d0@.len() as int, list@[j] as int, f);
                    }
                    assert forall|j: int| 0 <= j < list@.len() implies self@[#[trigger] list@[j] as int].parent is None by {
                        assert(self@.take(before@.len() as int)[list@[j] as int] == self@[list@[j] as int]);
                    }
                    assert forall|i: int, t: int|
                        #![trigger self@[i].children[t]]
                        d0@.len() <= i < self@.len() && 0 <= t < self@[i].children.len() implies i < self@[i].children[t]
                            < self@.len() by {
                        if i < before@.len() {
                            assert(self@.take(before@.len() as int)[i] == self@[i]);
                            assert(i < before@[i].children[t] < before@.len());
                        }
                    }
                }
                list.push(c);
                proof {
                    let kk = read_kept(cs.take(k + 1));
                    assert forall|j: int, f: nat| 0 <= j < list@.len() implies #[trigger] self.rtree(list@[j] as int, f)
                        == pt_rtree(kk[j], f) by {
                        if j < list@.len() - 1 {
                            assert(kk[j] == read_kept(cs.take(k as int))[j]);
                        } else {
                            assert(kk[j] == cs[k as int]);
                        }
                    }
                }
            }
            k += 1;
        }
        assert(cs.take(k as int) =~= cs);
        list
    }
}

/// What `nodes_linked` asks of a node added without links.
pub(crate) proof fn lemma_push_loose(o: Seq<NodeData>, nd: NodeData)
    requires
        nodes_linked(o),
        o.len() + 1 < usize::MAX,
        nd.parent is None,
        nd.children@.len() == 0,
        forall|k: int| 0 <= k < nd.attr_map@.len() ==> #[trigger] nd.attr_map@[k].1 < nd.attrs@.len(),
        (nd.kind == NodeKind::Text || nd.kind == NodeKind::Spaces) ==> nd.content is Some,
    ensures
        nodes_linked(o.push(nd)),
{
    let n = o.push(nd);
    let id = o.len() as int;
    assert forall|j: int, k: int|
        #![trigger n[j].children@[k]]
        0 <= j < n.len() && 0 <= k < n[j].children@.len() implies {
            let c = n[j].children@[k] as int;
            &&& 0 <= c < n.len()
            &&& n[c].parent == Some(j as usize)
            &&& n[c].index == k
        } by {
        assert(j < id);
        assert(o[j].children@[k] == n[j].children@[k]);
    }
    assert forall|j: int|
        #![trigger n[j].parent]
        0 <= j < n.len() && n[j].parent is Some implies {
            let p = n[j].parent.unwrap() as int;
            &&& 0 <= p < n.len()
            &&& n[j].index < n[p].children@.len()
            &&& n[p].children@[n[j].index as int] == j
            &&& p != j
        } by {
        assert(j < id);
        assert(o[j].parent == n[j].parent);
        let p = o[j].parent.unwrap() as int;
        assert(o[p].children@ == n[p].children@);
    }
    assert forall|j: int, k: int|
        #![trigger n[j].attr_map@[k]]
        0 <= j < n.len() && 0 <= k < n[j].attr_map@.len() implies n[j].attr_map@[k].1 < n[j].attrs@.len() by {
        if j < id {
            assert(o[j].attr_map@[k].1 < o[j].attrs@.len());
        }
    }
    assert forall|j: int|
        #![trigger n[j].kind]
        0 <= j < n.len() && (n[j].kind == NodeKind::Text || n[j].kind == NodeKind::Spaces) implies n[j].content
            is Some by {
        if j < id {
            assert(o[j].kind == n[j].kind);
        }
    }
}

/// The key names the id attribute (ascii case ignored).
fn is_id_key(k: &Vec<char>) -> (r: bool)
    ensures
        r == (spec_lower_seq(k@) == "id"@),
{
    let lk = lower_chars(k.as_slice());
    let id = str_chars("id");
    crate::chars::chars_eq(lk.as_slice(), id.as_slice())
}

/// The attribute has the key `id` (ascii case ignored) and the value `v`.
pub open spec fn attr_is_id(a: AttrV, v: Seq<char>) -> bool {
    match a.key {
        Some(k) => spec_lower_seq(k) == "id"@ && a.value == Some(v),
        None => false,
    }
}

/// The node has an attribute `id` whose value is `v` (the parser records
/// the id of any tag it reads, a doctype's too).
pub open spec fn node_has_id(n: NodeV, v: Seq<char>) -> bool {
    exists|a: int| 0 <= a < n.attrs.len() && attr_is_id(#[trigger] n.attrs[a], v)
}

/// The last node from position `lo` on with an attribute `id` of value `v`.
pub open spec fn last_with_id(ns: Seq<NodeV>, v: Seq<char>, lo: int) -> Option<usize>
    decreases ns.len() - lo,
{
    if lo < 0 || lo >= ns.len() {
        None
    } else {
        match last_with_id(ns, v, lo + 1) {
            Some(j) => Some(j),
            None => if node_has_id(ns[lo], v) {
                Some(lo as usize)
            } else {
                None
            },
        }
    }
}

/// A new entry for a key without one is found for that key only.
proof fn lemma_map_find_push_new(m: Seq<(Seq<char>, usize)>, k: Seq<char>, x: usize, key: Seq<char>)
    requires
        map_find(m, k) is None,
    ensures
        map_find(m.push((k, x)), key) == if key == k {
            Some(x)
        } else {
            map_find(m, key)
        },
    decreases m.len(),
{
    if m.len() > 0 {
        assert(m.push((k, x))[0] == m[0]);
        assert(m[0].0 != k);
        assert(m.push((k, x)).drop_first() =~= m.drop_first().push((k, x)));
        lemma_map_find_push_new(m.drop_first(), k, x, key);
    } else {
        let m1 = m.push((k, x));
        assert(m1[0] == (k, x));
        assert(m1.drop_first() =~= Seq::<(Seq<char>, usize)>::empty());
        assert(map_find(m1.drop_first(), key) is None);
        assert(map_find(m, key) is None);
    }
}

/// The node recorded for each id value, as the parser records them while
/// it reads attributes: the last node written with an attribute `id` of
/// that value (see `last_with_id`).
fn collect_ids(nodes: &Vec<NodeData>) -> (r: Vec<(Vec<char>, usize)>)
    ensures
        forall|k: int| 0 <= k < r@.len() ==> #[trigger] r@[k].1 < nodes@.len(),
        forall|v: Seq<char>|
            #[trigger] map_find(map_view(r@), v) == last_with_id(nodes@.map_values(|x: NodeData| x@), v, 0),
{
    let ghost ns = nodes@.map_values(|x: NodeData| x@);
    let mut r: Vec<(Vec<char>, usize)> = Vec::new();
    let mut i: usize = nodes.len();
    assert forall|v: Seq<char>| #[trigger] map_find(map_view(r@), v) == last_with_id(ns, v, i as int) by {
        assert(map_view(r@) =~= Seq::<(Seq<char>, usize)>::empty());
    }
    while i > 0
        invariant
            ns == nodes@.map_values(|x: NodeData| x@),
            i <= nodes@.len(),
            forall|k: int| 0 <= k < r@.len() ==> #[trigger] r@[k].1 < nodes@.len(),
            forall|v: Seq<char>| #[trigger] map_find(map_view(r@), v) == last_with_id(ns, v, i as int),
        decreases i,
    {
        i -= 1;
        let ghost n = ns[i as int];
        assert(n == nodes@[i as int]@);
        let ghost before = map_view(r@);
        let mut a: usize = nodes[i].attrs.len();
        proof {
            assert forall|v: Seq<char>| #[trigger] map_find(map_view(r@), v) == match last_with_id(ns, v, i + 1) {
                Some(j) => Some(j),
                None => if exists|b: int| a <= b < n.attrs.len() && attr_is_id(#[trigger] n.attrs[b], v) {
                    Some(i as usize)
                } else {
                    None
                },
            } by {}
        }
        while a > 0
            invariant
                ns == nodes@.map_values(|x: NodeData| x@),
                i < nodes@.len(),
                n == ns[i as int],
                a <= n.attrs.len(),
                forall|k: int| 0 <= k < r@.len() ==> #[trigger] r@[k].1 < nodes@.len(),
                forall|v: Seq<char>| #[trigger] map_find(map_view(r@), v) == match last_with_id(ns, v, i + 1) {
                    Some(j) => Some(j),
                    None => if exists|b: int| a <= b < n.attrs.len() && attr_is_id(#[trigger] n.attrs[b], v) {
                        Some(i as usize)
                    } else {
                        None
                    },
                },
            decreases a,
        {
            a -= 1;
            let attr = &nodes[i].attrs[a];
            assert(n.attrs[a as int] == attr@);
            let ghost old_r = map_view(r@);
            match (&attr.key, &attr.value) {
                (Some(k), Some(v)) => {
                    if is_id_key(k) && map_lookup(&r, v.as_slice()).is_none() {
                        r.push((crate::chars::copy_chars(v.as_slice()), i));
                        proof {
                            assert(map_view(r@) =~= old_r.push((v@, i)));
                            assert forall|w: Seq<char>| #[trigger] map_find(map_view(r@), w) == match last_with_id(ns, w, i + 1) {
                                Some(j) => Some(j),
                                None => if exists|b: int| a <= b < n.attrs.len() && attr_is_id(#[trigger] n.attrs[b], w) {
                                    Some(i as usize)
                                } else {
                                    None
                                },
                            } by {
                                lemma_map_find_push_new(old_r, v@, i, w);
                                if w == v@ {
                                    assert(attr_is_id(n.attrs[a as int], w));
                                } else {
                                    if exists|b: int| a <= b < n.attrs.len() && attr_is_id(#[trigger] n.attrs[b], w) {
                                        let b = choose|b: int| a <= b < n.attrs.len() && attr_is_id(#[trigger] n.attrs[b], w);
                                        assert(b != a);
                                    }
                                }
                            }
                        }
                    } else {
                        proof {
                            assert forall|w: Seq<char>| #[trigger] map_find(map_view(r@), w) == match last_with_id(ns, w, i + 1) {
                                Some(j) => Some(j),
                                None => if exists|b: int| a <= b < n.attrs.len() && attr_is_id(#[trigger] n.attrs[b], w) {
                                    Some(i as usize)
                                } else {
                                    None
                                },
                            } by {
                                if exists|b: int| a <= b < n.attrs.len() && attr_is_id(#[trigger] n.attrs[b], w) {
                                    let b = choose|b: int| a <= b < n.attrs.len() && attr_is_id(#[trigger] n.attrs[b], w);
                                    if b == a && !(exists|b2: int| a + 1 <= b2 < n.attrs.len() && attr_is_id(#[trigger] n.attrs[b2], w)) {
                                        assert(w == v@);
                                    }
                                }
                            }
                        }
                    }
                },
                _ => {
                    proof {
                        assert forall|w: Seq<char>| #[trigger] map_find(map_view(r@), w) == match last_with_id(ns, w, i + 1) {
                            Some(j) => Some(j),
                            None => if exists|b: int| a <= b < n.attrs.len() && attr_is_id(#[trigger] n.attrs[b], w) {
                                Some(i as usize)
                            } else {
                                None
                            },
                        } by {
                            if exists|b: int| a <= b < n.attrs.len() && attr_is_id(#[trigger] n.attrs[b], w) {
                                let b = choose|b: int| a <= b < n.attrs.len() && attr_is_id(#[trigger] n.attrs[b], w);
                                assert(b != a);
                            }
                        }
                    }
                },
            }
        }
        proof {
            assert forall|v: Seq<char>| #[trigger] map_find(map_view(r@), v) == last_with_id(ns, v, i as int) by {
            }
        }
    }
    r
}

/// The options a document is parsed with: tag names in any case, `<tag />`
/// allowed, unclosed and unexpected tags and unescaped `<` fixed.
pub open spec fn load_options() -> ParseOptions {
    ParseOptions {
        case_sensitive_tagname: false,
        allow_attr_key_starts_with_equal_sign: false,
        allow_self_closing: true,
        auto_fix_unclosed_tag: true,
        auto_fix_unexpected_endtag: true,
        auto_fix_unescaped_lt: true,
    }
}

/// The text parses with the options `o` into a tree whose root is a root
/// node and whose nodes can be read (see `pt_ok`), no more than a document
/// can hold.
pub open spec fn readable(html: Seq<char>, o: ParseOptions) -> bool {
    let t = parsed(html, o);
    &&& parses(html, o)
    &&& t.kind == Some(NodeKind::Root)
    &&& pt_ok(t)
    &&& pt_size(t) <= usize::MAX - 2
}

/// The document read of the parsed tree `t`: well formed, one node for each
/// node of `t` that is read, the renderer given the tree of `t` for the
/// root (see `pt_rtree`), and each id value recorded for the last node
/// written with it.
pub open spec fn loaded(d: Document, t: PNode) -> bool {
    &&& d.wf()
    &&& d@.len() == pt_size(t)
    &&& forall|f: nat| #[trigger] d.rtree(0, f) == pt_rtree(t, f)
    &&& forall|v: Seq<char>| #[trigger] map_find(map_view(d.ids@), v) == last_with_id(d@, v, 0)
}

/// Why loading `html` with the options `o` failed: the parser refused it
/// (the error is the parser's text), or the root of its tree is not a root
/// node, or a node of the tree cannot be read or there are more than a
/// document can hold.
pub open spec fn load_refused(e: Seq<char>, html: Seq<char>, o: ParseOptions) -> bool {
    let t = parsed(html, o);
    ||| !parses(html, o)
    ||| parses(html, o) && t.kind != Some(NodeKind::Root) && e == "the parsed tree has no root"@
    ||| parses(html, o) && t.kind == Some(NodeKind::Root) && (!pt_ok(t) || pt_size(t) > usize::MAX - 2) && e
        == "the parsed tree could not be read"@
}

/// The options the library parses with: unclosed tags, unexpected end
/// tags and unescaped `<` are fixed, and self closing tags allowed.
pub fn parse_options() -> (r: ParseOptions)
    ensures
        r == load_options(),
{
    ParseOptions {
        case_sensitive_tagname: false,
        allow_attr_key_starts_with_equal_sign: false,
        allow_self_closing: true,
        auto_fix_unclosed_tag: true,
        auto_fix_unexpected_endtag: true,
        auto_fix_unescaped_lt: true,
    }
}

impl Document {
    /// Parses an html text into a document with the library's options (see
    /// `load_options`). The parser's error comes back as text.
    pub fn parse(html: &str) -> (r: Result<Document, String>)
        ensures
            r matches Ok(d) ==> loaded(d, parsed(html@, load_options())),
            r matches Err(e) ==> load_refused(e@, html@, load_options()),
            r is Ok <==> readable(html@, load_options()),
    {
        let opts = parse_options();
        Document::parse_with(html, &opts)
    }

    /// Parses an html text into a document with the given options: the
    /// document holds the nodes of the parsed tree (see `loaded`).
    pub fn parse_with(html: &str, opts: &ParseOptions) -> (r: Result<Document, String>)
        ensures
            r matches Ok(d) ==> loaded(d, parsed(html@, *opts)),
            r matches Err(e) ==> load_refused(e@, html@, *opts),
            r is Ok <==> readable(html@, *opts),
    {
        let root = match parse_root(html, opts) {
            Ok(root) => root,
            Err(e) => {
                return Err(e);
            },
        };
        match read_kind(&root) {
            Some(NodeKind::Root) => {},
            _ => {
                return Err(String::from_str("the parsed tree has no root"));
            },
        }
        if check_tree(&root, usize::MAX - 2).is_none() {
            return Err(String::from_str("the parsed tree could not be read"));
        }
        let first = read_node(&root, NodeKind::Root, None, 0).unwrap();
        let mut nodes: Vec<NodeData> = Vec::new();
        nodes.push(first);
        let rules = crate::rules::init();
        let splitter = crate::selector::splitter();
        let mut d = Document { nodes, ids: Vec::new(), rules, splitter };
        assert(d.wf()) by {
            let n = d.nodes@;
            assert(n[0]@.children =~= Seq::<usize>::empty());
        }
        let ghost d1 = d;
        let list = d.read_kids(&root);
        let ghost before = d;
        proof {
            assert(before@[0] == d1@[0]) by {
                assert(before@.take(1)[0] == before@[0]);
            }
            assert(distinct(list@)) by {
                assert forall|a: int, b: int| 0 <= a < b < list@.len() implies list@[a] != list@[b] by {
                    assert(list@[a] < list@[b]);
                }
            }
            assert(can_adopt(&d, 0, list@));
        }
        d.set_children(0, &list);
        proof {
            let h = root@;
            assert forall|j: int| 1 <= j < before@.len() implies #[trigger] unlinked(before@[j]) == unlinked(d@[j])
                && before@[j].children == d@[j].children by {
                assert(before@[0].children =~= Seq::<usize>::empty());
            }
            assert forall|f: nat| #[trigger] d.rtree(0, f) == pt_rtree(h, f) by {
                if f > 0 {
                    assert forall|k: int| 0 <= k < list@.len() implies d.rtree(#[trigger] list@[k] as int, (f - 1) as nat)
                        == pt_rtree(read_kept(h.children)[k], (f - 1) as nat) by {
                        lemma_rtree_frame(&before, &d, 1, list@[k] as int, (f - 1) as nat);
                    }
                }
                assert(d.rtree(0, f).children =~= pt_rtree(h, f).children);
                assert(d.rtree(0, f) =~= pt_rtree(h, f));
            }
        }
        let ids = collect_ids(&d.nodes);
        let ghost prev = d;
        d.ids = ids;
        proof {
            assert forall|j: int, k: int|
                #![trigger prev@[j].children[k]]
                0 <= j < prev@.len() && 0 <= k < prev@[j].children.len() implies 0 <= prev@[j].children[k] < prev@.len() by {
                assert(prev@[j] == prev.nodes@[j]@);
                assert(prev.nodes@[j].children@[k] == prev@[j].children[k]);
            }
            assert forall|f: nat| #[trigger] d.rtree(0, f) == pt_rtree(root@, f) by {
                lemma_rtree_frame(&prev, &d, 0, 0, f);
            }
        }
        Ok(d)
    }
}

/// The tree that the renderer is given for node `i` of the nodes `ns`, its
/// descendants down to `fuel` levels.
pub open spec fn rtree_of(ns: Seq<NodeV>, i: int, fuel: nat) -> RTree
    decreases fuel,
{
    let n = ns[i];
    let meta = n.kind == NodeKind::Tag || n.kind == NodeKind::DocType;
    RTree {
        kind: n.kind,
        has_meta: meta,
        name: if meta {
            n.name
        } else {
            Seq::empty()
        },
        attrs: if meta {
            n.attrs
        } else {
            Seq::empty()
        },
        self_closed: meta && n.self_closed,
        auto_fix: meta && n.auto_fix,
        content: n.content,
        end_tag: n.end_tag,
        children: if fuel == 0 {
            Seq::empty()
        } else {
            Seq::new(n.children.len(), |k: int| rtree_of(ns, n.children[k] as int, (fuel - 1) as nat))
        },
    }
}

impl Document {
    /// The tree that the renderer is given for node `i`, its descendants
    /// down to `fuel` levels (see `rtree_of`).
    pub open spec fn rtree(&self, i: int, fuel: nat) -> RTree {
        rtree_of(self@, i, fuel)
    }

    /// The tree of node `i` for the renderer (see `rtree`), its descendants
    /// down as far as the tree goes.
    pub open spec fn render_tree(&self, i: int) -> RTree {
        self.rtree(i, self.fuel())
    }

    /// The node made for the renderer, with its descendants down to `fuel`
    /// levels.
    pub(crate) fn built(&self, i: usize, fuel: usize) -> (r: BuiltNode)
        requires
            self.wf(),
            self.valid(i as int),
        ensures
            r@ == self.rtree(i as int, fuel as nat),
            complete(r@),
        decreases fuel,
    {
        let node = &self.nodes[i];
        let content = match &node.content {
            Some(c) => Some(crate::chars::copy_chars(c.as_slice())),
            None => None,
        };
        let mut b = new_node(node.kind, content);
        if node.kind == NodeKind::Tag || node.kind == NodeKind::DocType {
            set_meta(&mut b, &node.name, node.self_closed, node.auto_fix);
            proof {
                assert(self@[i as int] == self.nodes@[i as int]@);
                assert(self@[i as int].attrs.take(0) =~= Seq::<crate::dom::AttrV>::empty());
                assert(crate::dom::opt_chars(content) == self@[i as int].content);
            }
            let na = node.attrs.len();
            let mut a: usize = 0;
            while a < na
                invariant
                    self.wf(),
                    self.valid(i as int),
                    na == self.nodes@[i as int].attrs@.len(),
                    a <= na,
                    b@ == (RTree {
                        has_meta: true,
                        name: self@[i as int].name,
                        attrs: self@[i as int].attrs.take(a as int),
                        self_closed: self@[i as int].self_closed,
                        auto_fix: self@[i as int].auto_fix,
                        ..fresh_tree(self@[i as int].kind, self@[i as int].content)
                    }),
                decreases na - a,
            {
                push_attr(&mut b, &self.nodes[i].attrs[a]);
                proof {
                    assert(self@[i as int].attrs.take(a + 1) =~= self@[i as int].attrs.take(a as int).push(
                        self.nodes@[i as int].attrs@[a as int]@,
                    ));
                }
                a += 1;
            }
            assert(self@[i as int].attrs.take(na as int) =~= self@[i as int].attrs);
        }
        match &node.end_tag {
            Some(e) => set_end_tag(&mut b, e),
            None => {},
        }
        let n = node.children.len();
        if fuel > 0 && n > 0 {
            let mut kids: Vec<BuiltNode> = Vec::new();
            let ghost cs = self.nodes@[i as int].children@;
            let mut k: usize = 0;
            while k < n
                invariant
                    self.wf(),
                    self.valid(i as int),
                    cs == self.nodes@[i as int].children@,
                    n == cs.len(),
                    k <= n,
                    fuel > 0,
                    kids@.len() == k,
                    forall|j: int| 0 <= j < k ==> complete(#[trigger] kids@[j]@),
                    forall|j: int| 0 <= j < k ==> (#[trigger] kids@[j])@ == self.rtree(cs[j] as int, (fuel - 1) as nat),
                decreases n - k,
            {
                let c = self.nodes[i].children[k];
                assert(self.valid(c as int));
                let kb = self.built(c, fuel - 1);
                kids.push(kb);
                k += 1;
            }
            let ghost kv = kids@.map_values(|c: BuiltNode| c@);
            set_children(&mut b, kids);
            proof {
                assert(kv =~= self.rtree(i as int, fuel as nat).children);
                assert(b@ =~= self.rtree(i as int, fuel as nat));
            }
        } else {
            proof {
                assert(self.rtree(i as int, fuel as nat).children =~= Seq::<RTree>::empty());
                assert(b@ =~= self.rtree(i as int, fuel as nat));
            }
        }
        b
    }

    /// The options of `text_contents`: entities decoded.
    pub open spec fn text_options() -> RenderOptions {
        RenderOptions { decode_entity: true, ..RenderOptions::spec_plain() }
    }

    /// The node's text, entities decoded: the inner text of an element or
    /// comment, and the whole rendering of other nodes.
    pub fn text_contents(&self, i: usize) -> (r: Vec<char>)
        requires
            self.wf(),
            self.valid(i as int),
        ensures
            r@ == rendered(
                self.render_tree(i as int),
                Self::text_options(),
                self.kind_of(i as int) == NodeKind::Tag || self.kind_of(i as int) == NodeKind::Comment,
            ),
    {
        let b = self.built(i, self.nodes.len());
        let mut o = RenderOptions::plain();
        o.decode_entity = true;
        let inner = self.nodes[i].kind == NodeKind::Tag || self.nodes[i].kind == NodeKind::Comment;
        build(&b, &o, inner)
    }

    /// The node's text as written, entities kept.
    pub fn text_chars(&self, i: usize) -> (r: Vec<char>)
        requires
            self.wf(),
            self.valid(i as int),
        ensures
            r@ == rendered(self.render_tree(i as int), RenderOptions::spec_plain(), self.kind_of(i as int) == NodeKind::Tag),
    {
        let b = self.built(i, self.nodes.len());
        let o = RenderOptions::plain();
        let inner = self.nodes[i].kind == NodeKind::Tag;
        build(&b, &o, inner)
    }

    /// The options of `inner_html`.
    pub open spec fn inner_options() -> RenderOptions {
        RenderOptions { inner_html: true, encode_content: true, ..RenderOptions::spec_plain() }
    }

    /// The options of `outer_html`.
    pub open spec fn outer_options() -> RenderOptions {
        RenderOptions { encode_content: true, ..RenderOptions::spec_plain() }
    }

    /// The renderer can write the inner html of the node: an element, or a
    /// root with no children or one element child.
    pub open spec fn inner_ok(&self, i: int) -> bool {
        self.kind_of(i) == NodeKind::Tag || (self.kind_of(i) == NodeKind::Root && (self@[i].children.len() == 0
            || count_tags(self.render_tree(i).children) == 1))
    }

    /// The html of the node's content; a root renders the content of its one
    /// element child.
    pub fn inner_html(&self, i: usize) -> (r: String)
        requires
            self.wf(),
            self.valid(i as int),
            self.inner_ok(i as int),
        ensures
            r@ == rendered(self.render_tree(i as int), Self::inner_options(), false),
    {
        let b = self.built(i, self.nodes.len());
        let mut o = RenderOptions::plain();
        o.inner_html = true;
        o.encode_content = true;
        let v = build(&b, &o, false);
        crate::chars::chars_to_string(v.as_slice())
    }

    /// The html of the node itself.
    pub fn outer_html(&self, i: usize) -> (r: String)
        requires
            self.wf(),
            self.valid(i as int),
        ensures
            r@ == rendered(self.render_tree(i as int), Self::outer_options(), false),
    {
        let b = self.built(i, self.nodes.len());
        let mut o = RenderOptions::plain();
        o.encode_content = true;
        let v = build(&b, &o, false);
        crate::chars::chars_to_string(v.as_slice())
    }
}

} // verus!
