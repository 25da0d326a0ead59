//! Setting the html content of nodes: the text is parsed and its nodes
//! become the content.
use crate::chars::{lower_chars, spec_lower_seq, str_chars};
use crate::dom::{nodes_linked, Document, NodeData, NodeKind, NodeV};
use crate::elements::{all_valid, copy_ids, Elements};
use crate::html::{
    allow_insert, is_content_tag, parse_root, parsed, parses, read_has_childs, spec_allow_insert, spec_content_tag, ParseOptions, PNode,
};
use crate::copy::{lemma_rtree_frame, unlinked};
use crate::load::{check_kids, read_kept, pt_rtree, pts_ok, pts_size, rtree_of};
use crate::mutate::{can_adopt, distinct, relinked, same_setup};
use vstd::prelude::*;

verus! {

/// The options the html of `set_html` is parsed with: unexpected end tags
/// and unescaped `<` are fixed.
pub open spec fn fragment_options() -> ParseOptions {
    ParseOptions {
        case_sensitive_tagname: false,
        allow_attr_key_starts_with_equal_sign: false,
        allow_self_closing: false,
        auto_fix_unclosed_tag: false,
        auto_fix_unexpected_endtag: true,
        auto_fix_unescaped_lt: true,
    }
}

fn fragment_opts() -> (r: ParseOptions)
    ensures
        r == fragment_options(),
{
    ParseOptions {
        case_sensitive_tagname: false,
        allow_attr_key_starts_with_equal_sign: false,
        allow_self_closing: false,
        auto_fix_unclosed_tag: false,
        auto_fix_unexpected_endtag: true,
        auto_fix_unescaped_lt: true,
    }
}

/// The node whose children `set_html` sets, and whether it is `x` itself:
/// an element, or the parent of a text.
pub open spec fn html_target(ns: Seq<NodeV>, x: int) -> Option<(int, bool)> {
    match ns[x].kind {
        NodeKind::Tag => Some((x, true)),
        NodeKind::Text | NodeKind::Spaces => match ns[x].parent {
            Some(p) => Some((p as int, false)),
            None => None,
        },
        _ => None,
    }
}

/// `set_html` can run: the node it sets has a tag name, and the text
/// parses where the node does not take raw text.
pub open spec fn set_html_ok(ns: Seq<NodeV>, x: int, content: Seq<char>) -> bool {
    match html_target(ns, x) {
        None => true,
        Some((t, _)) => (ns[t].kind == NodeKind::Tag || ns[t].kind == NodeKind::DocType) && (spec_content_tag(ns[t].name)
            || parses(content, fragment_options())),
    }
}

/// The nodes of `ns` with `l` in the place of the child `x` of `p`.
pub open spec fn spliced(ns: Seq<NodeV>, p: int, x: int, l: Seq<usize>) -> Seq<NodeV> {
    let kids = ns[p].children;
    let idx = ns[x].index as int;
    relinked(ns, p, kids.take(idx) + l + kids.skip(idx + 1))
}

/// After `set_html`, the first `n` nodes are those of `ns` with the new
/// nodes `l` as the children of the target `t` (or in the place of the
/// text `x`), and each new node is one that `t` allows.
pub open spec fn grafted(ns: Seq<NodeV>, fin: Seq<NodeV>, x: int, t: int, is_el: bool, l: Seq<usize>) -> bool {
    &&& distinct(l)
    &&& forall|k: int|
        0 <= k < l.len() ==> {
            let c = #[trigger] l[k] as int;
            &&& ns.len() <= c < fin.len()
            &&& fin[c].parent == Some(t as usize)
            &&& spec_allow_insert(ns[t].name, fin[c].kind)
        }
    &&& fin.take(ns.len() as int) == if is_el {
        relinked(ns, t, l)
    } else {
        spliced(ns, t, x, l)
    }
}

proof fn lemma_relinked_prefix(ext: Seq<NodeV>, ns: Seq<NodeV>, p: int, list: Seq<usize>)
    requires
        ext.take(ns.len() as int) == ns,
        0 <= p < ns.len() <= ext.len(),
        forall|k: int| 0 <= k < list.len() ==> ns.len() <= #[trigger] list[k] || ns[p].children.contains(list[k]),
    ensures
        relinked(ext, p, list).take(ns.len() as int) == relinked(ns, p, list),
{
    assert forall|i: int| 0 <= i < ns.len() implies #[trigger] relinked(ext, p, list)[i] == relinked(ns, p, list)[i] by {
        assert(ext[i] == ns[i]);
        assert(ext[p] == ns[p]);
    }
    assert(relinked(ext, p, list).take(ns.len() as int) =~= relinked(ns, p, list));
}

/// The kept nodes of `ks` whose kind may go into an element named `name`
/// (see `spec_allow_insert`), in order.
pub open spec fn allowed_parsed(ks: Seq<PNode>, name: Seq<char>) -> Seq<PNode>
    decreases ks.len(),
{
    if ks.len() == 0 {
        Seq::empty()
    } else {
        let p = allowed_parsed(ks.subrange(0, ks.len() - 1), name);
        if spec_allow_insert(name, ks[ks.len() - 1].kind.unwrap()) {
            p.push(ks[ks.len() - 1])
        } else {
            p
        }
    }
}

/// The nodes `l` of `fin` are the nodes read of the parsed nodes `ps`, in
/// order: the renderer is given the tree of each (see `pt_rtree`).
pub open spec fn read_as(fin: Seq<NodeV>, l: Seq<usize>, ps: Seq<PNode>) -> bool {
    &&& l.len() == ps.len()
    &&& forall|k: int, f: nat| 0 <= k < l.len() ==> #[trigger] rtree_of(fin, l[k] as int, f) == pt_rtree(ps[k], f)
}

/// The nodes `ns2` come of setting the html of node `x` of `ns` to
/// `content` (see `Document::set_html`): where the target takes raw text,
/// the html becomes its content. Else, with `p` the parsed tree: where its
/// root has no list of children, the target loses its children; where the
/// nodes of the list can be read and fit, the nodes read of those that the
/// target allows become its children, or take the place of the text `x`;
/// else nothing changes.
pub open spec fn set_html_step(ns: Seq<NodeV>, ns2: Seq<NodeV>, x: int, content: Seq<char>) -> bool {
    &&& ns2.len() >= ns.len()
    &&& forall|i: int| 0 <= i < ns.len() ==> (#[trigger] ns2[i]).kind == ns[i].kind && ns2[i].name == ns[i].name
    &&& match html_target(ns, x) {
        None => ns2 == ns,
        Some((t, is_el)) => if spec_content_tag(ns[t].name) {
            ns2 == ns.update(t, NodeV { content: Some(content), ..ns[t] })
        } else {
            let p = parsed(content, fragment_options());
            if !p.has_childs {
                ns2 == relinked(ns, t, Seq::empty())
            } else if pts_ok(p.children) && ns.len() + pts_size(p.children) < usize::MAX - 1 {
                exists|l: Seq<usize>|
                    grafted(ns, ns2, x, t, is_el, l) && read_as(ns2, l, allowed_parsed(read_kept(p.children), ns[t].name))
            } else {
                ns2 == ns
            }
        },
    }
}

/// `st` runs from `ns` to `ns2` by setting the html of each node of `e` in
/// turn.
pub open spec fn set_html_chain(st: Seq<Seq<NodeV>>, e: Seq<usize>, content: Seq<char>) -> bool {
    &&& st.len() == e.len() + 1
    &&& forall|k: int| 0 <= k < e.len() ==> set_html_step(#[trigger] st[k], st[k + 1], e[k] as int, content)
}

/// One more kept node: what it adds to `allowed_parsed`.
proof fn lemma_allowed_step(ks: Seq<PNode>, name: Seq<char>, k: int)
    requires
        0 <= k < ks.len(),
    ensures
        allowed_parsed(ks.take(k + 1), name) == if spec_allow_insert(name, ks[k].kind.unwrap()) {
            allowed_parsed(ks.take(k), name).push(ks[k])
        } else {
            allowed_parsed(ks.take(k), name)
        },
{
    let s = ks.take(k + 1);
    assert(s.subrange(0, s.len() - 1) =~= ks.take(k));
    assert(s[s.len() - 1] == ks[k]);
}

impl Document {
    /// Sets the html of node `x`: an element, or the parent of the text
    /// `x` (see `html_target`). Where that node takes raw text, the html
    /// becomes its content. Else the html is parsed (see
    /// `fragment_options`) and the nodes read of the children of its root
    /// that the node allows become its children, or take the place of the
    /// text `x` (see `set_html_step`).
    #[verifier::rlimit(80)]
    pub fn set_html(&mut self, x: usize, content: &str)
        requires
            old(self).wf(),
            old(self).valid(x as int),
            set_html_ok(old(self)@, x as int, content@),
        ensures
            final(self).wf(),
            same_setup(final(self), old(self)),
            set_html_step(old(self)@, final(self)@, x as int, content@),
    {
        let ghost ns = self@;
        assert(self@[x as int] == self.nodes@[x as int]@);
        let (t, is_el) = match self.nodes[x].kind {
            NodeKind::Tag => (x, true),
            NodeKind::Text | NodeKind::Spaces => match self.nodes[x].parent {
                Some(p) => (p, false),
                None => {
                    return;
                },
            },
            _ => {
                return;
            },
        };
        proof {
            crate::insert::lemma_linked_view(self);
        }
        assert(self@[t as int] == self.nodes@[t as int]@);
        if is_content_tag(self.nodes[t].name.as_slice()) {
            self.set_content(t, Some(str_chars(content)));
            return;
        }
        let opts = fragment_opts();
        let root = match parse_root(content, &opts) {
            Ok(r) => r,
            Err(_) => {
                return;
            },
        };
        let ghost pt = root@;
        if !read_has_childs(&root) {
            proof {
                crate::mutate::lemma_kids_adopt(self, t as int, Seq::<usize>::empty());
            }
            let none: Vec<usize> = Vec::new();
            self.set_children(t, &none);
            return;
        }
        let n = self.nodes.len();
        if n >= usize::MAX - 1 {
            return;
        }
        match check_kids(&root, usize::MAX - 2 - n) {
            Some(_) => {},
            None => {
                return;
            },
        }
        let tname = crate::chars::copy_chars(self.nodes[t].name.as_slice());
        let ids = self.read_kids(&root);
        let ghost extd = *self;
        let ghost ext = self@;
        let ghost ks = read_kept(pt.children);
        let ghost name = ns[t as int].name;
        assert(ext.take(ns.len() as int) =~= ns);
        assert forall|j: int, f: nat| 0 <= j < ids@.len() implies #[trigger] rtree_of(ext, ids@[j] as int, f) == pt_rtree(
            ks[j],
            f,
        ) by {
            assert(self.rtree(ids@[j] as int, f) == pt_rtree(ks[j], f));
        }
        let mut nodes: Vec<usize> = Vec::new();
        let mut k: usize = 0;
        assert(ks.take(0) =~= Seq::<PNode>::empty());
        while k < ids.len()
            invariant
                self.wf(),
                extd == *self,
                ext == self@,
                ext.len() >= ns.len(),
                tname@ == name,
                name == ns[t as int].name,
                ids@.len() == ks.len(),
                forall|a: int, b: int| 0 <= a < b < ids@.len() ==> ids@[a] < ids@[b],
                ext.take(ns.len() as int) == ns,
                forall|j: int|
                    0 <= j < ids@.len() ==> {
                        let c = #[trigger] ids@[j] as int;
                        &&& ns.len() <= c < ext.len()
                        &&& ext[c].parent is None
                    },
                forall|j: int, f: nat| 0 <= j < ids@.len() ==> #[trigger] rtree_of(ext, ids@[j] as int, f) == pt_rtree(ks[j], f),
                k <= ids@.len(),
                read_as(ext, nodes@, allowed_parsed(ks.take(k as int), name)),
                forall|a: int, b: int| 0 <= a < b < nodes@.len() ==> nodes@[a] < nodes@[b],
                forall|j: int|
                    0 <= j < nodes@.len() ==> {
                        let c = #[trigger] nodes@[j] as int;
                        &&& ns.len() <= c < ext.len()
                        &&& ext[c].parent is None
                        &&& spec_allow_insert(name, ext[c].kind)
                        &&& (k > 0 ==> c <= ids@[k - 1])
                    },
            decreases ids.len() - k,
        {
            proof {
                lemma_allowed_step(ks, name, k as int);
            }
            let c = ids[k];
            assert(self@[c as int] == self.nodes@[c as int]@);
            assert(ext[c as int].kind == ks[k as int].kind.unwrap()) by {
                assert(rtree_of(ext, ids@[k as int] as int, 0) == pt_rtree(ks[k as int], 0));
            }
            if allow_insert(tname.as_slice(), self.nodes[c].kind) {
                nodes.push(c);
                proof {
                    let al = allowed_parsed(ks.take(k + 1), name);
                    assert forall|j: int, f: nat| 0 <= j < nodes@.len() implies #[trigger] rtree_of(ext, nodes@[j] as int, f)
                        == pt_rtree(al[j], f) by {
                        if j == nodes@.len() - 1 {
                            assert(rtree_of(ext, ids@[k as int] as int, f) == pt_rtree(ks[k as int], f));
                        } else {
                            assert(al[j] == allowed_parsed(ks.take(k as int), name)[j]);
                        }
                    }
                }
            }
            k += 1;
        }
        assert(ks.take(ids@.len() as int) =~= ks);
        let ghost l = nodes@;
        proof {
            assert(distinct(l)) by {
                assert forall|a: int, b: int| 0 <= a < b < l.len() implies l[a] != l[b] by {
                    assert(l[a] < l[b]);
                }
            }
            assert forall|j: int, q: int|
                #![trigger extd@[j].children[q]]
                ns.len() <= j < extd@.len() && 0 <= q < extd@[j].children.len() implies ns.len() <= extd@[j].children[q]
                    < extd@.len() by {}
        }
        if is_el {
            proof {
                crate::mutate::lemma_kids(self, t as int);
                assert(ext[t as int] == ns[t as int]);
                assert forall|j: int| 0 <= j < l.len() implies {
                    let c = #[trigger] l[j] as int;
                    &&& self.valid(c)
                    &&& c != 0
                    &&& c != t
                    &&& (self@[c].parent == Some(t) || self@[c].parent is None)
                } by {}
            }
            self.set_children(t, &nodes);
            proof {
                lemma_relinked_prefix(ext, ns, t as int, l);
                assert forall|j: int| 0 <= j < l.len() implies {
                    let c = #[trigger] l[j] as int;
                    &&& ns.len() <= c < self@.len()
                    &&& self@[c].parent == Some(t as usize)
                    &&& spec_allow_insert(ns[t as int].name, self@[c].kind)
                } by {
                    assert(l.contains(l[j]));
                }
                assert(grafted(ns, self@, x as int, t as int, true, l));
                assert forall|j: int| ns.len() <= j < extd@.len() implies #[trigger] unlinked(extd@[j]) == unlinked(self@[j])
                    && extd@[j].children == self@[j].children by {
                    assert(!ns[t as int].children.contains(j as usize)) by {
                        if ns[t as int].children.contains(j as usize) {
                            let q = choose|q: int| 0 <= q < ns[t as int].children.len() && ns[t as int].children[q] == j as usize;
                            assert(ext[t as int].children[q] < ext.len());
                            assert(self.nodes@.len() == ext.len());
                        }
                    }
                }
                assert forall|j: int, f: nat| 0 <= j < l.len() implies #[trigger] rtree_of(self@, l[j] as int, f) == rtree_of(ext, l[j] as int, f) by {
                    lemma_rtree_frame(&extd, self, ns.len() as int, l[j] as int, f);
                }
                assert(read_as(self@, l, allowed_parsed(ks, name)));
            }
        } else {
            assert(ext[x as int] == ns[x as int]);
            assert(ext[t as int] == ns[t as int]);
            self.splice_in(x, &nodes);
            proof {
                let kids = ns[t as int].children;
                let idx = ns[x as int].index as int;
                let list = kids.take(idx) + l + kids.skip(idx + 1);
                assert forall|j: int| 0 <= j < list.len() implies ns.len() <= #[trigger] list[j] || ns[t as int].children.contains(
                    list[j],
                ) by {
                    if j < idx {
                        assert(list[j] == kids[j]);
                    } else if j >= idx + l.len() {
                        assert(list[j] == kids[j - l.len() + 1]);
                    }
                }
                lemma_relinked_prefix(ext, ns, t as int, list);
                assert forall|j: int| 0 <= j < l.len() implies {
                    let c = #[trigger] l[j] as int;
                    &&& ns.len() <= c < self@.len()
                    &&& self@[c].parent == Some(t as usize)
                    &&& spec_allow_insert(ns[t as int].name, self@[c].kind)
                } by {
                    assert(list[idx + j] == l[j]);
                    assert(list.contains(l[j]));
                }
                assert(grafted(ns, self@, x as int, t as int, false, l));
                assert forall|j: int| ns.len() <= j < extd@.len() implies #[trigger] unlinked(extd@[j]) == unlinked(self@[j])
                    && extd@[j].children == self@[j].children by {
                    assert(!ns[t as int].children.contains(j as usize)) by {
                        if ns[t as int].children.contains(j as usize) {
                            let q = choose|q: int| 0 <= q < ns[t as int].children.len() && ns[t as int].children[q] == j as usize;
                            assert(ext[t as int].children[q] < ext.len());
                        }
                    }
                }
                assert forall|j: int, f: nat| 0 <= j < l.len() implies #[trigger] rtree_of(self@, l[j] as int, f) == rtree_of(ext, l[j] as int, f) by {
                    lemma_rtree_frame(&extd, self, ns.len() as int, l[j] as int, f);
                }
                assert(read_as(self@, l, allowed_parsed(ks, name)));
            }
        }
    }
}

/// The parser accepts the html text of `set_html`.
pub fn html_parses(content: &str) -> (r: bool)
    ensures
        r == parses(content@, fragment_options()),
{
    let opts = fragment_opts();
    parse_root(content, &opts).is_ok()
}

/// The nodes of `e` are elements or roots.
pub open spec fn all_tags_or_roots(d: &Document, e: Seq<usize>) -> bool {
    forall|k: int| 0 <= k < e.len() ==> d.kind_of(#[trigger] e[k] as int) == NodeKind::Tag || d.kind_of(e[k] as int) == NodeKind::Root
}

impl Elements {
    /// Sets the html of each element in turn (see `Document::set_html`).
    pub fn set_html(&self, d: &mut Document, content: &str)
        requires
            old(d).wf(),
            all_valid(old(d), self@),
            all_tags_or_roots(old(d), self@),
            forall|k: int|
                0 <= k < self@.len() ==> spec_content_tag(old(d)@[#[trigger] self@[k] as int].name) || parses(
                    content@,
                    fragment_options(),
                ),
        ensures
            final(d).wf(),
            same_setup(final(d), old(d)),
            exists|st: Seq<Seq<NodeV>>|
                set_html_chain(st, self@, content@) && st[0] == old(d)@ && st[self@.len() as int] == final(d)@,
    {
        let ghost d0 = *d;
        let ghost mut st: Seq<Seq<NodeV>> = seq![d0@];
        let mut i: usize = 0;
        while i < self.nodes.len()
            invariant
                d0 == *old(d),
                st.len() == i + 1,
                st[0] == d0@,
                st[i as int] == d@,
                forall|k: int| 0 <= k < i ==> set_html_step(#[trigger] st[k], st[k + 1], self@[k] as int, content@),
                d.wf(),
                same_setup(d, &d0),
                d@.len() >= d0@.len(),
                all_valid(&d0, self@),
                all_tags_or_roots(&d0, self@),
                forall|k: int|
                    0 <= k < self@.len() ==> spec_content_tag(d0@[#[trigger] self@[k] as int].name) || parses(
                        content@,
                        fragment_options(),
                    ),
                forall|j: int|
                    0 <= j < d0@.len() ==> (#[trigger] d@[j]).kind == d0@[j].kind && d@[j].name == d0@[j].name,
                i <= self@.len(),
            decreases self.nodes.len() - i,
        {
            let x = self.nodes[i];
            assert(d0.valid(self@[i as int] as int));
            assert(d@[x as int].kind == d0@[x as int].kind);
            assert(d0@[x as int] == d0.nodes@[x as int]@);
            assert(set_html_ok(d@, x as int, content@));
            let ghost before = *d;
            d.set_html(x, content);
            assert(d.nodes@.len() == d@.len());
            assert forall|j: int| 0 <= j < d0@.len() implies (#[trigger] d@[j]).kind == d0@[j].kind && d@[j].name == d0@[j].name by {
                assert(before@[j].kind == d0@[j].kind);
            }
            proof {
                assert(set_html_step(before@, d@, x as int, content@));
                let st0 = st;
                st = st.push(d@);
                assert forall|k: int| 0 <= k < i + 1 implies set_html_step(#[trigger] st[k], st[k + 1], self@[k] as int, content@) by {
                    if k < i {
                        assert(st[k] == st0[k] && st[k + 1] == st0[k + 1]);
                    }
                }
            }
            i += 1;
        }
        proof {
            assert(set_html_chain(st, self@, content@));
        }
    }
}

} // verus!
