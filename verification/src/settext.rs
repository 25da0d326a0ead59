//! Setting the text of nodes, and emptying elements.
use crate::chars::{copy_chars, lower_chars, spec_lower_seq, str_chars};
use crate::dom::{nodes_linked, opt_chars, Document, NodeData, NodeKind, NodeV};
use crate::elements::{all_valid, Elements};
use crate::html::{is_content_tag, spec_content_tag};
use crate::mutate::{lemma_kids_adopt, relinked, same_setup};
use rphtml::entity::{encode, CharacterSet, EncodeType, ICodedDataTrait};
use vstd::prelude::*;

verus! {

/// How the encoder writes one character of the html character set: `<`,
/// `>` and `&` as `&lt;`, `&gt;` and `&amp;`, any other character as it is.
pub open spec fn html_char_encoded(c: char) -> Seq<char> {
    if c == '<' {
        "&lt;"@
    } else if c == '>' {
        "&gt;"@
    } else if c == '&' {
        "&amp;"@
    } else {
        seq![c]
    }
}

/// What the entity encoder makes of a text: each character written as
/// `html_char_encoded` says, in order.
pub open spec fn html_encoded(s: Seq<char>) -> Seq<char>
    decreases s.len(),
{
    if s.len() == 0 {
        Seq::empty()
    } else {
        html_encoded(s.drop_last()) + html_char_encoded(s.last())
    }
}

/// The entity encoder of the parser (`htmlentity::encode`) with named or
/// decimal entities over the html character set, read back as characters.
/// The html set holds `<`, `>` and `&`, each of which has a named entity,
/// so only those three are written as entities (see `html_encoded`);
/// reading back cannot fail, as the text is valid and the entities ascii.
#[verifier::external_body]
fn encode_html(s: &str) -> (r: Vec<char>)
    ensures
        r@ == html_encoded(s@),
{
    encode(s.as_bytes(), &EncodeType::NamedOrDecimal, &CharacterSet::Html).to_chars().unwrap()
}

/// A new text node holding `content`.
pub open spec fn text_node(content: Seq<char>) -> NodeV {
    bare_node(NodeKind::Text, Some(content))
}

/// A new node of the kind, without name, attributes, parent or children.
pub open spec fn bare_node(kind: NodeKind, content: Option<Seq<char>>) -> NodeV {
    NodeV {
        kind,
        name: Seq::empty(),
        attrs: Seq::empty(),
        attr_map: Seq::empty(),
        content,
        self_closed: false,
        auto_fix: false,
        end_tag: None,
        parent: None,
        index: 0,
        children: Seq::empty(),
    }
}

/// The nodes after setting the text of node `x` to `content`. An element
/// whose content is raw text (see `spec_content_tag`) takes the text as its
/// content, none for an empty one; another element gets a new text node
/// of the encoded text as its only child, no children for an empty one. A
/// text or comment takes a text that is not empty. Other nodes stay.
pub open spec fn set_text_spec(ns: Seq<NodeV>, x: int, content: Seq<char>) -> Seq<NodeV> {
    let n = ns[x];
    match n.kind {
        NodeKind::Tag => {
            let raw = spec_content_tag(spec_lower_seq(n.name));
            if content.len() > 0 {
                if raw {
                    ns.update(x, NodeV { content: Some(content), ..n })
                } else {
                    relinked(ns.push(text_node(html_encoded(content))), x, seq![ns.len() as usize])
                }
            } else {
                if raw {
                    ns.update(x, NodeV { content: None, ..n })
                } else {
                    relinked(ns, x, Seq::empty())
                }
            }
        },
        NodeKind::Text | NodeKind::Spaces | NodeKind::Comment => if content.len() == 0 {
            ns
        } else {
            ns.update(x, NodeV { content: Some(content), ..n })
        },
        _ => ns,
    }
}

/// The nodes after setting the text of each node of `e` in turn.
pub open spec fn set_text_all(ns: Seq<NodeV>, e: Seq<usize>, content: Seq<char>) -> Seq<NodeV>
    decreases e.len(),
{
    if e.len() == 0 {
        ns
    } else {
        set_text_spec(set_text_all(ns, e.drop_last(), content), e.last() as int, content)
    }
}

impl Document {
    /// Sets the content of node `x`, which must keep one if it is a text.
    pub(crate) fn set_content(&mut self, x: usize, content: Option<Vec<char>>)
        requires
            old(self).wf(),
            old(self).valid(x as int),
            (old(self)@[x as int].kind == NodeKind::Text || old(self)@[x as int].kind == NodeKind::Spaces) ==> content
                is Some,
        ensures
            final(self).wf(),
            same_setup(final(self), old(self)),
            final(self)@ == old(self)@.update(x as int, NodeV { content: crate::dom::opt_chars(content), ..old(self)@[x as int] }),
    {
        let ghost o = self.nodes@;
        assert(self@[x as int] == self.nodes@[x as int]@);
        self.nodes[x].content = content;
        proof {
            let n = self.nodes@;
            assert(self@ =~= old(self)@.update(x as int, NodeV { content: crate::dom::opt_chars(content), ..old(self)@[x as int] }));
            assert forall|j: int, k: int|
                #![trigger n[j].children@[k]]
                0 <= j < n.len() && 0 <= k < n[j].children@.len() implies {
                    let c = n[j].children@[k] as int;
                    &&& 0 <= c < n.len()
                    &&& n[c].parent == Some(j as usize)
                    &&& n[c].index == k
                } by {
                assert(o[j].children@[k] == n[j].children@[k]);
            }
            assert forall|j: int|
                #![trigger n[j].parent]
                0 <= j < n.len() && n[j].parent is Some implies {
                    let p = n[j].parent.unwrap() as int;
                    &&& 0 <= p < n.len()
                    &&& n[j].index < n[p].children@.len()
                    &&& n[p].children@[n[j].index as int] == j
                    &&& p != j
                } by {
                assert(o[j].parent == n[j].parent);
                let p = n[j].parent.unwrap() as int;
                assert(o[p].children@ == n[p].children@);
            }
            assert forall|j: int, k: int|
                #![trigger n[j].attr_map@[k]]
                0 <= j < n.len() && 0 <= k < n[j].attr_map@.len() implies n[j].attr_map@[k].1 < n[j].attrs@.len() by {
                assert(o[j].attr_map@[k].1 < o[j].attrs@.len());
            }
            assert forall|j: int|
                #![trigger n[j].kind]
                0 <= j < n.len() && (n[j].kind == NodeKind::Text || n[j].kind == NodeKind::Spaces) implies n[j].content
                    is Some by {
                assert(o[j].kind == n[j].kind);
                assert(self@[x as int] == n[x as int]@);
            }
        }
    }

    /// Adds a new node of the kind without a parent, holding `content`;
    /// its position.
    pub(crate) fn push_bare(&mut self, kind: NodeKind, content: Option<Vec<char>>) -> (r: usize)
        requires
            old(self).wf(),
            old(self).nodes@.len() < usize::MAX - 1,
            (kind == NodeKind::Text || kind == NodeKind::Spaces) ==> content is Some,
        ensures
            final(self).wf(),
            same_setup(final(self), old(self)),
            final(self)@ == old(self)@.push(bare_node(kind, opt_chars(content))),
            r == old(self)@.len(),
    {
        let ghost o = self.nodes@;
        let ghost cv = opt_chars(content);
        let id = self.nodes.len();
        let node = NodeData {
            kind,
            name: Vec::new(),
            attrs: Vec::new(),
            attr_map: Vec::new(),
            content,
            self_closed: false,
            auto_fix: false,
            end_tag: None,
            parent: None,
            index: 0,
            children: Vec::new(),
        };
        self.nodes.push(node);
        proof {
            let n = self.nodes@;
            assert(self@ =~= old(self)@.push(bare_node(kind, cv))) by {
                assert(n[id as int]@.attrs =~= Seq::<crate::dom::AttrV>::empty());
                assert(n[id as int]@.attr_map =~= Seq::<(Seq<char>, usize)>::empty());
            }
            assert forall|j: int, k: int|
                #![trigger n[j].children@[k]]
                0 <= j < n.len() && 0 <= k < n[j].children@.len() implies {
                    let c = n[j].children@[k] as int;
                    &&& 0 <= c < n.len()
                    &&& n[c].parent == Some(j as usize)
                    &&& n[c].index == k
                } by {
                assert(j < id);
                assert(o[j].children@[k] == n[j].children@[k]);
            }
            assert forall|j: int|
                #![trigger n[j].parent]
                0 <= j < n.len() && n[j].parent is Some implies {
                    let p = n[j].parent.unwrap() as int;
                    &&& 0 <= p < n.len()
                    &&& n[j].index < n[p].children@.len()
                    &&& n[p].children@[n[j].index as int] == j
                    &&& p != j
                } by {
                assert(j < id);
                assert(o[j].parent == n[j].parent);
                let p = o[j].parent.unwrap() as int;
                assert(o[p].children@ == n[p].children@);
            }
            assert forall|j: int, k: int|
                #![trigger n[j].attr_map@[k]]
                0 <= j < n.len() && 0 <= k < n[j].attr_map@.len() implies n[j].attr_map@[k].1 < n[j].attrs@.len() by {
                assert(j < id);
                assert(o[j].attr_map@[k].1 < o[j].attrs@.len());
            }
            assert forall|j: int|
                #![trigger n[j].kind]
                0 <= j < n.len() && (n[j].kind == NodeKind::Text || n[j].kind == NodeKind::Spaces) implies n[j].content
                    is Some by {
                if j < id {
                    assert(o[j].kind == n[j].kind);
                }
            }
        }
        id
    }

    /// Sets the text of node `x` (see `set_text_spec`).
    pub fn set_text(&mut self, x: usize, content: &str)
        requires
            old(self).wf(),
            old(self).valid(x as int),
            old(self).nodes@.len() < usize::MAX - 1,
        ensures
            final(self).wf(),
            same_setup(final(self), old(self)),
            final(self)@ == set_text_spec(old(self)@, x as int, content@),
    {
        assert(self@[x as int] == self.nodes@[x as int]@);
        let chars = str_chars(content);
        match self.nodes[x].kind {
            NodeKind::Tag => {
                let lname = lower_chars(self.nodes[x].name.as_slice());
                let raw = is_content_tag(lname.as_slice());
                if chars.len() > 0 {
                    if raw {
                        self.set_content(x, Some(chars));
                    } else {
                        let enc = encode_html(content);
                        let id = self.push_bare(NodeKind::Text, Some(enc));
                        assert(self@.len() == old(self)@.len() + 1);
                        assert(self.nodes@.len() == self@.len());
                        assert(self@[x as int] == old(self)@[x as int]);
                        proof {
                            assert(self@[id as int].parent is None);
                            lemma_one_adopt(self, x as int, id);
                        }
                        let one = vec![id];
                        assert(one@ =~= seq![id]);
                        self.set_children(x, &one);
                    }
                } else {
                    if raw {
                        self.set_content(x, None);
                    } else {
                        proof {
                            lemma_kids_adopt(self, x as int, Seq::<usize>::empty());
                        }
                        let none: Vec<usize> = Vec::new();
                        self.set_children(x, &none);
                    }
                }
            },
            NodeKind::Text | NodeKind::Spaces | NodeKind::Comment => {
                if chars.len() > 0 {
                    self.set_content(x, Some(chars));
                }
            },
            _ => {},
        }
    }
}

/// A new node without a parent can be the one child of `x`.
proof fn lemma_one_adopt(d: &Document, x: int, id: usize)
    requires
        d.wf(),
        d.valid(x),
        d.valid(id as int),
        id != 0,
        id != x,
        d@[id as int].parent is None,
    ensures
        crate::mutate::can_adopt(d, x, seq![id]),
{
    crate::mutate::lemma_kids(d, x);
}

impl Elements {
    /// Sets the text of each element in turn (see `set_text_all`).
    pub fn set_text(&self, d: &mut Document, content: &str)
        requires
            old(d).wf(),
            all_valid(old(d), self@),
            old(d).nodes@.len() + self@.len() < usize::MAX - 1,
        ensures
            final(d).wf(),
            same_setup(final(d), old(d)),
            final(d)@ == set_text_all(old(d)@, self@, content@),
    {
        let ghost d0 = *d;
        let mut i: usize = 0;
        assert(self@.take(0) =~= Seq::<usize>::empty());
        while i < self.nodes.len()
            invariant
                d.wf(),
                all_valid(&d0, self@),
                d0.nodes@.len() <= d.nodes@.len() <= d0.nodes@.len() + i,
                d0.nodes@.len() + self@.len() < usize::MAX - 1,
                same_setup(d, &d0),
                i <= self@.len(),
                d@ == set_text_all(d0@, self@.take(i as int), content@),
            decreases self.nodes.len() - i,
        {
            assert(self@.take(i + 1).drop_last() =~= self@.take(i as int));
            assert(d0.valid(self@[i as int] as int));
            d.set_text(self.nodes[i], content);
            assert(d.nodes@.len() == d@.len());
            i += 1;
        }
        assert(self@.take(i as int) =~= self@);
    }

    /// Empties each element: the text of each set to the empty text.
    pub fn empty(&self, d: &mut Document)
        requires
            old(d).wf(),
            all_valid(old(d), self@),
            old(d).nodes@.len() + self@.len() < usize::MAX - 1,
        ensures
            final(d).wf(),
            same_setup(final(d), old(d)),
            final(d)@ == set_text_all(old(d)@, self@, Seq::empty()),
    {
        proof {
            reveal_strlit("");
        }
        assert(""@ =~= Seq::<char>::empty());
        self.set_text(d, "")
    }
}

} // verus!
