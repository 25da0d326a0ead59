//! The document tree: an arena of nodes linked by parent and child
//! indexes, with the selector rules that queries on it use.
use crate::chars::{chars_to_string, copy_chars, lower_chars, spec_lower_seq, spec_to_upper, str_chars, upper_chars};
use crate::pattern::Pattern;
use crate::rule::Rule;
use crate::rules::spec_rules;
use crate::selector::spec_splitter;
use std::collections::VecDeque;
use vstd::prelude::*;

verus! {

/// The kinds of nodes.
#[derive(PartialEq, Eq, Structural, Clone, Copy, Debug)]
pub enum NodeKind {
    /// the root of a parsed text
    Root,
    /// `<!doctype ...>`
    DocType,
    Comment,
    /// text with a character other than ascii whitespace
    Text,
    /// text of ascii whitespace alone
    Spaces,
    /// an element
    Tag,
    /// `<![CDATA[...]]>`
    CData,
}

/// The node types that the api reports.
#[derive(PartialEq, Eq, Structural, Clone, Copy, Debug)]
pub enum INodeType {
    Element,
    Text,
    XMLCDATA,
    Comment,
    Document,
    HTMLDOCTYPE,
    DocumentFragement,
    Other,
}

impl INodeType {
    /// The type is `Element`.
    pub fn is_element(&self) -> (r: bool)
        ensures
            r <==> *self == INodeType::Element,
    {
        match self {
            INodeType::Element => true,
            _ => false,
        }
    }
}

/// An attribute as written: a key, a value, and the quote around the value.
pub struct Attr {
    pub key: Option<Vec<char>>,
    pub value: Option<Vec<char>>,
    pub quote: Option<char>,
    pub need_quote: bool,
}

/// A node of the tree.
pub struct NodeData {
    pub kind: NodeKind,
    /// the tag name as written (elements and doctypes)
    pub name: Vec<char>,
    pub attrs: Vec<Attr>,
    /// the lowercase name of each attribute key and the position of its
    /// first attribute
    pub attr_map: Vec<(Vec<char>, usize)>,
    /// the text of text, comment and cdata nodes, and the content of
    /// `script`, `style`, `title` and `textarea` elements
    pub content: Option<Vec<char>>,
    /// written as `<tag />`
    pub self_closed: bool,
    /// closed by the parser
    pub auto_fix: bool,
    /// the text of the end tag, as written
    pub end_tag: Option<Vec<char>>,
    pub parent: Option<usize>,
    /// the position among the parent's children
    pub index: usize,
    pub children: Vec<usize>,
}

/// A document: its nodes (the root first), the elements of each id as the
/// parser recorded them, and the selector rules.
pub struct Document {
    pub nodes: Vec<NodeData>,
    pub ids: Vec<(Vec<char>, usize)>,
    pub rules: Vec<Rule>,
    pub splitter: Vec<Pattern>,
}

/// The value of an attribute: its text and quote, or present without a
/// value.
#[derive(Debug)]
pub enum IAttrValue {
    Value(String, Option<char>),
    True,
}

/// The links between nodes agree: each child names its parent and its
/// position, each parent lists its children; the root comes first; the
/// attribute maps point at attributes; text nodes have their text.
pub open spec fn nodes_linked(n: Seq<NodeData>) -> bool {
    &&& 0 < n.len() < usize::MAX
    &&& n[0].parent is None
    &&& forall|i: int, k: int|
        #![trigger n[i].children@[k]]
        0 <= i < n.len() && 0 <= k < n[i].children@.len() ==> {
            let c = n[i].children@[k] as int;
            &&& 0 <= c < n.len()
            &&& n[c].parent == Some(i as usize)
            &&& n[c].index == k
        }
    &&& forall|i: int|
        #![trigger n[i].parent]
        0 <= i < n.len() && n[i].parent is Some ==> {
            let p = n[i].parent.unwrap() as int;
            &&& 0 <= p < n.len()
            &&& n[i].index < n[p].children@.len()
            &&& n[p].children@[n[i].index as int] == i
            &&& p != i
        }
    &&& forall|i: int, k: int|
        #![trigger n[i].attr_map@[k]]
        0 <= i < n.len() && 0 <= k < n[i].attr_map@.len() ==> n[i].attr_map@[k].1 < n[i].attrs@.len()
    &&& forall|i: int|
        #![trigger n[i].kind]
        0 <= i < n.len() && (n[i].kind == NodeKind::Text || n[i].kind == NodeKind::Spaces) ==> n[i].content is Some
}

impl Document {
    /// The nodes are well linked (see `nodes_linked`), the first is a root,
    /// the recorded ids name nodes, and the rules are the library's.
    pub open spec fn wf(&self) -> bool {
        &&& nodes_linked(self.nodes@)
        &&& self.nodes@[0].kind == NodeKind::Root
        &&& forall|k: int| #![trigger self.ids@[k]] 0 <= k < self.ids@.len() ==> self.ids@[k].1 < self.nodes@.len()
        &&& spec_rules(self.rules@)
        &&& spec_splitter(self.splitter@)
    }

    /// `i` is a node of the document.
    pub open spec fn valid(&self, i: int) -> bool {
        0 <= i < self.nodes@.len()
    }

    pub open spec fn kind_of(&self, i: int) -> NodeKind {
        self.nodes@[i].kind
    }

    /// `i` is an element.
    pub open spec fn is_elem(&self, i: int) -> bool {
        self.valid(i) && self.kind_of(i) == NodeKind::Tag
    }

    /// The node has a tag name and attributes.
    pub open spec fn has_meta(&self, i: int) -> bool {
        self.valid(i) && (self.kind_of(i) == NodeKind::Tag || self.kind_of(i) == NodeKind::DocType)
    }

    /// The root has an `html` element child: the document is a whole page.
    pub open spec fn spec_is_document(&self, i: int) -> bool {
        exists|k: int|
            0 <= k < self.nodes@[i].children@.len() && {
                let c = #[trigger] self.nodes@[i].children@[k] as int;
                self.kind_of(c) == NodeKind::Tag && spec_lower_seq(self.nodes@[c].name@) == "html"@
            }
    }

    /// The node type the api reports.
    pub open spec fn spec_node_type(&self, i: int) -> INodeType {
        match self.kind_of(i) {
            NodeKind::Root => if self.spec_is_document(i) {
                INodeType::Document
            } else {
                INodeType::DocumentFragement
            },
            NodeKind::Comment => INodeType::Comment,
            NodeKind::Text | NodeKind::Spaces => INodeType::Text,
            NodeKind::Tag => INodeType::Element,
            NodeKind::CData => INodeType::XMLCDATA,
            NodeKind::DocType => INodeType::HTMLDOCTYPE,
        }
    }

    /// The lowercase tag name of an element; other nodes have none.
    pub open spec fn spec_tag_names(&self, i: int) -> Seq<char> {
        if self.kind_of(i) == NodeKind::Tag {
            spec_lower_seq(self.nodes@[i].name@)
        } else {
            Seq::empty()
        }
    }

    /// The children that are elements, in order.
    pub open spec fn elem_children(&self, i: int) -> Seq<usize> {
        self.nodes@[i].children@.filter(|c: usize| self.kind_of(c as int) == NodeKind::Tag)
    }

    /// The ancestor `k` levels up (the node itself at 0).
    pub open spec fn ancestor(&self, i: int, k: nat) -> Option<usize>
        decreases k,
    {
        if k == 0 {
            if self.valid(i) {
                Some(i as usize)
            } else {
                None
            }
        } else {
            match self.ancestor(i, (k - 1) as nat) {
                Some(j) => self.nodes@[j as int].parent,
                None => None,
            }
        }
    }

    /// The number of levels that an upward walk may take: the number of
    /// nodes bounds the depth of the tree.
    pub open spec fn fuel(&self) -> nat {
        self.nodes@.len()
    }

    /// The position of a node: the child indexes from its topmost ancestor
    /// down to it, that ancestor's own index first.
    pub open spec fn path(&self, i: int, fuel: nat) -> Seq<usize>
        decreases fuel,
    {
        if !self.valid(i) {
            Seq::empty()
        } else if fuel == 0 || self.nodes@[i].parent is None {
            seq![self.nodes@[i].index]
        } else {
            self.path(self.nodes@[i].parent.unwrap() as int, (fuel - 1) as nat).push(self.nodes@[i].index)
        }
    }

    /// The position of a node (see `path`).
    pub open spec fn tree_path(&self, i: int) -> Seq<usize> {
        self.path(i, self.fuel())
    }

    /// The number of nodes.
    pub fn len(&self) -> (r: usize)
        ensures
            r == self.nodes@.len(),
    {
        self.nodes.len()
    }

    /// The kind of a node.
    pub fn kind(&self, i: usize) -> (r: NodeKind)
        requires
            self.valid(i as int),
        ensures
            r == self.kind_of(i as int),
    {
        self.nodes[i].kind
    }

    /// The node is an element.
    pub fn is_element(&self, i: usize) -> (r: bool)
        requires
            self.valid(i as int),
        ensures
            r == self.is_elem(i as int),
    {
        self.nodes[i].kind == NodeKind::Tag
    }

    /// The root has an `html` element child.
    pub fn is_document(&self, i: usize) -> (r: bool)
        requires
            self.wf(),
            self.valid(i as int),
        ensures
            r == self.spec_is_document(i as int),
    {
        let n = self.nodes[i].children.len();
        let mut k: usize = 0;
        while k < n
            invariant
                self.wf(),
                self.valid(i as int),
                n == self.nodes@[i as int].children@.len(),
                k <= n,
                forall|j: int|
                    0 <= j < k ==> {
                        let c = #[trigger] self.nodes@[i as int].children@[j] as int;
                        !(self.kind_of(c) == NodeKind::Tag && spec_lower_seq(self.nodes@[c].name@) == "html"@)
                    },
            decreases n - k,
        {
            let c = self.nodes[i].children[k];
            assert(self.valid(c as int));
            if self.nodes[c].kind == NodeKind::Tag {
                let lc = lower_chars(self.nodes[c].name.as_slice());
                let html = str_chars("html");
                if crate::chars::chars_eq(lc.as_slice(), html.as_slice()) {
                    assert(self.nodes@[i as int].children@[k as int] == c);
                    return true;
                }
            }
            k += 1;
        }
        false
    }

    /// The node type the api reports (see `spec_node_type`).
    pub fn node_type(&self, i: usize) -> (r: INodeType)
        requires
            self.wf(),
            self.valid(i as int),
        ensures
            r == self.spec_node_type(i as int),
    {
        match self.nodes[i].kind {
            NodeKind::Root => if self.is_document(i) {
                INodeType::Document
            } else {
                INodeType::DocumentFragement
            },
            NodeKind::Comment => INodeType::Comment,
            NodeKind::Text | NodeKind::Spaces => INodeType::Text,
            NodeKind::Tag => INodeType::Element,
            NodeKind::CData => INodeType::XMLCDATA,
            NodeKind::DocType => INodeType::HTMLDOCTYPE,
        }
    }

    /// The node is the root of a parsed text.
    pub fn is_root_element(&self, i: usize) -> (r: bool)
        requires
            self.valid(i as int),
        ensures
            r == (self.kind_of(i as int) == NodeKind::Root),
    {
        self.nodes[i].kind == NodeKind::Root
    }

    /// The lowercase tag name (see `spec_tag_names`).
    pub fn tag_names(&self, i: usize) -> (r: Vec<char>)
        requires
            self.valid(i as int),
        ensures
            r@ == self.spec_tag_names(i as int),
    {
        if self.nodes[i].kind == NodeKind::Tag {
            lower_chars(self.nodes[i].name.as_slice())
        } else {
            Vec::new()
        }
    }

    /// The uppercase tag name.
    pub fn tag_name(&self, i: usize) -> (r: String)
        requires
            self.valid(i as int),
        ensures
            r@ == self.spec_tag_names(i as int).map_values(|c: char| spec_to_upper(c)),
    {
        let lc = self.tag_names(i);
        let uc = upper_chars(lc.as_slice());
        assert(uc@ =~= lc@.map_values(|c: char| spec_to_upper(c)));
        chars_to_string(uc.as_slice())
    }

    /// The parent of a node.
    pub fn parent(&self, i: usize) -> (r: Option<usize>)
        requires
            self.wf(),
            self.valid(i as int),
        ensures
            r == self.nodes@[i as int].parent,
            r matches Some(p) ==> self.valid(p as int),
    {
        self.nodes[i].parent
    }

    /// The position of a node among its parent's children.
    pub fn index(&self, i: usize) -> (r: usize)
        requires
            self.valid(i as int),
        ensures
            r == self.nodes@[i as int].index,
    {
        self.nodes[i].index
    }

    /// The number of child nodes.
    pub fn child_nodes_length(&self, i: usize) -> (r: usize)
        requires
            self.valid(i as int),
        ensures
            r == self.nodes@[i as int].children@.len(),
    {
        self.nodes[i].children.len()
    }

    /// The children that are elements, in order.
    pub fn children(&self, i: usize) -> (r: Vec<usize>)
        requires
            self.wf(),
            self.valid(i as int),
        ensures
            r@ == self.elem_children(i as int),
            forall|k: int| 0 <= k < r@.len() ==> self.is_elem(#[trigger] r@[k] as int),
    {
        let mut r: Vec<usize> = Vec::new();
        let n = self.nodes[i].children.len();
        let mut k: usize = 0;
        let ghost cs = self.nodes@[i as int].children@;
        let ghost f = |c: usize| self.kind_of(c as int) == NodeKind::Tag;
        assert(cs.take(0).filter(f) =~= Seq::<usize>::empty()) by {
            reveal(Seq::filter);
        }
        while k < n
            invariant
                self.wf(),
                self.valid(i as int),
                cs == self.nodes@[i as int].children@,
                f == (|c: usize| self.kind_of(c as int) == NodeKind::Tag),
                n == cs.len(),
                k <= n,
                r@ == cs.take(k as int).filter(f),
                forall|j: int| 0 <= j < r@.len() ==> self.is_elem(#[trigger] r@[j] as int),
            decreases n - k,
        {
            let c = self.nodes[i].children[k];
            assert(self.valid(c as int));
            proof {
                assert(cs.take(k + 1).drop_last() =~= cs.take(k as int));
                reveal(Seq::filter);
            }
            if self.nodes[c].kind == NodeKind::Tag {
                r.push(c);
            }
            k += 1;
        }
        assert(cs.take(n as int) =~= cs);
        r
    }

    /// The position of a node as child indexes from the top (see `path`).
    pub fn tree_indexs(&self, i: usize) -> (r: VecDeque<usize>)
        requires
            self.wf(),
            self.valid(i as int),
        ensures
            r@ == self.tree_path(i as int),
    {
        let mut r: VecDeque<usize> = VecDeque::new();
        let mut cur = i;
        let mut fuel = self.nodes.len();
        r.push_front(self.nodes[cur].index);
        proof {
            assert(r@ =~= seq![self.nodes@[i as int].index]);
        }
        // the path is built from the bottom up
        while fuel > 0 && self.nodes[cur].parent.is_some()
            invariant
                self.wf(),
                self.valid(cur as int),
                fuel <= self.nodes@.len(),
                self.tree_path(i as int) == self.path(cur as int, fuel as nat) + r@.drop_first(),
                r@.len() >= 1,
                r@[0] == self.nodes@[cur as int].index,
            decreases fuel,
        {
            let p = self.nodes[cur].parent.unwrap();
            let ghost old_r = r@;
            proof {
                assert(self.path(cur as int, fuel as nat) == self.path(p as int, (fuel - 1) as nat).push(
                    self.nodes@[cur as int].index,
                ));
            }
            r.push_front(self.nodes[p].index);
            proof {
                assert(r@.drop_first() =~= old_r);
                assert(self.path(p as int, (fuel - 1) as nat).push(self.nodes@[cur as int].index) + old_r.drop_first()
                    =~= self.path(p as int, (fuel - 1) as nat) + old_r);
            }
            cur = p;
            fuel -= 1;
        }
        proof {
            assert(self.path(cur as int, fuel as nat) == seq![self.nodes@[cur as int].index]);
            assert(seq![self.nodes@[cur as int].index] + r@.drop_first() =~= r@);
        }
        r
    }
}


/// An attribute as plain values.
pub struct AttrV {
    pub key: Option<Seq<char>>,
    pub value: Option<Seq<char>>,
    pub quote: Option<char>,
    pub need_quote: bool,
}

pub open spec fn opt_chars(o: Option<Vec<char>>) -> Option<Seq<char>> {
    match o {
        Some(v) => Some(v@),
        None => None,
    }
}

impl View for Attr {
    type V = AttrV;

    open spec fn view(&self) -> AttrV {
        AttrV { key: opt_chars(self.key), value: opt_chars(self.value), quote: self.quote, need_quote: self.need_quote }
    }
}

/// A node as plain values.
pub struct NodeV {
    pub kind: NodeKind,
    pub name: Seq<char>,
    pub attrs: Seq<AttrV>,
    pub attr_map: Seq<(Seq<char>, usize)>,
    pub content: Option<Seq<char>>,
    pub self_closed: bool,
    pub auto_fix: bool,
    pub end_tag: Option<Seq<char>>,
    pub parent: Option<usize>,
    pub index: usize,
    pub children: Seq<usize>,
}

impl View for NodeData {
    type V = NodeV;

    open spec fn view(&self) -> NodeV {
        NodeV {
            kind: self.kind,
            name: self.name@,
            attrs: self.attrs@.map_values(|a: Attr| a@),
            attr_map: self.attr_map@.map_values(|e: (Vec<char>, usize)| (e.0@, e.1)),
            content: opt_chars(self.content),
            self_closed: self.self_closed,
            auto_fix: self.auto_fix,
            end_tag: opt_chars(self.end_tag),
            parent: self.parent,
            index: self.index,
            children: self.children@,
        }
    }
}

impl View for Document {
    type V = Seq<NodeV>;

    open spec fn view(&self) -> Seq<NodeV> {
        self.nodes@.map_values(|n: NodeData| n@)
    }
}

/// The attribute position recorded for the key `key`: the first entry.
pub open spec fn map_find(m: Seq<(Seq<char>, usize)>, key: Seq<char>) -> Option<usize>
    decreases m.len(),
{
    if m.len() == 0 {
        None
    } else if m[0].0 == key {
        Some(m[0].1)
    } else {
        map_find(m.drop_first(), key)
    }
}

/// The map without its first entry for `key`.
pub open spec fn map_remove(m: Seq<(Seq<char>, usize)>, key: Seq<char>) -> Seq<(Seq<char>, usize)>
    decreases m.len(),
{
    if m.len() == 0 {
        m
    } else if m[0].0 == key {
        m.drop_first()
    } else {
        seq![m[0]] + map_remove(m.drop_first(), key)
    }
}

/// The value of an attribute as the api reports it.
pub open spec fn iattr_view(v: Option<IAttrValue>) -> Option<(Option<Seq<char>>, Option<char>)> {
    match v {
        None => None,
        Some(IAttrValue::Value(s, q)) => Some((Some(s@), q)),
        Some(IAttrValue::True) => Some((None, None)),
    }
}

/// The characters that make an attribute value need quotes.
pub open spec fn spec_need_quoted(ch: char) -> bool {
    crate::chars::spec_is_ws(ch) || ch == '"' || ch == '\'' || ch == '<' || ch == '>' || ch == '=' || ch == '`'
}

/// The named entity of a quote.
pub open spec fn quote_entity(ch: char) -> Seq<char> {
    if ch == '"' {
        "&quot;"@
    } else {
        "&apos;"@
    }
}

/// How a new attribute value is written: the quote is `"` unless the first
/// quote in the value is `"`; later quotes of the chosen kind become
/// entities.
pub struct QuoteState {
    pub found: bool,
    pub quote: char,
    pub need: bool,
    pub out: Seq<char>,
}

pub open spec fn quote_step(st: QuoteState, ch: char) -> QuoteState {
    let need = st.need || spec_need_quoted(ch);
    if ch == '"' || ch == '\'' {
        if st.found {
            if st.quote == ch {
                QuoteState { need, out: st.out + quote_entity(ch), ..st }
            } else {
                QuoteState { need, out: st.out.push(ch), ..st }
            }
        } else {
            QuoteState {
                found: true,
                quote: if ch == '"' {
                    '\''
                } else {
                    st.quote
                },
                need,
                out: st.out.push(ch),
            }
        }
    } else {
        QuoteState { need, out: st.out.push(ch), ..st }
    }
}

pub open spec fn quote_run(v: Seq<char>) -> QuoteState
    decreases v.len(),
{
    if v.len() == 0 {
        QuoteState { found: false, quote: '"', need: false, out: Seq::empty() }
    } else {
        quote_step(quote_run(v.drop_last()), v.last())
    }
}

/// `Attr::need_quoted_char`: ascii whitespace and the characters
/// `" ' < > = `` ` need quotes around a value.
#[verifier::external_body]
fn need_quoted_char(ch: char) -> (r: bool)
    ensures
        r == spec_need_quoted(ch),
{
    rphtml::parser::Attr::need_quoted_char(&ch)
}

/// `encode_char` with named entities, on a quote: `"` is `&quot;` and `'`
/// is `&apos;`, the first names of their code points in the entity table.
#[verifier::external_body]
fn encode_quote(ch: char) -> (r: Vec<char>)
    requires
        ch == '"' || ch == '\'',
    ensures
        r@ == quote_entity(ch),
{
    let mut v: Vec<char> = Vec::new();
    if let Some(e) = rphtml::entity::encode_char(&ch, &rphtml::entity::EncodeType::Named) {
        e.write_chars(&mut v);
    }
    v
}

/// Writes a new attribute value (see `quote_run`).
fn quote_value(v: &[char]) -> (r: (Vec<char>, char, bool))
    ensures
        r.0@ == quote_run(v@).out,
        r.1 == quote_run(v@).quote,
        r.2 == quote_run(v@).need,
{
    let mut out: Vec<char> = Vec::new();
    let mut found = false;
    let mut quote = '"';
    let mut need = false;
    let mut i: usize = 0;
    assert(v@.take(0) =~= Seq::<char>::empty());
    while i < v.len()
        invariant
            i <= v@.len(),
            quote_run(v@.take(i as int)) == (QuoteState { found, quote, need, out: out@ }),
        decreases v.len() - i,
    {
        let ch = v[i];
        proof {
            assert(v@.take(i + 1).drop_last() =~= v@.take(i as int));
            assert(v@.take(i + 1).last() == ch);
        }
        if !need {
            need = need_quoted_char(ch);
        }
        if ch == '"' || ch == '\'' {
            if found {
                if quote == ch {
                    let e = encode_quote(ch);
                    let mut e2 = e;
                    out.append(&mut e2);
                } else {
                    out.push(ch);
                }
            } else {
                found = true;
                if ch == '"' {
                    quote = '\'';
                }
                out.push(ch);
            }
        } else {
            out.push(ch);
        }
        i += 1;
        proof {
            assert(quote_run(v@.take(i as int)).out =~= out@);
        }
    }
    assert(v@.take(i as int) =~= v@);
    (out, quote, need)
}

/// The attribute named `name` (ascii case ignored) of a node: its value and
/// quote, or `(None, None)` for an attribute without a value.
pub open spec fn node_attr(n: NodeV, name: Seq<char>) -> Option<(Option<Seq<char>>, Option<char>)> {
    match map_find(n.attr_map, spec_lower_seq(name)) {
        None => None,
        Some(p) => {
            let a = n.attrs[p as int];
            match a.value {
                Some(v) => Some((Some(v), a.quote)),
                None => Some((None, None)),
            }
        },
    }
}

impl Document {
    /// The attribute named `name` of node `i`: its value and quote, or
    /// `(None, None)` for an attribute without a value.
    pub open spec fn attr_result(&self, i: int, name: Seq<char>) -> Option<(Option<Seq<char>>, Option<char>)> {
        node_attr(self@[i], name)
    }

    fn find_attr(&self, i: usize, lname: &Vec<char>) -> (r: Option<usize>)
        requires
            self.wf(),
            self.valid(i as int),
        ensures
            r == map_find(self@[i as int].attr_map, lname@),
            r matches Some(p) ==> p < self.nodes@[i as int].attrs@.len(),
    {
        let ghost m = self@[i as int].attr_map;
        let n = self.nodes[i].attr_map.len();
        let mut k: usize = 0;
        assert(m.skip(0) =~= m);
        while k < n
            invariant
                self.wf(),
                self.valid(i as int),
                m == self@[i as int].attr_map,
                n == m.len(),
                k <= n,
                map_find(m, lname@) == map_find(m.skip(k as int), lname@),
            decreases n - k,
        {
            assert(m.skip(k as int)[0] == m[k as int]);
            assert(self.nodes@[i as int].attr_map@[k as int].1 < self.nodes@[i as int].attrs@.len());
            if crate::chars::chars_eq(self.nodes[i].attr_map[k].0.as_slice(), lname.as_slice()) {
                return Some(self.nodes[i].attr_map[k].1);
            }
            assert(m.skip(k as int).drop_first() =~= m.skip(k + 1));
            k += 1;
        }
        None
    }

    /// The attribute named `name`, ascii case ignored (see `attr_result`).
    pub fn get_attribute(&self, i: usize, name: &str) -> (r: Option<IAttrValue>)
        requires
            self.wf(),
            self.has_meta(i as int),
        ensures
            iattr_view(r) == self.attr_result(i as int, name@),
    {
        let lname = lower_chars(str_chars(name).as_slice());
        match self.find_attr(i, &lname) {
            None => None,
            Some(p) => {
                let a = &self.nodes[i].attrs[p];
                match &a.value {
                    Some(v) => Some(IAttrValue::Value(chars_to_string(v.as_slice()), a.quote)),
                    None => Some(IAttrValue::True),
                }
            },
        }
    }

    /// The node has the attribute named `name`.
    pub fn has_attribute(&self, i: usize, name: &str) -> (r: bool)
        requires
            self.wf(),
            self.has_meta(i as int),
        ensures
            r == (self.attr_result(i as int, name@) is Some),
    {
        self.get_attribute(i, name).is_some()
    }

    /// The attributes of node `i`, one for each name (ascii case ignored)
    /// in the order the names first appear: the lowercase name and the
    /// value of the first attribute written with it.
    pub fn get_attributes(&self, i: usize) -> (r: Vec<(String, IAttrValue)>)
        requires
            self.wf(),
            self.valid(i as int),
        ensures
            r@.len() == self@[i as int].attr_map.len(),
            forall|k: int|
                0 <= k < r@.len() ==> {
                    let e = self@[i as int].attr_map[k];
                    let a = self@[i as int].attrs[e.1 as int];
                    &&& (#[trigger] r@[k]).0@ == e.0
                    &&& iattr_view(Some(r@[k].1)) == match a.value {
                        Some(v) => Some((Some(v), a.quote)),
                        None => Some((None, None)),
                    }
                },
    {
        let n = &self.nodes[i];
        let mut r: Vec<(String, IAttrValue)> = Vec::new();
        let mut k: usize = 0;
        while k < n.attr_map.len()
            invariant
                self.wf(),
                self.valid(i as int),
                *n == self.nodes@[i as int],
                k <= n.attr_map@.len(),
                r@.len() == k,
                forall|j: int|
                    0 <= j < k ==> {
                        let e = self@[i as int].attr_map[j];
                        let a = self@[i as int].attrs[e.1 as int];
                        &&& (#[trigger] r@[j]).0@ == e.0
                        &&& iattr_view(Some(r@[j].1)) == match a.value {
                            Some(v) => Some((Some(v), a.quote)),
                            None => Some((None, None)),
                        }
                    },
            decreases n.attr_map@.len() - k,
        {
            let p = n.attr_map[k].1;
            assert(p < n.attrs@.len());
            let a = &n.attrs[p];
            assert(self@[i as int].attrs[p as int] == a@);
            assert(self@[i as int].attr_map[k as int].0 == n.attr_map@[k as int].0@);
            let name = chars_to_string(n.attr_map[k].0.as_slice());
            let v = match &a.value {
                Some(t) => IAttrValue::Value(chars_to_string(t.as_slice()), a.quote),
                None => IAttrValue::True,
            };
            r.push((name, v));
            k += 1;
        }
        r
    }
}


pub open spec fn opt_str(o: Option<&str>) -> Option<Seq<char>> {
    match o {
        Some(s) => Some(s@),
        None => None,
    }
}

/// Node `n` after setting the attribute `name` to `value`: an existing
/// attribute (ascii case ignored) takes the new value and keeps its key and
/// quote; a new one is added with the key as given.
pub open spec fn set_attr_node(n: NodeV, name: Seq<char>, value: Option<Seq<char>>) -> NodeV {
    let lname = spec_lower_seq(name);
    let q = match value {
        Some(v) => quote_run(v),
        None => QuoteState { found: false, quote: '"', need: false, out: Seq::empty() },
    };
    let newv = match value {
        Some(v) => Some(q.out),
        None => None,
    };
    match map_find(n.attr_map, lname) {
        Some(p) => NodeV { attrs: n.attrs.update(p as int, AttrV { value: newv, ..n.attrs[p as int] }), ..n },
        None => NodeV {
            attr_map: n.attr_map.push((lname, n.attrs.len() as usize)),
            attrs: n.attrs.push(
                AttrV {
                    key: Some(name),
                    value: newv,
                    quote: if value is Some {
                        Some(q.quote)
                    } else {
                        None
                    },
                    need_quote: q.need,
                },
            ),
            ..n
        },
    }
}

/// Node `n` after removing the attribute `name`: the attribute found by
/// its lowercase name is blanked, and the map entry for `name` as given is
/// dropped.
pub open spec fn remove_attr_node(n: NodeV, name: Seq<char>) -> NodeV {
    match map_find(n.attr_map, spec_lower_seq(name)) {
        None => n,
        Some(p) => NodeV {
            attrs: n.attrs.update(p as int, AttrV { key: None, value: None, quote: None, need_quote: false }),
            attr_map: map_remove(n.attr_map, name),
            ..n
        },
    }
}

proof fn lemma_map_remove_at(m: Seq<(Seq<char>, usize)>, key: Seq<char>, k: int)
    requires
        0 <= k < m.len(),
        m[k].0 == key,
        forall|j: int| 0 <= j < k ==> m[j].0 != key,
    ensures
        map_remove(m, key) == m.remove(k),
    decreases k,
{
    if k > 0 {
        lemma_map_remove_at(m.drop_first(), key, k - 1);
        assert(m.remove(k) =~= seq![m[0]] + m.drop_first().remove(k - 1));
    } else {
        assert(m.remove(0) =~= m.drop_first());
    }
}

proof fn lemma_map_remove_none(m: Seq<(Seq<char>, usize)>, key: Seq<char>)
    requires
        forall|j: int| 0 <= j < m.len() ==> m[j].0 != key,
    ensures
        map_remove(m, key) == m,
    decreases m.len(),
{
    if m.len() > 0 {
        lemma_map_remove_none(m.drop_first(), key);
        assert(seq![m[0]] + m.drop_first() =~= m);
    }
}

impl Document {
    /// The document with node `i` replaced by `n`; the rest as it was.
    pub open spec fn only_node_changed(&self, old: &Document, i: int, n: NodeV) -> bool {
        &&& self@ == old@.update(i, n)
        &&& self.ids == old.ids
        &&& self.rules == old.rules
        &&& self.splitter == old.splitter
    }

    /// Sets the attribute `name` of an element or doctype (see
    /// `set_attr_node`); other nodes are left as they are.
    pub fn set_attribute(&mut self, i: usize, name: &str, value: Option<&str>)
        requires
            old(self).wf(),
            old(self).valid(i as int),
        ensures
            final(self).wf(),
            final(self).only_node_changed(
                old(self),
                i as int,
                if old(self).has_meta(i as int) {
                    set_attr_node(old(self)@[i as int], name@, opt_str(value))
                } else {
                    old(self)@[i as int]
                },
            ),
    {
        if !(self.nodes[i].kind == NodeKind::Tag || self.nodes[i].kind == NodeKind::DocType) {
            assert(self@ =~= old(self)@.update(i as int, old(self)@[i as int]));
            return;
        }
        let lname = lower_chars(str_chars(name).as_slice());
        let (newv, quote, need): (Option<Vec<char>>, char, bool) = match value {
            Some(v) => {
                let (o, q, n) = quote_value(str_chars(v).as_slice());
                (Some(o), q, n)
            },
            None => (None, '"', false),
        };
        let ghost n0 = self@[i as int];
        let ghost target = set_attr_node(n0, name@, opt_str(value));
        match self.find_attr(i, &lname) {
            Some(p) => {
                let ghost a0 = self.nodes@[i as int].attrs@[p as int];
                self.nodes[i].attrs[p].value = newv;
                proof {
                    assert(self.nodes@[i as int].attrs@ == old(self).nodes@[i as int].attrs@.update(
                        p as int,
                        Attr { value: newv, ..a0 },
                    ));
                    assert(self.nodes@[i as int]@.attrs =~= target.attrs);
                    assert(self.nodes@[i as int]@ == target);
                }
            },
            None => {
                let idx = self.nodes[i].attrs.len();
                let key = str_chars(name);
                self.nodes[i].attr_map.push((lname, idx));
                let q = if value.is_some() {
                    Some(quote)
                } else {
                    None
                };
                self.nodes[i].attrs.push(Attr { key: Some(key), value: newv, quote: q, need_quote: need });
                proof {
                    assert(self.nodes@[i as int]@.attrs =~= target.attrs);
                    assert(self.nodes@[i as int]@.attr_map =~= target.attr_map);
                    assert(self.nodes@[i as int]@ == target);
                }
            },
        }
        proof {
            assert(self@ =~= old(self)@.update(i as int, target));
            assert forall|j: int, k: int|
                0 <= j < self.nodes@.len() && 0 <= k < self.nodes@[j].attr_map@.len() implies
                #[trigger] self.nodes@[j].attr_map@[k].1 < self.nodes@[j].attrs@.len() by {
                if j != i {
                    assert(self.nodes@[j] == old(self).nodes@[j]);
                } else if k < old(self).nodes@[j].attr_map@.len() {
                    assert(old(self).nodes@[j].attr_map@[k].1 < old(self).nodes@[j].attrs@.len());
                }
            }
            assert forall|j: int, k: int|
                #![trigger self.nodes@[j].children@[k]]
                0 <= j < self.nodes@.len() && 0 <= k < self.nodes@[j].children@.len() implies {
                    let c = self.nodes@[j].children@[k] as int;
                    &&& 0 <= c < self.nodes@.len()
                    &&& self.nodes@[c].parent == Some(j as usize)
                    &&& self.nodes@[c].index == k
                } by {
                assert(old(self).nodes@[j].children@[k] == self.nodes@[j].children@[k]);
            }
            assert forall|j: int|
                #![trigger self.nodes@[j].parent]
                0 <= j < self.nodes@.len() && self.nodes@[j].parent is Some implies {
                    let p = self.nodes@[j].parent.unwrap() as int;
                    &&& 0 <= p < self.nodes@.len()
                    &&& self.nodes@[j].index < self.nodes@[p].children@.len()
                    &&& self.nodes@[p].children@[self.nodes@[j].index as int] == j
                } by {
                assert(old(self).nodes@[j].parent == self.nodes@[j].parent);
                let p = self.nodes@[j].parent.unwrap() as int;
                assert(old(self).nodes@[p].children@ == self.nodes@[p].children@);
            }
        }
    }

    /// Removes the attribute `name` of an element or doctype (see
    /// `remove_attr_node`); other nodes are left as they are.
    pub fn remove_attribute(&mut self, i: usize, name: &str)
        requires
            old(self).wf(),
            old(self).valid(i as int),
        ensures
            final(self).wf(),
            final(self).only_node_changed(
                old(self),
                i as int,
                if old(self).has_meta(i as int) {
                    remove_attr_node(old(self)@[i as int], name@)
                } else {
                    old(self)@[i as int]
                },
            ),
    {
        if !(self.nodes[i].kind == NodeKind::Tag || self.nodes[i].kind == NodeKind::DocType) {
            assert(self@ =~= old(self)@.update(i as int, old(self)@[i as int]));
            return;
        }
        let lname = lower_chars(str_chars(name).as_slice());
        let ghost n0 = self@[i as int];
        match self.find_attr(i, &lname) {
            None => {
                assert(self@ =~= old(self)@.update(i as int, old(self)@[i as int]));
            },
            Some(p) => {
                let ghost target = remove_attr_node(n0, name@);
                self.nodes[i].attrs.set(p, Attr { key: None, value: None, quote: None, need_quote: false });
                let key = str_chars(name);
                let ghost m = self@[i as int].attr_map;
                let n = self.nodes[i].attr_map.len();
                let mut k: usize = 0;
                while k < n
                    invariant
                        self.valid(i as int),
                        self.nodes@.len() == old(self).nodes@.len(),
                        m == self@[i as int].attr_map,
                        n == m.len(),
                        k <= n,
                        forall|j: int| 0 <= j < k ==> m[j].0 != key@,
                    ensures
                        k <= n,
                        forall|j: int| 0 <= j < k ==> m[j].0 != key@,
                        k < n ==> m[k as int].0 == key@,
                    decreases n - k,
                {
                    if crate::chars::chars_eq(self.nodes[i].attr_map[k].0.as_slice(), key.as_slice()) {
                        assert(m[k as int].0 == self.nodes@[i as int].attr_map@[k as int].0@);
                        break;
                    }
                    k += 1;
                }
                if k < n {
                    proof {
                        lemma_map_remove_at(m, name@, k as int);
                    }
                    self.nodes[i].attr_map.remove(k);
                    assert(self@[i as int].attr_map =~= m.remove(k as int));
                } else {
                    proof {
                        lemma_map_remove_none(m, name@);
                    }
                }
                proof {
                    assert(self@[i as int].attrs =~= target.attrs);
                    assert(self@[i as int] == target);
                    assert(self@ =~= old(self)@.update(i as int, target));
                    assert forall|j: int, q: int|
                        0 <= j < self.nodes@.len() && 0 <= q < self.nodes@[j].attr_map@.len() implies
                        #[trigger] self.nodes@[j].attr_map@[q].1 < self.nodes@[j].attrs@.len() by {
                        if j != i {
                            assert(self.nodes@[j] == old(self).nodes@[j]);
                        } else if k < n {
                            let q0 = if q < k {
                                q
                            } else {
                                q + 1
                            };
                            assert(self.nodes@[j].attr_map@[q] == old(self).nodes@[j].attr_map@[q0]);
                            assert(old(self).nodes@[j].attr_map@[q0].1 < old(self).nodes@[j].attrs@.len());
                        } else {
                            assert(old(self).nodes@[j].attr_map@[q].1 < old(self).nodes@[j].attrs@.len());
                        }
                    }
                    assert forall|j: int, q: int|
                        #![trigger self.nodes@[j].children@[q]]
                        0 <= j < self.nodes@.len() && 0 <= q < self.nodes@[j].children@.len() implies {
                            let c = self.nodes@[j].children@[q] as int;
                            &&& 0 <= c < self.nodes@.len()
                            &&& self.nodes@[c].parent == Some(j as usize)
                            &&& self.nodes@[c].index == q
                        } by {
                        assert(old(self).nodes@[j].children@[q] == self.nodes@[j].children@[q]);
                    }
                    assert forall|j: int|
                        #![trigger self.nodes@[j].parent]
                        0 <= j < self.nodes@.len() && self.nodes@[j].parent is Some implies {
                            let p = self.nodes@[j].parent.unwrap() as int;
                            &&& 0 <= p < self.nodes@.len()
                            &&& self.nodes@[j].index < self.nodes@[p].children@.len()
                            &&& self.nodes@[p].children@[self.nodes@[j].index as int] == j
                        } by {
                        assert(old(self).nodes@[j].parent == self.nodes@[j].parent);
                        let p = self.nodes@[j].parent.unwrap() as int;
                        assert(old(self).nodes@[p].children@ == self.nodes@[p].children@);
                    }
                }
            },
        }
    }
}


/// An attribute value found by `attr_of`, as plain values.
pub open spec fn found_view(v: Option<(Option<Vec<char>>, Option<char>)>) -> Option<(Option<Seq<char>>, Option<char>)> {
    match v {
        None => None,
        Some((t, q)) => Some((opt_chars(t), q)),
    }
}

impl Document {
    /// The attribute named `name` of any node (see `attr_result`): its value
    /// and quote.
    pub fn attr_of(&self, i: usize, name: &[char]) -> (r: Option<(Option<Vec<char>>, Option<char>)>)
        requires
            self.wf(),
            self.valid(i as int),
        ensures
            found_view(r) == self.attr_result(i as int, name@),
    {
        let lname = lower_chars(name);
        match self.find_attr(i, &lname) {
            None => None,
            Some(p) => {
                let a = &self.nodes[i].attrs[p];
                assert(self@[i as int].attrs[p as int] == a@);
                match &a.value {
                    Some(v) => Some((Some(copy_chars(v.as_slice())), a.quote)),
                    None => Some((None, None)),
                }
            },
        }
    }
}

} // verus!
