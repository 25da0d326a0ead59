//! The bridge to the html parser and renderer: nodes of the parser's tree
//! are read into plain values, and plain values are made into parser nodes
//! to be rendered.
use crate::chars::spec_lower_seq;
use crate::dom::{Attr, NodeKind};
use rphtml::parser::NodeType;
use std::cell::RefCell;
use std::rc::Rc;
use vstd::prelude::*;

verus! {

#[verifier::external_type_specification]
#[verifier::external_body]
#[verifier::reject_recursive_types(T)]
pub struct ExRefCell<T: ?Sized>(RefCell<T>);

#[verifier::external_type_specification]
#[verifier::external_body]
pub struct ExParserNode(rphtml::parser::Node);

/// How the parser treats a text.
pub struct ParseOptions {
    pub case_sensitive_tagname: bool,
    pub allow_attr_key_starts_with_equal_sign: bool,
    pub allow_self_closing: bool,
    pub auto_fix_unclosed_tag: bool,
    pub auto_fix_unexpected_endtag: bool,
    pub auto_fix_unescaped_lt: bool,
}

impl Default for ParseOptions {
    /// All switches off: tag names in any case and nothing fixed.
    fn default() -> (r: ParseOptions)
        ensures
            !r.case_sensitive_tagname && !r.allow_attr_key_starts_with_equal_sign && !r.allow_self_closing,
            !r.auto_fix_unclosed_tag && !r.auto_fix_unexpected_endtag && !r.auto_fix_unescaped_lt,
    {
        ParseOptions {
            case_sensitive_tagname: false,
            allow_attr_key_starts_with_equal_sign: false,
            allow_self_closing: false,
            auto_fix_unclosed_tag: false,
            auto_fix_unexpected_endtag: false,
            auto_fix_unescaped_lt: false,
        }
    }
}

/// How the renderer writes a tree.
pub struct RenderOptions {
    pub minify_spaces: bool,
    pub lowercase_tagname: bool,
    pub remove_endtag_space: bool,
    pub remove_attr_quote: bool,
    pub remove_comment: bool,
    pub always_close_void: bool,
    pub inner_html: bool,
    pub decode_entity: bool,
    pub encode_content: bool,
}

impl RenderOptions {
    /// All options off.
    pub open spec fn spec_plain() -> RenderOptions {
        RenderOptions {
            minify_spaces: false,
            lowercase_tagname: false,
            remove_endtag_space: false,
            remove_attr_quote: false,
            remove_comment: false,
            always_close_void: false,
            inner_html: false,
            decode_entity: false,
            encode_content: false,
        }
    }

    /// All options off.
    pub fn plain() -> (r: RenderOptions)
        ensures
            r == Self::spec_plain(),
    {
        RenderOptions {
            minify_spaces: false,
            lowercase_tagname: false,
            remove_endtag_space: false,
            remove_attr_quote: false,
            remove_comment: false,
            always_close_void: false,
            inner_html: false,
            decode_entity: false,
            encode_content: false,
        }
    }
}

/// A node of the tree the parser builds, as plain values: its kind (none
/// for an end tag), whether it has a list of children, the tag name and
/// attributes of its `meta` (empty without one), its content, its
/// `self_closed` and `auto_fix` flags (false without a `meta`), the text of
/// its end tag, and its children.
pub struct PNode {
    pub kind: Option<NodeKind>,
    pub has_childs: bool,
    pub name: Seq<char>,
    pub attrs: Seq<crate::dom::AttrV>,
    pub content: Option<Seq<char>>,
    pub self_closed: bool,
    pub auto_fix: bool,
    pub end_tag: Option<Seq<char>>,
    pub children: Seq<PNode>,
}

/// The tree that `Doc::parse` builds of the text with the given options,
/// its root node: the parser reads the text and options alone.
pub uninterp spec fn parsed(html: Seq<char>, o: ParseOptions) -> PNode;

/// A node of a tree that the parser built, and the node it is as plain
/// values. Nothing changes the parser's tree once built, so what the
/// functions `read_*` read of the node is what its view holds.
pub struct ReadNode {
    handle: Rc<RefCell<rphtml::parser::Node>>,
    tree: Ghost<PNode>,
}

impl View for ReadNode {
    type V = PNode;

    closed spec fn view(&self) -> PNode {
        self.tree@
    }
}

/// The parser accepts the text with the given options.
pub uninterp spec fn parses(html: Seq<char>, o: ParseOptions) -> bool;

/// `Doc::parse` with the given options: the root of the tree (see
/// `parsed`), or the parser's error as text; whether it succeeds is named
/// `parses`.
#[verifier::external_body]
pub(crate) fn parse_root(html: &str, o: &ParseOptions) -> (r: Result<ReadNode, String>)
    ensures
        r is Ok == parses(html@, *o),
        r matches Ok(n) ==> n@ == parsed(html@, *o),
{
    let mut opts = rphtml::config::ParseOptions::default();
    opts.case_sensitive_tagname = o.case_sensitive_tagname;
    opts.allow_attr_key_starts_with_equal_sign = o.allow_attr_key_starts_with_equal_sign;
    opts.allow_self_closing = o.allow_self_closing;
    opts.auto_fix_unclosed_tag = o.auto_fix_unclosed_tag;
    opts.auto_fix_unexpected_endtag = o.auto_fix_unexpected_endtag;
    opts.auto_fix_unescaped_lt = o.auto_fix_unescaped_lt;
    match rphtml::parser::Doc::parse(html, opts) {
        Ok(doc) => Ok(ReadNode { handle: doc.get_root_node(), tree: Ghost(parsed(html@, *o)) }),
        Err(e) => Err(e.to_string()),
    }
}

/// The `node_type` of a parsed node; an end tag has none.
#[verifier::external_body]
pub(crate) fn read_kind(n: &ReadNode) -> (r: Option<NodeKind>)
    ensures
        r == n@.kind,
{
    match n.handle.borrow().node_type {
        NodeType::AbstractRoot => Some(NodeKind::Root),
        NodeType::HTMLDOCTYPE => Some(NodeKind::DocType),
        NodeType::Comment => Some(NodeKind::Comment),
        NodeType::Text => Some(NodeKind::Text),
        NodeType::SpacesBetweenTag => Some(NodeKind::Spaces),
        NodeType::Tag => Some(NodeKind::Tag),
        NodeType::TagEnd => None,
        NodeType::XMLCDATA => Some(NodeKind::CData),
    }
}

/// The `childs` of a parsed node, none where it has no list.
#[verifier::external_body]
pub(crate) fn read_children(n: &ReadNode) -> (r: Vec<ReadNode>)
    ensures
        r@.len() == n@.children.len(),
        forall|k: int| 0 <= k < r@.len() ==> (#[trigger] r@[k])@ == n@.children[k],
{
    match &n.handle.borrow().childs {
        Some(childs) => childs.iter().enumerate().map(
            |(k, c)| ReadNode { handle: Rc::clone(c), tree: Ghost(n.tree@.children[k as int]) },
        ).collect(),
        None => Vec::new(),
    }
}

/// The parsed node has a list of children (possibly empty).
#[verifier::external_body]
pub(crate) fn read_has_childs(n: &ReadNode) -> (r: bool)
    ensures
        r == n@.has_childs,
{
    n.handle.borrow().childs.is_some()
}

/// The tag name in the `meta` of a parsed node, empty where it has none.
#[verifier::external_body]
pub(crate) fn read_name(n: &ReadNode) -> (r: Vec<char>)
    ensures
        r@ == n@.name,
{
    match &n.handle.borrow().meta {
        Some(meta) => meta.borrow().name.clone(),
        None => Vec::new(),
    }
}

/// The attributes in the `meta` of a parsed node, as plain values.
#[verifier::external_body]
pub(crate) fn read_attrs(n: &ReadNode) -> (r: Vec<Attr>)
    ensures
        r@.map_values(|a: Attr| a@) == n@.attrs,
{
    match &n.handle.borrow().meta {
        Some(meta) => meta.borrow().attrs.iter().map(|a| Attr {
            key: a.key.as_ref().map(|k| k.content.clone()),
            value: a.value.as_ref().map(|v| v.content.clone()),
            quote: a.quote,
            need_quote: a.need_quote,
        }).collect(),
        None => Vec::new(),
    }
}

/// The `content` of a parsed node.
#[verifier::external_body]
pub(crate) fn read_content(n: &ReadNode) -> (r: Option<Vec<char>>)
    ensures
        crate::dom::opt_chars(r) == n@.content,
{
    n.handle.borrow().content.clone()
}

/// The `self_closed` and `auto_fix` flags in the `meta` of a parsed node.
#[verifier::external_body]
pub(crate) fn read_flags(n: &ReadNode) -> (r: (bool, bool))
    ensures
        r == (n@.self_closed, n@.auto_fix),
{
    match &n.handle.borrow().meta {
        Some(meta) => (meta.borrow().self_closed, meta.borrow().auto_fix),
        None => (false, false),
    }
}

/// The `content` of the end tag of a parsed node.
#[verifier::external_body]
pub(crate) fn read_end_tag(n: &ReadNode) -> (r: Option<Vec<char>>)
    ensures
        crate::dom::opt_chars(r) == n@.end_tag,
{
    match &n.handle.borrow().end_tag {
        Some(e) => e.borrow().content.clone(),
        None => None,
    }
}

/// A tree made for the renderer, as plain values.
pub struct RTree {
    pub kind: NodeKind,
    pub has_meta: bool,
    pub name: Seq<char>,
    pub attrs: Seq<crate::dom::AttrV>,
    pub self_closed: bool,
    pub auto_fix: bool,
    pub content: Option<Seq<char>>,
    pub end_tag: Option<Seq<char>>,
    pub children: Seq<RTree>,
}

/// A node made for the renderer, and the tree it stands for.
pub struct BuiltNode {
    handle: Rc<RefCell<rphtml::parser::Node>>,
    tree: Ghost<RTree>,
}

impl View for BuiltNode {
    type V = RTree;

    closed spec fn view(&self) -> RTree {
        self.tree@
    }
}

/// The renderer finds in the node what it reads for its kind.
pub open spec fn complete(t: RTree) -> bool {
    &&& (t.kind == NodeKind::Text || t.kind == NodeKind::Spaces) ==> t.content is Some
    &&& (t.kind == NodeKind::Tag || t.kind == NodeKind::DocType) ==> t.has_meta
}

/// The number of trees that are elements.
pub open spec fn count_tags(childs: Seq<RTree>) -> nat
    decreases childs.len(),
{
    if childs.len() == 0 {
        0
    } else {
        count_tags(childs.drop_last()) + if childs.last().kind == NodeKind::Tag {
            1nat
        } else {
            0nat
        }
    }
}

/// What the renderer writes of a tree with the given options, as html or,
/// with `inner_text`, as text.
pub uninterp spec fn rendered(t: RTree, o: RenderOptions, inner_text: bool) -> Seq<char>;

/// The tree of a new node of the given kind and content.
pub open spec fn fresh_tree(kind: NodeKind, content: Option<Seq<char>>) -> RTree {
    RTree {
        kind,
        has_meta: false,
        name: Seq::empty(),
        attrs: Seq::empty(),
        self_closed: false,
        auto_fix: false,
        content,
        end_tag: None,
        children: Seq::empty(),
    }
}

/// `Node::new` of the given kind with the given `content`.
#[verifier::external_body]
pub(crate) fn new_node(kind: NodeKind, content: Option<Vec<char>>) -> (r: BuiltNode)
    ensures
        r@ == fresh_tree(kind, crate::dom::opt_chars(content)),
{
    let ghost t = fresh_tree(kind, crate::dom::opt_chars(content));
    let node_type = match kind {
        NodeKind::Root => NodeType::AbstractRoot,
        NodeKind::DocType => NodeType::HTMLDOCTYPE,
        NodeKind::Comment => NodeType::Comment,
        NodeKind::Text => NodeType::Text,
        NodeKind::Spaces => NodeType::SpacesBetweenTag,
        NodeKind::Tag => NodeType::Tag,
        NodeKind::CData => NodeType::XMLCDATA,
    };
    let mut node = rphtml::parser::Node::new(node_type, 0);
    node.content = content;
    BuiltNode { handle: Rc::new(RefCell::new(node)), tree: Ghost(t) }
}

/// Sets the `meta` of a made node: tag name, no attributes, `self_closed`
/// and `auto_fix`.
#[verifier::external_body]
pub(crate) fn set_meta(n: &mut BuiltNode, name: &Vec<char>, self_closed: bool, auto_fix: bool)
    ensures
        final(n)@ == (RTree { has_meta: true, name: name@, attrs: Seq::empty(), self_closed, auto_fix, ..old(n)@ }),
{
    let mut meta = rphtml::parser::TagMeta::default();
    meta.name = name.clone();
    meta.self_closed = self_closed;
    meta.auto_fix = auto_fix;
    n.handle.borrow_mut().meta = Some(RefCell::new(meta));
    n.tree = Ghost(RTree { has_meta: true, name: name@, attrs: Seq::empty(), self_closed, auto_fix, ..n.tree@ });
}

/// Adds an attribute to the `meta` of a made node.
#[verifier::external_body]
pub(crate) fn push_attr(n: &mut BuiltNode, a: &Attr)
    requires
        old(n)@.has_meta,
    ensures
        final(n)@ == (RTree { attrs: old(n)@.attrs.push(a@), ..old(n)@ }),
{
    let attr = rphtml::parser::Attr {
        key: a.key.as_ref().map(|k| rphtml::parser::AttrData { content: k.clone() }),
        value: a.value.as_ref().map(|v| rphtml::parser::AttrData { content: v.clone() }),
        quote: a.quote,
        need_quote: a.need_quote,
    };
    if let Some(meta) = &n.handle.borrow().meta {
        meta.borrow_mut().attrs.push(attr);
    }
    n.tree = Ghost(RTree { attrs: n.tree@.attrs.push(a@), ..n.tree@ });
}

/// Sets the end tag of a made node: an end tag node with the given text.
#[verifier::external_body]
pub(crate) fn set_end_tag(n: &mut BuiltNode, text: &Vec<char>)
    ensures
        final(n)@ == (RTree { end_tag: Some(text@), ..old(n)@ }),
{
    let mut end = rphtml::parser::Node::new(NodeType::TagEnd, 0);
    end.content = Some(text.clone());
    n.handle.borrow_mut().end_tag = Some(Rc::new(RefCell::new(end)));
    n.tree = Ghost(RTree { end_tag: Some(text@), ..n.tree@ });
}

/// Sets the `childs` of a made node to a list that is not empty (the
/// renderer reads the last child of a list that is there, so a node without
/// children keeps no list).
#[verifier::external_body]
pub(crate) fn set_children(n: &mut BuiltNode, childs: Vec<BuiltNode>)
    requires
        childs@.len() > 0,
        forall|k: int| 0 <= k < childs@.len() ==> complete(#[trigger] childs@[k]@),
    ensures
        final(n)@ == (RTree { children: childs@.map_values(|c: BuiltNode| c@), ..old(n)@ }),
{
    let ghost kids = childs@.map_values(|c: BuiltNode| c@);
    let list: Vec<Rc<RefCell<rphtml::parser::Node>>> = childs.into_iter().map(|c| c.handle).collect();
    n.handle.borrow_mut().childs = Some(list);
    n.tree = Ghost(RTree { children: kids, ..n.tree@ });
}

/// `Node::build` of a made node with the given options: the tree written
/// as html or as text (see `rendered`). The renderer panics on an inner
/// html of a node other than an element or a root, on an inner text of a
/// node other than an element, comment, cdata or root, and on either of a
/// root with children but not exactly one element child; those calls are
/// left out.
#[verifier::external_body]
pub(crate) fn build(n: &BuiltNode, o: &RenderOptions, inner_text: bool) -> (r: Vec<char>)
    requires
        complete(n@),
        !(inner_text && o.inner_html),
        o.inner_html ==> (n@.kind == NodeKind::Tag || n@.kind == NodeKind::Root),
        inner_text ==> (n@.kind == NodeKind::Tag || n@.kind == NodeKind::Comment || n@.kind == NodeKind::CData
            || n@.kind == NodeKind::Root),
        (o.inner_html || inner_text) && n@.kind == NodeKind::Root ==> (n@.children.len() == 0 || count_tags(
            n@.children,
        ) == 1),
    ensures
        r@ == rendered(n@, *o, inner_text),
{
    let mut opts = rphtml::config::RenderOptions::default();
    opts.minify_spaces = o.minify_spaces;
    opts.lowercase_tagname = o.lowercase_tagname;
    opts.remove_endtag_space = o.remove_endtag_space;
    opts.remove_attr_quote = o.remove_attr_quote;
    opts.remove_comment = o.remove_comment;
    opts.always_close_void = o.always_close_void;
    opts.inner_html = o.inner_html;
    opts.decode_entity = o.decode_entity;
    opts.encode_content = o.encode_content;
    n.handle.borrow().build(&opts, inner_text)
}

/// The tag name is `script`, `style`, `textarea` or `title`, ascii case
/// ignored: a tag whose content is raw text.
pub open spec fn spec_content_tag(name: Seq<char>) -> bool {
    let l = spec_lower_seq(name);
    l == seq!['s', 'c', 'r', 'i', 'p', 't'] || l == seq!['s', 't', 'y', 'l', 'e'] || l == seq![
        't',
        'e',
        'x',
        't',
        'a',
        'r',
        'e',
        'a',
    ] || l == seq!['t', 'i', 't', 'l', 'e']
}

/// A lowercase void tag name: one whose element has no content.
pub open spec fn spec_void_tag(l: Seq<char>) -> bool {
    l == seq!['i', 'm', 'g'] || l == seq!['i', 'n', 'p', 'u', 't'] || l == seq!['m', 'e', 't', 'a'] || l == seq![
        'l',
        'i',
        'n',
        'k',
    ] || l == seq!['b', 'r'] || l == seq!['h', 'r'] || l == seq!['c', 'o', 'l'] || l == seq!['b', 'a', 's', 'e']
        || l == seq!['p', 'a', 'r', 'a', 'm'] || l == seq!['s', 'o', 'u', 'r', 'c', 'e'] || l == seq!['a', 'r', 'e', 'a']
        || l == seq!['e', 'm', 'b', 'e', 'd'] || l == seq!['t', 'r', 'a', 'c', 'k'] || l == seq!['w', 'b', 'r']
}

/// A node of kind `kind` may go into an element named `name`: never into a
/// void element; only text into a `textarea` or `title` (written in
/// lowercase); cdata only into `svg` or `math`.
pub open spec fn spec_allow_insert(name: Seq<char>, kind: NodeKind) -> bool {
    let l = spec_lower_seq(name);
    if spec_void_tag(l) {
        false
    } else if name == seq!['t', 'e', 'x', 't', 'a', 'r', 'e', 'a'] || name == seq!['t', 'i', 't', 'l', 'e'] {
        kind == NodeKind::Text || kind == NodeKind::Spaces
    } else if kind == NodeKind::CData {
        l == seq!['s', 'v', 'g'] || l == seq!['m', 'a', 't', 'h']
    } else {
        true
    }
}

/// The parser's `is_content_tag` with lowercase names: the tag holds raw
/// text (see `spec_content_tag`).
#[verifier::external_body]
pub(crate) fn is_content_tag(name: &[char]) -> (r: bool)
    ensures
        r == spec_content_tag(name@),
{
    rphtml::parser::is_content_tag(name, &Some(rphtml::parser::NameCase::Lower))
}

/// The parser's `allow_insert`: a node of kind `kind` may go into an
/// element named `name` (see `spec_allow_insert`).
#[verifier::external_body]
pub(crate) fn allow_insert(name: &[char], kind: NodeKind) -> (r: bool)
    ensures
        r == spec_allow_insert(name@, kind),
{
    let node_type = match kind {
        NodeKind::Root => NodeType::AbstractRoot,
        NodeKind::DocType => NodeType::HTMLDOCTYPE,
        NodeKind::Comment => NodeType::Comment,
        NodeKind::Text => NodeType::Text,
        NodeKind::Spaces => NodeType::SpacesBetweenTag,
        NodeKind::Tag => NodeType::Tag,
        NodeKind::CData => NodeType::XMLCDATA,
    };
    rphtml::parser::allow_insert(name, node_type)
}

} // verus!
