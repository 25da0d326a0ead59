//! Entry points: loading a text into a document and its set of the root.
use crate::chars::str_chars;
use crate::dom::{map_find, Document, NodeKind};
use crate::elements::Elements;
use crate::html::{parse_root, parsed, read_kind, rendered, ParseOptions, RenderOptions};
use crate::load::{check_tree, load_options, load_refused, loaded, map_lookup, map_view, parse_options, pt_rtree, pt_size, readable};
use crate::mutate::same_setup;
use vstd::prelude::*;

verus! {

/// The entry of the api.
pub struct Vis;

impl Vis {
    /// Parses the html text with the library's options (see
    /// `Document::parse`): the document and the set of its root.
    pub fn load(html: &str) -> (r: Result<(Document, Elements), String>)
        ensures
            r matches Ok((d, e)) ==> loaded(d, parsed(html@, load_options())) && e@ == seq![0usize],
            r matches Err(e) ==> load_refused(e@, html@, load_options()),
            r is Ok <==> readable(html@, load_options()),
    {
        match Document::parse(html) {
            Ok(d) => Ok((d, Elements { nodes: vec![0] })),
            Err(e) => Err(e),
        }
    }

    /// Parses the html text with the given options (see
    /// `Document::parse_with`): the document and the set of its root.
    pub fn load_options(html: &str, options: ParseOptions) -> (r: Result<(Document, Elements), String>)
        ensures
            r matches Ok((d, e)) ==> loaded(d, parsed(html@, options)) && e@ == seq![0usize],
            r matches Err(e) ==> load_refused(e@, html@, options),
            r is Ok <==> readable(html@, options),
    {
        match Document::parse_with(html, &options) {
            Ok(d) => Ok((d, Elements { nodes: vec![0] })),
            Err(e) => Err(e),
        }
    }

    /// `load`, where an error goes to `handle` instead of back to the
    /// caller: nothing comes back then.
    pub fn load_catch<F: Fn(String)>(html: &str, handle: F) -> (r: Option<(Document, Elements)>)
        requires
            forall|e: String| call_requires(handle, (e,)),
        ensures
            r matches Some((d, e)) ==> loaded(d, parsed(html@, load_options())) && e@ == seq![0usize],
            r is None ==> exists|e: String| call_ensures(handle, (e,), ()) && load_refused(e@, html@, load_options()),
            r is Some <==> readable(html@, load_options()),
    {
        match Vis::load(html) {
            Ok(v) => Some(v),
            Err(e) => {
                handle(e);
                None
            },
        }
    }

    /// `load_options`, where an error goes to `handle` instead of back to
    /// the caller: nothing comes back then.
    pub fn load_options_catch<F: Fn(String)>(html: &str, options: ParseOptions, handle: F) -> (r: Option<(Document, Elements)>)
        requires
            forall|e: String| call_requires(handle, (e,)),
        ensures
            r matches Some((d, e)) ==> loaded(d, parsed(html@, options)) && e@ == seq![0usize],
            r is None ==> exists|e: String| call_ensures(handle, (e,), ()) && load_refused(e@, html@, options),
            r is Some <==> readable(html@, options),
    {
        match Vis::load_options(html, options) {
            Ok(v) => Some(v),
            Err(e) => {
                handle(e);
                None
            },
        }
    }

    /// Parses the html text as `load` does into the document `d`, as a
    /// fragment of its own (see `Document::load_fragment`): the set of the
    /// fragment's root.
    pub fn load_into(d: &mut Document, html: &str) -> (r: Result<Elements, String>)
        requires
            old(d).wf(),
        ensures
            final(d).wf(),
            same_setup(final(d), old(d)),
            r is Err ==> final(d)@ == old(d)@,
            r matches Ok(e) ==> e@ == seq![old(d)@.len() as usize] && fragment_added(
                old(d),
                final(d),
                parsed(html@, load_options()),
            ),
            r matches Err(e) ==> fragment_refused(e@, html@, old(d)@.len()),
            r is Ok <==> fragment_fits(html@, old(d)@.len()),
    {
        match d.load_fragment(html) {
            Ok(x) => Ok(Elements { nodes: vec![x] }),
            Err(e) => Err(e),
        }
    }

    /// The set of one node.
    pub fn dom(ele: usize) -> (r: Elements)
        ensures
            r@ == seq![ele],
    {
        Elements { nodes: vec![ele] }
    }
}

/// The text can be loaded (see `readable`) as a fragment into a document
/// of `len` nodes: the document has room for its nodes.
pub open spec fn fragment_fits(html: Seq<char>, len: nat) -> bool {
    readable(html, load_options()) && len + pt_size(parsed(html, load_options())) < usize::MAX - 1
}

/// Why loading `html` as a fragment into a document of `len` nodes failed:
/// as a document would (see `load_refused`), or the document has no room
/// left for its nodes.
pub open spec fn fragment_refused(e: Seq<char>, html: Seq<char>, len: nat) -> bool {
    ||| load_refused(e, html, load_options())
    ||| readable(html, load_options()) && len + pt_size(parsed(html, load_options())) >= usize::MAX - 1 && e
        == "the document is full"@
}

/// `d` is `old` with the nodes read of the parsed tree `t` added after its
/// nodes: the renderer is given the tree of `t` for the first of them, a
/// new root without a parent.
pub open spec fn fragment_added(old: &Document, d: &Document, t: crate::html::PNode) -> bool {
    let x = old@.len() as int;
    &&& d@.len() == x + pt_size(t)
    &&& d@.take(x) == old@
    &&& d@[x].parent is None
    &&& forall|f: nat| #[trigger] d.rtree(x, f) == pt_rtree(t, f)
}

impl Document {
    /// Parses the html text with the library's options and adds the nodes
    /// of its tree after the nodes of the document (see `read_sub`): the
    /// position of the new root, which has no parent. A text that cannot be
    /// loaded as a document gives the same error, and one that does not
    /// fit gives an error; the document is left as it was then.
    pub fn load_fragment(&mut self, html: &str) -> (r: Result<usize, String>)
        requires
            old(self).wf(),
        ensures
            final(self).wf(),
            same_setup(final(self), old(self)),
            r is Err ==> final(self)@ == old(self)@,
            r matches Ok(x) ==> x == old(self)@.len() && fragment_added(old(self), final(self), parsed(html@, load_options())),
            r matches Err(e) ==> fragment_refused(e@, html@, old(self)@.len()),
            r is Ok <==> fragment_fits(html@, old(self)@.len()),
    {
        let opts = parse_options();
        let root = match parse_root(html, &opts) {
            Ok(root) => root,
            Err(e) => {
                return Err(e);
            },
        };
        match read_kind(&root) {
            Some(NodeKind::Root) => {},
            _ => {
                return Err(String::from_str("the parsed tree has no root"));
            },
        }
        let size = match check_tree(&root, usize::MAX - 2) {
            Some(s) => s,
            None => {
                return Err(String::from_str("the parsed tree could not be read"));
            },
        };
        if size >= usize::MAX - 1 - self.nodes.len() {
            return Err(String::from_str("the document is full"));
        }
        let x = self.read_sub(&root);
        Ok(x)
    }

    /// The set of the root.
    pub fn elements(&self) -> (r: Elements)
        ensures
            r@ == seq![0usize],
    {
        Elements { nodes: vec![0] }
    }

    /// The root node.
    pub fn get_root_node(&self) -> (r: usize)
        ensures
            r == 0,
    {
        0
    }

    /// The node recorded for the id when the document was loaded (see
    /// `collect_ids` in the loader): the last node written with it.
    pub fn get_element_by_id(&self, id: &str) -> (r: Option<usize>)
        requires
            self.wf(),
        ensures
            r == map_find(map_view(self.ids@), id@),
            r matches Some(x) ==> self.valid(x as int),
    {
        let key = str_chars(id);
        map_lookup(&self.ids, key.as_slice())
    }

    /// The whole document as html, written as it was read.
    pub fn source_code(&self) -> (r: String)
        requires
            self.wf(),
        ensures
            r@ == rendered(self.render_tree(0), RenderOptions::spec_plain(), false),
    {
        let b = self.built(0, self.nodes.len());
        let o = RenderOptions::plain();
        let v = crate::html::build(&b, &o, false);
        crate::chars::chars_to_string(v.as_slice())
    }
}

} // verus!
