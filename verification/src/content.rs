//! The content and attributes of element sets: text, html, attributes.
use crate::chars::{chars_eq, chars_to_string, copy_chars, spec_trim, str_chars, trim_chars, vv};
use crate::utils::{
    class_list_to_chars, get_class_list_chars, removal_ok, retain_by_index, spec_class_list, spec_join_classes,
    spec_retain_by_index,
};
use crate::dom::{iattr_view, node_attr, opt_chars, opt_str, set_attr_node, remove_attr_node, Document, IAttrValue, NodeKind, NodeV};
use crate::elements::{all_valid, Elements};
use crate::html::rendered;
use vstd::prelude::*;

verus! {

/// The text of node `x`, entities decoded (see `Document::text_contents`).
pub open spec fn text_of(d: &Document, x: int) -> Seq<char> {
    rendered(
        d.render_tree(x),
        Document::text_options(),
        d.kind_of(x) == NodeKind::Tag || d.kind_of(x) == NodeKind::Comment,
    )
}

/// The inner html of node `x` (see `Document::inner_html`).
pub open spec fn inner_of(d: &Document, x: int) -> Seq<char> {
    rendered(d.render_tree(x), Document::inner_options(), false)
}

/// The outer html of node `x` (see `Document::outer_html`).
pub open spec fn outer_of(d: &Document, x: int) -> Seq<char> {
    rendered(d.render_tree(x), Document::outer_options(), false)
}

/// `f` of each node of `e`, joined in order.
pub open spec fn joined(e: Seq<usize>, f: spec_fn(usize) -> Seq<char>) -> Seq<char>
    decreases e.len(),
{
    if e.len() == 0 {
        Seq::empty()
    } else {
        joined(e.drop_last(), f) + f(e.last())
    }
}

/// The nodes after setting the attribute `name` of each node of `e` in turn
/// (elements and doctypes; others stay as they are).
pub open spec fn set_attr_all(ns: Seq<NodeV>, e: Seq<usize>, name: Seq<char>, value: Option<Seq<char>>) -> Seq<NodeV>
    decreases e.len(),
{
    if e.len() == 0 {
        ns
    } else {
        let prev = set_attr_all(ns, e.drop_last(), name, value);
        let x = e.last() as int;
        if prev[x].kind == NodeKind::Tag || prev[x].kind == NodeKind::DocType {
            prev.update(x, set_attr_node(prev[x], name, value))
        } else {
            prev
        }
    }
}

/// The nodes after removing the attribute `name` of each node of `e` in
/// turn (elements and doctypes; others stay as they are).
pub open spec fn remove_attr_all(ns: Seq<NodeV>, e: Seq<usize>, name: Seq<char>) -> Seq<NodeV>
    decreases e.len(),
{
    if e.len() == 0 {
        ns
    } else {
        let prev = remove_attr_all(ns, e.drop_last(), name);
        let x = e.last() as int;
        if prev[x].kind == NodeKind::Tag || prev[x].kind == NodeKind::DocType {
            prev.update(x, remove_attr_node(prev[x], name))
        } else {
            prev
        }
    }
}

/// Every node of `e` has a tag name and attributes.
pub open spec fn all_meta(d: &Document, e: Seq<usize>) -> bool {
    forall|k: int| 0 <= k < e.len() ==> d.has_meta(#[trigger] e[k] as int)
}

/// The document differs from `old` in its nodes alone, with the same
/// number of nodes of the same kinds.
pub open spec fn same_frame(d: &Document, old: &Document) -> bool {
    &&& d.ids == old.ids
    &&& d.rules == old.rules
    &&& d.splitter == old.splitter
    &&& d@.len() == old@.len()
    &&& forall|i: int| 0 <= i < d@.len() ==> (#[trigger] d@[i]).kind == old@[i].kind
}

/// Joins characters of the nodes of `e` (see `joined`), each given by
/// `part`.
fn join_parts(d: &Document, e: &Vec<usize>, which: u8) -> (r: Vec<char>)
    requires
        d.wf(),
        all_valid(d, e@),
        which == 1 ==> forall|k: int| 0 <= k < e@.len() ==> d.inner_ok(#[trigger] e@[k] as int),
    ensures
        r@ == joined(
            e@,
            |x: usize|
                if which == 0 {
                    text_of(d, x as int)
                } else if which == 1 {
                    inner_of(d, x as int)
                } else {
                    outer_of(d, x as int)
                },
        ),
{
    let ghost f = |x: usize|
        if which == 0 {
            text_of(d, x as int)
        } else if which == 1 {
            inner_of(d, x as int)
        } else {
            outer_of(d, x as int)
        };
    let mut r: Vec<char> = Vec::new();
    let mut i: usize = 0;
    assert(e@.take(0) =~= Seq::<usize>::empty());
    while i < e.len()
        invariant
            d.wf(),
            all_valid(d, e@),
            which == 1 ==> forall|k: int| 0 <= k < e@.len() ==> d.inner_ok(#[trigger] e@[k] as int),
            f == (|x: usize|
                if which == 0 {
                    text_of(d, x as int)
                } else if which == 1 {
                    inner_of(d, x as int)
                } else {
                    outer_of(d, x as int)
                }),
            i <= e@.len(),
            r@ == joined(e@.take(i as int), f),
        decreases e.len() - i,
    {
        let x = e[i];
        assert(d.valid(e@[i as int] as int));
        assert(e@.take(i + 1).drop_last() =~= e@.take(i as int));
        let mut part = if which == 0 {
            d.text_contents(x)
        } else if which == 1 {
            assert(d.inner_ok(e@[i as int] as int));
            str_chars(d.inner_html(x).as_str())
        } else {
            str_chars(d.outer_html(x).as_str())
        };
        let ghost before = r@;
        r.append(&mut part);
        assert(r@ =~= before + f(x));
        i += 1;
    }
    assert(e@.take(i as int) =~= e@);
    r
}

/// The value of a node's class attribute, where it has one with a value.
pub open spec fn node_class(n: NodeV) -> Option<Seq<char>> {
    match node_attr(n, "class"@) {
        Some((Some(v), _)) => Some(v),
        _ => None,
    }
}

/// Every name of `list` is a class name of the class value `v`.
pub open spec fn has_all_classes(v: Seq<char>, list: Seq<Seq<char>>) -> bool {
    forall|k: int| 0 <= k < list.len() ==> spec_class_list(v).contains(#[trigger] list[k])
}

/// The node has a class value with every name of `list`.
pub open spec fn class_has_all(n: NodeV, list: Seq<Seq<char>>) -> bool {
    match node_class(n) {
        Some(v) => has_all_classes(v, list),
        None => false,
    }
}

/// The first position of `c` in `orig`.
pub open spec fn first_pos(orig: Seq<Seq<char>>, c: Seq<char>) -> Option<int>
    decreases orig.len(),
{
    if orig.len() == 0 {
        None
    } else {
        match first_pos(orig.drop_last(), c) {
            Some(k) => Some(k),
            None => if orig.last() == c {
                Some(orig.len() - 1)
            } else {
                None
            },
        }
    }
}

/// `orig` with the names of `list` it lacks added at the end, in order,
/// each once.
pub open spec fn append_missing(orig: Seq<Seq<char>>, list: Seq<Seq<char>>) -> Seq<Seq<char>>
    decreases list.len(),
{
    if list.len() == 0 {
        orig
    } else {
        let o = append_missing(orig, list.drop_last());
        if o.contains(list.last()) {
            o
        } else {
            o.push(list.last())
        }
    }
}

/// For each name of `list` found in `orig`, its first position there.
pub open spec fn found_positions(orig: Seq<Seq<char>>, list: Seq<Seq<char>>) -> Seq<usize>
    decreases list.len(),
{
    if list.len() == 0 {
        Seq::empty()
    } else {
        let r = found_positions(orig, list.drop_last());
        match first_pos(orig, list.last()) {
            Some(k) => r.push(k as usize),
            None => r,
        }
    }
}

/// The names of `list` not found in `orig`, in order.
pub open spec fn missing_names(orig: Seq<Seq<char>>, list: Seq<Seq<char>>) -> Seq<Seq<char>>
    decreases list.len(),
{
    if list.len() == 0 {
        Seq::empty()
    } else {
        let r = missing_names(orig, list.drop_last());
        if first_pos(orig, list.last()) is None {
            r.push(list.last())
        } else {
            r
        }
    }
}

/// The class value that `add_class` gives a node: its names with the
/// missing names of `list` added, or the text `raw` where it has no class
/// value.
pub open spec fn add_class_value(n: NodeV, list: Seq<Seq<char>>, raw: Seq<char>) -> Option<Seq<char>> {
    match node_class(n) {
        Some(v) => Some(spec_join_classes(append_missing(spec_class_list(v), list))),
        None => Some(raw),
    }
}

/// The class value that `remove_class` gives a node: its names with the
/// positions of the names of `list` removed one after the other; none where
/// nothing is found.
pub open spec fn remove_class_value(n: NodeV, list: Seq<Seq<char>>) -> Option<Seq<char>> {
    match node_class(n) {
        Some(v) => {
            let o = spec_class_list(v);
            let pos = found_positions(o, list);
            if pos.len() > 0 {
                Some(spec_join_classes(spec_retain_by_index(o, pos)))
            } else {
                None
            }
        },
        None => None,
    }
}

/// The class value that `toggle_class` gives a node: its names with those
/// of `list` it has removed and those it lacks added; the text `raw` where
/// it has no class value; none where nothing changes.
pub open spec fn toggle_class_value(n: NodeV, list: Seq<Seq<char>>, raw: Seq<char>) -> Option<Seq<char>> {
    match node_class(n) {
        Some(v) => {
            let o = spec_class_list(v);
            let pos = found_positions(o, list);
            let add = missing_names(o, list);
            if pos.len() > 0 || add.len() > 0 {
                Some(spec_join_classes(spec_retain_by_index(o, pos) + add))
            } else {
                None
            }
        },
        None => Some(raw),
    }
}

/// The removals that `remove_class` and `toggle_class` make on a node fall
/// inside its class list (see `removal_ok`).
pub open spec fn class_removal_ok(n: NodeV, list: Seq<Seq<char>>) -> bool {
    match node_class(n) {
        Some(v) => removal_ok(spec_class_list(v).len() as int, found_positions(spec_class_list(v), list)),
        None => true,
    }
}

/// Which class update a node gets.
pub enum ClassOp {
    Add,
    Remove,
    Toggle,
}

/// The class value that the update `op` gives a node (see the three
/// functions above).
pub open spec fn class_value(op: ClassOp, n: NodeV, list: Seq<Seq<char>>, raw: Seq<char>) -> Option<Seq<char>> {
    match op {
        ClassOp::Add => add_class_value(n, list, raw),
        ClassOp::Remove => remove_class_value(n, list),
        ClassOp::Toggle => toggle_class_value(n, list, raw),
    }
}

/// The nodes after the class update `op` of each node of `e` in turn.
pub open spec fn class_fold(ns: Seq<NodeV>, e: Seq<usize>, op: ClassOp, list: Seq<Seq<char>>, raw: Seq<char>) -> Seq<NodeV>
    decreases e.len(),
{
    if e.len() == 0 {
        ns
    } else {
        let prev = class_fold(ns, e.drop_last(), op, list, raw);
        let x = e.last() as int;
        match class_value(op, prev[x], list, raw) {
            Some(v) => prev.update(x, set_attr_node(prev[x], "class"@, Some(v))),
            None => prev,
        }
    }
}

/// Every removal of the class update of each node of `e` in turn falls
/// inside its class list.
pub open spec fn class_fold_ok(ns: Seq<NodeV>, e: Seq<usize>, op: ClassOp, list: Seq<Seq<char>>, raw: Seq<char>) -> bool
    decreases e.len(),
{
    if e.len() == 0 {
        true
    } else {
        class_fold_ok(ns, e.drop_last(), op, list, raw) && (op is Add || class_removal_ok(
            class_fold(ns, e.drop_last(), op, list, raw)[e.last() as int],
            list,
        ))
    }
}

/// The class names a class update uses: those of the text, trimmed first
/// but for `Add`.
pub open spec fn op_list(op: ClassOp, class_name: Seq<char>) -> Seq<Seq<char>> {
    match op {
        ClassOp::Add => spec_class_list(class_name),
        _ => spec_class_list(spec_trim(class_name)),
    }
}

/// The update changes nothing: no names for `Add`, an empty trimmed text
/// for the others.
pub open spec fn op_noop(op: ClassOp, class_name: Seq<char>) -> bool {
    match op {
        ClassOp::Add => spec_class_list(class_name).len() == 0,
        _ => spec_trim(class_name).len() == 0,
    }
}

/// The text a node without a class value gets: the text as given for
/// `Add`, trimmed for `Toggle`.
pub open spec fn op_raw(op: ClassOp, class_name: Seq<char>) -> Seq<char> {
    match op {
        ClassOp::Add => class_name,
        _ => spec_trim(class_name),
    }
}

/// See `first_pos`.
fn first_pos_exec(orig: &Vec<Vec<char>>, c: &Vec<char>) -> (r: Option<usize>)
    ensures
        r matches Some(k) ==> first_pos(vv(orig@), c@) == Some(k as int) && k < orig@.len(),
        r is None ==> first_pos(vv(orig@), c@) is None,
{
    let mut k: usize = 0;
    assert(vv(orig@).take(0) =~= Seq::<Seq<char>>::empty());
    while k < orig.len()
        invariant
            k <= orig@.len(),
            first_pos(vv(orig@).take(k as int), c@) is None,
        decreases orig.len() - k,
    {
        assert(vv(orig@).take(k + 1).drop_last() =~= vv(orig@).take(k as int));
        if chars_eq(orig[k].as_slice(), c.as_slice()) {
            proof {
                lemma_first_pos_prefix(vv(orig@), c@, k + 1);
            }
            return Some(k);
        }
        k += 1;
    }
    assert(vv(orig@).take(k as int) =~= vv(orig@));
    None
}

proof fn lemma_first_pos_prefix(s: Seq<Seq<char>>, c: Seq<char>, n: int)
    requires
        0 <= n <= s.len(),
        first_pos(s.take(n), c) is Some,
    ensures
        first_pos(s, c) == first_pos(s.take(n), c),
    decreases s.len() - n,
{
    if n < s.len() {
        assert(s.take(n + 1).drop_last() =~= s.take(n));
        lemma_first_pos_prefix(s, c, n + 1);
    } else {
        assert(s.take(n) =~= s);
    }
}

/// The class value that the update `op` gives a node whose class value is
/// `cls` (see `class_value`); `None` where nothing is set.
fn class_update(op: &ClassOp, cls: Option<&Vec<char>>, list: &Vec<Vec<char>>, raw: &Vec<char>) -> (r: Option<Vec<char>>)
    requires
        cls matches Some(v) ==> !(op is Add) ==> removal_ok(
            spec_class_list(v@).len() as int,
            found_positions(spec_class_list(v@), vv(list@)),
        ),
    ensures
        opt_chars(r) == match cls {
            Some(v) => match op {
                ClassOp::Add => Some(spec_join_classes(append_missing(spec_class_list(v@), vv(list@)))),
                ClassOp::Remove => {
                    let o = spec_class_list(v@);
                    let pos = found_positions(o, vv(list@));
                    if pos.len() > 0 {
                        Some(spec_join_classes(spec_retain_by_index(o, pos)))
                    } else {
                        None
                    }
                },
                ClassOp::Toggle => {
                    let o = spec_class_list(v@);
                    let pos = found_positions(o, vv(list@));
                    let add = missing_names(o, vv(list@));
                    if pos.len() > 0 || add.len() > 0 {
                        Some(spec_join_classes(spec_retain_by_index(o, pos) + add))
                    } else {
                        None
                    }
                },
            },
            None => match op {
                ClassOp::Remove => None,
                _ => Some(raw@),
            },
        },
{
    let v = match cls {
        Some(v) => v,
        None => {
            return match op {
                ClassOp::Remove => None,
                _ => Some(copy_chars(raw.as_slice())),
            };
        },
    };
    let mut orig = get_class_list_chars(v.as_slice());
    let ghost o = vv(orig@);
    let ghost l = vv(list@);
    match op {
        ClassOp::Add => {
            let mut i: usize = 0;
            assert(l.take(0) =~= Seq::<Seq<char>>::empty());
            while i < list.len()
                invariant
                    l == vv(list@),
                    o == spec_class_list(v@),
                    i <= list@.len(),
                    vv(orig@) == append_missing(o, l.take(i as int)),
                decreases list.len() - i,
            {
                assert(l.take(i + 1).drop_last() =~= l.take(i as int));
                assert(l.take(i + 1).last() == list@[i as int]@);
                let found = first_pos_exec(&orig, &list[i]);
                proof {
                    if found is None {
                        assert(!vv(orig@).contains(list@[i as int]@)) by {
                            if vv(orig@).contains(list@[i as int]@) {
                                let j = choose|j: int| 0 <= j < vv(orig@).len() && vv(orig@)[j] == list@[i as int]@;
                                lemma_first_pos_found(vv(orig@), list@[i as int]@, j);
                            }
                        }
                    } else {
                        assert(vv(orig@)[first_pos(vv(orig@), list@[i as int]@).unwrap()] == list@[i as int]@) by {
                            lemma_first_pos_at(vv(orig@), list@[i as int]@);
                        }
                    }
                }
                if found.is_none() {
                    let ghost before = vv(orig@);
                    orig.push(copy_chars(list[i].as_slice()));
                    assert(vv(orig@) =~= before.push(list@[i as int]@));
                }
                i += 1;
            }
            assert(l.take(i as int) =~= l);
            Some(class_list_to_chars(orig.as_slice()))
        },
        _ => {
            let mut pos: Vec<usize> = Vec::new();
            let mut add: Vec<Vec<char>> = Vec::new();
            let mut i: usize = 0;
            assert(l.take(0) =~= Seq::<Seq<char>>::empty());
            while i < list.len()
                invariant
                    l == vv(list@),
                    o == vv(orig@),
                    i <= list@.len(),
                    pos@ == found_positions(o, l.take(i as int)),
                    vv(add@) == missing_names(o, l.take(i as int)),
                decreases list.len() - i,
            {
                assert(l.take(i + 1).drop_last() =~= l.take(i as int));
                assert(l.take(i + 1).last() == list@[i as int]@);
                match first_pos_exec(&orig, &list[i]) {
                    Some(k) => {
                        pos.push(k);
                    },
                    None => {
                        let ghost before = vv(add@);
                        add.push(copy_chars(list[i].as_slice()));
                        assert(vv(add@) =~= before.push(list@[i as int]@));
                    },
                }
                i += 1;
            }
            assert(l.take(i as int) =~= l);
            let is_remove = match op {
                ClassOp::Remove => true,
                _ => false,
            };
            if pos.len() == 0 && (is_remove || add.len() == 0) {
                return None;
            }
            let ghost before = orig@;
            retain_by_index(&mut orig, pos.as_slice());
            proof {
                lemma_vv_retain(before, pos@);
            }
            if !is_remove {
                let ghost mid = vv(orig@);
                orig.append(&mut add);
                assert(vv(orig@) =~= mid + missing_names(o, l));
            }
            Some(class_list_to_chars(orig.as_slice()))
        },
    }
}

proof fn lemma_vv_retain(v: Seq<Vec<char>>, idx: Seq<usize>)
    requires
        removal_ok(v.len() as int, idx),
    ensures
        vv(spec_retain_by_index(v, idx)) == spec_retain_by_index(vv(v), idx),
    decreases idx.len(),
{
    if idx.len() > 0 {
        assert(removal_ok(v.len() as int, idx.drop_last()));
        lemma_vv_retain(v, idx.drop_last());
        lemma_retain_len(v, idx.drop_last());
        let prev = spec_retain_by_index(v, idx.drop_last());
        let k = idx.last() - (idx.len() - 1);
        assert(vv(prev.remove(k)) =~= vv(prev).remove(k));
    }
}

proof fn lemma_retain_len<T>(v: Seq<T>, idx: Seq<usize>)
    requires
        removal_ok(v.len() as int, idx),
    ensures
        spec_retain_by_index(v, idx).len() == v.len() - idx.len(),
    decreases idx.len(),
{
    if idx.len() > 0 {
        assert(removal_ok(v.len() as int, idx.drop_last()));
        lemma_retain_len(v, idx.drop_last());
        assert(idx.len() - 1 <= idx[idx.len() - 1]);
    }
}

pub(crate) proof fn lemma_first_pos_at(s: Seq<Seq<char>>, c: Seq<char>)
    requires
        first_pos(s, c) is Some,
    ensures
        0 <= first_pos(s, c).unwrap() < s.len(),
        s[first_pos(s, c).unwrap()] == c,
    decreases s.len(),
{
    if first_pos(s.drop_last(), c) is Some {
        lemma_first_pos_at(s.drop_last(), c);
        let k = first_pos(s.drop_last(), c).unwrap();
        assert(s[k] == s.drop_last()[k]);
    }
}

pub(crate) proof fn lemma_first_pos_found(s: Seq<Seq<char>>, c: Seq<char>, j: int)
    requires
        0 <= j < s.len(),
        s[j] == c,
    ensures
        first_pos(s, c) is Some,
    decreases s.len(),
{
    if j < s.len() - 1 {
        lemma_first_pos_found(s.drop_last(), c, j);
    }
}

impl Elements {
    /// The text of the elements joined, entities decoded.
    pub fn text(&self, d: &Document) -> (r: String)
        requires
            d.wf(),
            all_valid(d, self@),
        ensures
            r@ == joined(self@, |x: usize| text_of(d, x as int)),
    {
        let v = join_parts(d, &self.nodes, 0);
        assert(v@ =~= joined(self@, |x: usize| text_of(d, x as int))) by {
            assert((|x: usize|
                if 0u8 == 0 {
                    text_of(d, x as int)
                } else if 0u8 == 1 {
                    inner_of(d, x as int)
                } else {
                    outer_of(d, x as int)
                }) =~= (|x: usize| text_of(d, x as int)));
        }
        chars_to_string(v.as_slice())
    }

    /// The inner html of the first element; empty where there is none.
    pub fn html(&self, d: &Document) -> (r: String)
        requires
            d.wf(),
            all_valid(d, self@),
            self@.len() > 0 ==> d.inner_ok(self@[0] as int),
        ensures
            r@ == if self@.len() > 0 {
                inner_of(d, self@[0] as int)
            } else {
                Seq::empty()
            },
    {
        if self.nodes.len() > 0 {
            d.inner_html(self.nodes[0])
        } else {
            String::new()
        }
    }

    /// The inner html of the elements joined.
    pub fn htmls(&self, d: &Document) -> (r: String)
        requires
            d.wf(),
            all_valid(d, self@),
            forall|k: int| 0 <= k < self@.len() ==> d.inner_ok(#[trigger] self@[k] as int),
        ensures
            r@ == joined(self@, |x: usize| inner_of(d, x as int)),
    {
        let v = join_parts(d, &self.nodes, 1);
        assert(v@ =~= joined(self@, |x: usize| inner_of(d, x as int))) by {
            assert((|x: usize|
                if 1u8 == 0 {
                    text_of(d, x as int)
                } else if 1u8 == 1 {
                    inner_of(d, x as int)
                } else {
                    outer_of(d, x as int)
                }) =~= (|x: usize| inner_of(d, x as int)));
        }
        chars_to_string(v.as_slice())
    }

    /// The outer html of the first element; empty where there is none.
    pub fn outer_html(&self, d: &Document) -> (r: String)
        requires
            d.wf(),
            all_valid(d, self@),
        ensures
            r@ == if self@.len() > 0 {
                outer_of(d, self@[0] as int)
            } else {
                Seq::empty()
            },
    {
        if self.nodes.len() > 0 {
            d.outer_html(self.nodes[0])
        } else {
            String::new()
        }
    }

    /// The outer html of the elements joined.
    pub fn outer_htmls(&self, d: &Document) -> (r: String)
        requires
            d.wf(),
            all_valid(d, self@),
        ensures
            r@ == joined(self@, |x: usize| outer_of(d, x as int)),
    {
        let v = join_parts(d, &self.nodes, 2);
        assert(v@ =~= joined(self@, |x: usize| outer_of(d, x as int))) by {
            assert((|x: usize|
                if 2u8 == 0 {
                    text_of(d, x as int)
                } else if 2u8 == 1 {
                    inner_of(d, x as int)
                } else {
                    outer_of(d, x as int)
                }) =~= (|x: usize| outer_of(d, x as int)));
        }
        chars_to_string(v.as_slice())
    }

    /// The attribute `name` of the first element; none where there is no
    /// element.
    pub fn attr(&self, d: &Document, name: &str) -> (r: Option<IAttrValue>)
        requires
            d.wf(),
            self@.len() > 0 ==> d.has_meta(self@[0] as int),
        ensures
            iattr_view(r) == if self@.len() > 0 {
                node_attr(d@[self@[0] as int], name@)
            } else {
                None
            },
    {
        if self.nodes.len() > 0 {
            d.get_attribute(self.nodes[0], name)
        } else {
            None
        }
    }

    /// Some element has the attribute `name`.
    pub fn has_attr(&self, d: &Document, name: &str) -> (r: bool)
        requires
            d.wf(),
            all_meta(d, self@),
        ensures
            r == (exists|k: int| 0 <= k < self@.len() && node_attr(d@[#[trigger] self@[k] as int], name@) is Some),
    {
        let mut i: usize = 0;
        while i < self.nodes.len()
            invariant
                d.wf(),
                all_meta(d, self@),
                i <= self@.len(),
                forall|k: int| 0 <= k < i ==> node_attr(d@[#[trigger] self@[k] as int], name@) is None,
            decreases self.nodes.len() - i,
        {
            assert(d.has_meta(self@[i as int] as int));
            if d.has_attribute(self.nodes[i], name) {
                return true;
            }
            i += 1;
        }
        false
    }

    /// Sets the attribute `name` of each element in turn (see
    /// `set_attr_all`).
    pub fn set_attr(&self, d: &mut Document, name: &str, value: Option<&str>)
        requires
            old(d).wf(),
            all_valid(old(d), self@),
        ensures
            final(d).wf(),
            same_frame(final(d), old(d)),
            final(d)@ == set_attr_all(old(d)@, self@, name@, opt_str(value)),
    {
        let ghost d0 = *d;
        let mut i: usize = 0;
        assert(self@.take(0) =~= Seq::<usize>::empty());
        while i < self.nodes.len()
            invariant
                d.wf(),
                all_valid(&d0, self@),
                same_frame(d, &d0),
                i <= self@.len(),
                d@ == set_attr_all(d0@, self@.take(i as int), name@, opt_str(value)),
            decreases self.nodes.len() - i,
        {
            let x = self.nodes[i];
            assert(self@.take(i + 1).drop_last() =~= self@.take(i as int));
            assert(d0.valid(self@[i as int] as int));
            assert(d@[x as int] == d.nodes@[x as int]@);
            let ghost before = *d;
            d.set_attribute(x, name, value);
            assert(d@ == set_attr_all(d0@, self@.take(i + 1), name@, opt_str(value)));
            assert forall|j: int| 0 <= j < d@.len() implies (#[trigger] d@[j]).kind == d0@[j].kind by {
                assert(before@[j].kind == d0@[j].kind);
            }
            i += 1;
        }
        assert(self@.take(i as int) =~= self@);
    }

    /// Removes the attribute `name` of each element in turn (see
    /// `remove_attr_all`).
    pub fn remove_attr(&self, d: &mut Document, name: &str)
        requires
            old(d).wf(),
            all_valid(old(d), self@),
        ensures
            final(d).wf(),
            same_frame(final(d), old(d)),
            final(d)@ == remove_attr_all(old(d)@, self@, name@),
    {
        let ghost d0 = *d;
        let mut i: usize = 0;
        assert(self@.take(0) =~= Seq::<usize>::empty());
        while i < self.nodes.len()
            invariant
                d.wf(),
                all_valid(&d0, self@),
                same_frame(d, &d0),
                i <= self@.len(),
                d@ == remove_attr_all(d0@, self@.take(i as int), name@),
            decreases self.nodes.len() - i,
        {
            let x = self.nodes[i];
            assert(self@.take(i + 1).drop_last() =~= self@.take(i as int));
            assert(d0.valid(self@[i as int] as int));
            assert(d@[x as int] == d.nodes@[x as int]@);
            let ghost before = *d;
            d.remove_attribute(x, name);
            assert(d@ == remove_attr_all(d0@, self@.take(i + 1), name@));
            assert forall|j: int| 0 <= j < d@.len() implies (#[trigger] d@[j]).kind == d0@[j].kind by {
                assert(before@[j].kind == d0@[j].kind);
            }
            i += 1;
        }
        assert(self@.take(i as int) =~= self@);
    }
}

proof fn lemma_fold_ok_at(ns: Seq<NodeV>, e: Seq<usize>, op: ClassOp, list: Seq<Seq<char>>, raw: Seq<char>, i: int)
    requires
        class_fold_ok(ns, e, op, list, raw),
        0 <= i < e.len(),
    ensures
        op is Add || class_removal_ok(class_fold(ns, e.take(i), op, list, raw)[e[i] as int], list),
    decreases e.len(),
{
    if i < e.len() - 1 {
        lemma_fold_ok_at(ns, e.drop_last(), op, list, raw, i);
        assert(e.drop_last().take(i) =~= e.take(i));
    } else {
        assert(e.take(i) =~= e.drop_last());
    }
}

/// Checks that every name of `list` is a class name of `v`.
fn has_all_exec(v: &Vec<char>, list: &Vec<Vec<char>>) -> (r: bool)
    ensures
        r == has_all_classes(v@, vv(list@)),
{
    let orig = get_class_list_chars(v.as_slice());
    let mut k: usize = 0;
    while k < list.len()
        invariant
            vv(orig@) == spec_class_list(v@),
            k <= list@.len(),
            forall|j: int| 0 <= j < k ==> spec_class_list(v@).contains(#[trigger] vv(list@)[j]),
        decreases list.len() - k,
    {
        assert(vv(list@)[k as int] == list@[k as int]@);
        if !crate::matching::list_contains(&orig, list[k].as_slice()) {
            return false;
        }
        k += 1;
    }
    true
}

impl Elements {
    /// Some element has all the class names of the trimmed text; false for
    /// an empty one.
    pub fn has_class(&self, d: &Document, class_name: &str) -> (r: bool)
        requires
            d.wf(),
            all_meta(d, self@),
        ensures
            r == (spec_trim(class_name@).len() > 0 && exists|k: int|
                0 <= k < self@.len() && class_has_all(d@[#[trigger] self@[k] as int], spec_class_list(spec_trim(class_name@)))),
    {
        let t = trim_chars(str_chars(class_name).as_slice());
        if t.len() == 0 {
            return false;
        }
        let list = get_class_list_chars(t.as_slice());
        let mut i: usize = 0;
        while i < self.nodes.len()
            invariant
                d.wf(),
                all_meta(d, self@),
                vv(list@) == spec_class_list(spec_trim(class_name@)),
                t@ == spec_trim(class_name@),
                t@.len() > 0,
                i <= self@.len(),
                forall|k: int|
                    0 <= k < i ==> !class_has_all(d@[#[trigger] self@[k] as int], spec_class_list(spec_trim(class_name@))),
            decreases self.nodes.len() - i,
        {
            let x = self.nodes[i];
            assert(d.has_meta(self@[i as int] as int));
            match d.get_attribute(x, "class") {
                Some(IAttrValue::Value(cls, _)) => {
                    let v = str_chars(cls.as_str());
                    assert(node_class(d@[self@[i as int] as int]) == Some(v@));
                    if has_all_exec(&v, &list) {
                        assert(class_has_all(d@[self@[i as int] as int], spec_class_list(spec_trim(class_name@))));
                        return true;
                    }
                },
                _ => {},
            }
            i += 1;
        }
        false
    }

    /// Applies the class update `op` to each element in turn (see
    /// `class_fold`); nothing for an empty text.
    fn class_apply(&self, d: &mut Document, op: ClassOp, class_name: &str)
        requires
            old(d).wf(),
            all_valid(old(d), self@),
            all_meta(old(d), self@),
            class_fold_ok(old(d)@, self@, op, op_list(op, class_name@), op_raw(op, class_name@)),
        ensures
            final(d).wf(),
            same_frame(final(d), old(d)),
            final(d)@ == if op_noop(op, class_name@) {
                old(d)@
            } else {
                class_fold(old(d)@, self@, op, op_list(op, class_name@), op_raw(op, class_name@))
            },
    {
        let chars = str_chars(class_name);
        let is_add = match op {
            ClassOp::Add => true,
            _ => false,
        };
        let raw = if is_add {
            chars
        } else {
            trim_chars(chars.as_slice())
        };
        let list = get_class_list_chars(raw.as_slice());
        if (is_add && list.len() == 0) || (!is_add && raw.len() == 0) {
            return;
        }
        let ghost d0 = *d;
        let ghost l = op_list(op, class_name@);
        let ghost rw = op_raw(op, class_name@);
        let mut i: usize = 0;
        assert(self@.take(0) =~= Seq::<usize>::empty());
        while i < self.nodes.len()
            invariant
                d.wf(),
                all_valid(&d0, self@),
                all_meta(&d0, self@),
                same_frame(d, &d0),
                l == vv(list@),
                rw == raw@,
                l == op_list(op, class_name@),
                rw == op_raw(op, class_name@),
                class_fold_ok(d0@, self@, op, l, rw),
                i <= self@.len(),
                d@ == class_fold(d0@, self@.take(i as int), op, l, rw),
            decreases self.nodes.len() - i,
        {
            let x = self.nodes[i];
            assert(self@.take(i + 1).drop_last() =~= self@.take(i as int));
            assert(d0.has_meta(self@[i as int] as int));
            assert(d@[x as int] == d.nodes@[x as int]@);
            proof {
                lemma_fold_ok_at(d0@, self@, op, l, rw, i as int);
            }
            let v: Option<Vec<char>> = match d.get_attribute(x, "class") {
                Some(IAttrValue::Value(cls, _)) => Some(str_chars(cls.as_str())),
                _ => None,
            };
            assert(opt_chars(v) == node_class(d@[x as int]));
            let ghost before = *d;
            match class_update(&op, v.as_ref(), &list, &raw) {
                Some(nv) => {
                    let s = chars_to_string(nv.as_slice());
                    d.set_attribute(x, "class", Some(s.as_str()));
                },
                None => {},
            }
            assert(d@ == class_fold(d0@, self@.take(i + 1), op, l, rw));
            assert forall|j: int| 0 <= j < d@.len() implies (#[trigger] d@[j]).kind == d0@[j].kind by {
                assert(before@[j].kind == d0@[j].kind);
            }
            i += 1;
        }
        assert(self@.take(i as int) =~= self@);
    }

    /// Adds the class names of the text that each element lacks (see
    /// `add_class_value`); nothing for a text without names.
    pub fn add_class(&self, d: &mut Document, class_name: &str)
        requires
            old(d).wf(),
            all_valid(old(d), self@),
            all_meta(old(d), self@),
        ensures
            final(d).wf(),
            same_frame(final(d), old(d)),
            final(d)@ == if op_noop(ClassOp::Add, class_name@) {
                old(d)@
            } else {
                class_fold(old(d)@, self@, ClassOp::Add, op_list(ClassOp::Add, class_name@), class_name@)
            },
    {
        proof {
            lemma_add_ok(old(d)@, self@, op_list(ClassOp::Add, class_name@), class_name@);
        }
        self.class_apply(d, ClassOp::Add, class_name)
    }

    /// Removes the class names of the trimmed text that each element has
    /// (see `remove_class_value`); nothing for an empty text.
    pub fn remove_class(&self, d: &mut Document, class_name: &str)
        requires
            old(d).wf(),
            all_valid(old(d), self@),
            all_meta(old(d), self@),
            class_fold_ok(old(d)@, self@, ClassOp::Remove, op_list(ClassOp::Remove, class_name@), op_raw(ClassOp::Remove, class_name@)),
        ensures
            final(d).wf(),
            same_frame(final(d), old(d)),
            final(d)@ == if op_noop(ClassOp::Remove, class_name@) {
                old(d)@
            } else {
                class_fold(old(d)@, self@, ClassOp::Remove, op_list(ClassOp::Remove, class_name@), op_raw(ClassOp::Remove, class_name@))
            },
    {
        self.class_apply(d, ClassOp::Remove, class_name)
    }

    /// Removes the class names of the trimmed text that each element has and
    /// adds those it lacks (see `toggle_class_value`); nothing for an empty
    /// text.
    pub fn toggle_class(&self, d: &mut Document, class_name: &str)
        requires
            old(d).wf(),
            all_valid(old(d), self@),
            all_meta(old(d), self@),
            class_fold_ok(old(d)@, self@, ClassOp::Toggle, op_list(ClassOp::Toggle, class_name@), op_raw(ClassOp::Toggle, class_name@)),
        ensures
            final(d).wf(),
            same_frame(final(d), old(d)),
            final(d)@ == if op_noop(ClassOp::Toggle, class_name@) {
                old(d)@
            } else {
                class_fold(old(d)@, self@, ClassOp::Toggle, op_list(ClassOp::Toggle, class_name@), op_raw(ClassOp::Toggle, class_name@))
            },
    {
        self.class_apply(d, ClassOp::Toggle, class_name)
    }
}

proof fn lemma_add_ok(ns: Seq<NodeV>, e: Seq<usize>, list: Seq<Seq<char>>, raw: Seq<char>)
    ensures
        class_fold_ok(ns, e, ClassOp::Add, list, raw),
    decreases e.len(),
{
    if e.len() > 0 {
        lemma_add_ok(ns, e.drop_last(), list, raw);
    }
}

impl IAttrValue {
    /// The attribute has no value.
    pub fn is_true(&self) -> (r: bool)
        ensures
            r == (self is True),
    {
        match self {
            IAttrValue::True => true,
            _ => false,
        }
    }

    /// The value is the text `value`; an attribute without a value is the
    /// empty text.
    pub fn is_str(&self, value: &str) -> (r: bool)
        ensures
            r == match self {
                IAttrValue::Value(v, _) => v@ == value@,
                IAttrValue::True => value@.len() == 0,
            },
    {
        match self {
            IAttrValue::Value(v, _) => chars_eq(str_chars(v.as_str()).as_slice(), str_chars(value).as_slice()),
            IAttrValue::True => str_chars(value).len() == 0,
        }
    }

    /// The ascii whitespace separated words of the trimmed value; none for
    /// an attribute without a value.
    pub fn to_list(&self) -> (r: Vec<String>)
        ensures
            r@.map_values(|w: String| w@) == match self {
                IAttrValue::Value(v, _) => spec_class_list(spec_trim(v@)),
                IAttrValue::True => Seq::empty(),
            },
    {
        match self {
            IAttrValue::Value(v, _) => {
                let t = trim_chars(str_chars(v.as_str()).as_slice());
                let words = get_class_list_chars(t.as_slice());
                let mut r: Vec<String> = Vec::new();
                let mut k: usize = 0;
                while k < words.len()
                    invariant
                        k <= words@.len(),
                        r@.map_values(|w: String| w@) == vv(words@).take(k as int),
                    decreases words.len() - k,
                {
                    let w = chars_to_string(words[k].as_slice());
                    let ghost before = r@.map_values(|w: String| w@);
                    r.push(w);
                    assert(r@.map_values(|w: String| w@) =~= before.push(words@[k as int]@));
                    assert(vv(words@).take(k + 1) =~= vv(words@).take(k as int).push(words@[k as int]@));
                    k += 1;
                }
                assert(vv(words@).take(k as int) =~= vv(words@));
                r
            },
            IAttrValue::True => {
                let r: Vec<String> = Vec::new();
                assert(r@.map_values(|w: String| w@) =~= Seq::<Seq<char>>::empty());
                r
            },
        }
    }

    /// The value as text; empty for an attribute without a value.
    pub fn to_string(&self) -> (r: String)
        ensures
            r@ == match self {
                IAttrValue::Value(v, _) => v@,
                IAttrValue::True => Seq::empty(),
            },
    {
        match self {
            IAttrValue::Value(v, _) => chars_to_string(str_chars(v.as_str()).as_slice()),
            IAttrValue::True => String::new(),
        }
    }
}

} // verus!
