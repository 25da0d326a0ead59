//! The value of form elements: inputs, options, selects and text areas.
use crate::chars::{chars_eq, chars_to_string, str_chars};
use crate::content::text_of;
use crate::dom::{iattr_view, node_attr, Document, IAttrValue, NodeKind, NodeV};
use crate::elements::Elements;
use vstd::prelude::*;

verus! {

/// The value of a form element: one text, or the texts of a multiple
/// select.
pub enum IFormValue {
    Single(String),
    Multiple(Vec<String>),
}

/// A form value as plain values.
pub enum FormV {
    Single(Seq<char>),
    Multiple(Seq<Seq<char>>),
}

impl IFormValue {
    pub open spec fn form_view(&self) -> FormV {
        match self {
            IFormValue::Single(s) => FormV::Single(s@),
            IFormValue::Multiple(v) => FormV::Multiple(v@.map_values(|s: String| s@)),
        }
    }

    /// The text, or the texts joined by commas.
    pub fn to_string(&self) -> (r: String)
        ensures
            r@ == match self.form_view() {
                FormV::Single(s) => s,
                FormV::Multiple(v) => join_commas(v),
            },
    {
        match self {
            IFormValue::Single(s) => chars_to_string(str_chars(s.as_str()).as_slice()),
            IFormValue::Multiple(v) => {
                let mut r: Vec<char> = Vec::new();
                let mut k: usize = 0;
                let ghost vs = v@.map_values(|s: String| s@);
                while k < v.len()
                    invariant
                        vs == v@.map_values(|s: String| s@),
                        k <= v@.len(),
                        r@ == join_commas(vs.take(k as int)),
                    decreases v.len() - k,
                {
                    assert(vs.take(k + 1).drop_last() =~= vs.take(k as int));
                    assert(vs[k as int] == v@[k as int]@);
                    if k > 0 {
                        r.push(',');
                    }
                    let mut w = str_chars(v[k].as_str());
                    let ghost before = r@;
                    r.append(&mut w);
                    assert(r@ =~= join_commas(vs.take(k + 1)));
                    k += 1;
                }
                assert(vs.take(k as int) =~= vs);
                chars_to_string(r.as_slice())
            },
        }
    }

    /// The texts of a multiple value, in order; a single value gives none.
    pub fn into_values(self) -> (r: Vec<String>)
        ensures
            match self {
                IFormValue::Single(_) => r@.len() == 0,
                IFormValue::Multiple(v) => r@ == v@,
            },
    {
        match self {
            IFormValue::Single(_) => Vec::new(),
            IFormValue::Multiple(v) => v,
        }
    }
}

/// The texts joined by commas.
pub open spec fn join_commas(v: Seq<Seq<char>>) -> Seq<char>
    decreases v.len(),
{
    if v.len() == 0 {
        Seq::empty()
    } else if v.len() == 1 {
        v[0]
    } else {
        join_commas(v.drop_last()).push(',') + v.last()
    }
}

/// The value of the attribute `name`; empty where it has none.
pub open spec fn attr_text(n: NodeV, name: Seq<char>) -> Seq<char> {
    match node_attr(n, name) {
        Some((Some(v), _)) => v,
        _ => Seq::empty(),
    }
}

/// What the options of a select give, read in document order: the value
/// of the first option met at the top level as the default, and the values
/// of the selected options; in a single select the first selected option
/// ends the reading of its own list of children. Nested elements are read
/// `fuel` levels deep.
pub open spec fn collect_opts(
    d: &Document,
    cs: Seq<usize>,
    st: (Option<Seq<char>>, Seq<Seq<char>>),
    multiple: bool,
    level: nat,
    fuel: nat,
) -> (Option<Seq<char>>, Seq<Seq<char>>)
    decreases fuel, cs.len(),
{
    if cs.len() == 0 {
        st
    } else {
        let x = cs[0] as int;
        let rest = cs.drop_first();
        if d.kind_of(x) != NodeKind::Tag {
            collect_opts(d, rest, st, multiple, level, fuel)
        } else if d.spec_tag_names(x) == "option"@ {
            let sel = node_attr(d@[x], "selected"@) is Some;
            if sel || (st.0 is None && level == 0) {
                let v = attr_text(d@[x], "value"@);
                if sel {
                    let st2 = (st.0, st.1.push(v));
                    if !multiple {
                        st2
                    } else {
                        collect_opts(d, rest, st2, multiple, level, fuel)
                    }
                } else {
                    collect_opts(d, rest, (Some(v), st.1), multiple, level, fuel)
                }
            } else {
                collect_opts(d, rest, st, multiple, level, fuel)
            }
        } else if fuel == 0 {
            collect_opts(d, rest, st, multiple, level, fuel)
        } else {
            let st2 = collect_opts(d, d@[x].children, st, multiple, level + 1, (fuel - 1) as nat);
            collect_opts(d, rest, st2, multiple, level, fuel)
        }
    }
}

/// The value of node `x`: the `value` attribute of an input or option; the
/// selected options of a select (the first one, or the default, for a
/// single select); the text of a text area; empty for other nodes.
pub open spec fn form_value(d: &Document, x: int) -> FormV {
    let t = d.spec_tag_names(x);
    if t == "input"@ || t == "option"@ {
        FormV::Single(attr_text(d@[x], "value"@))
    } else if t == "select"@ {
        let multiple = node_attr(d@[x], "multiple"@) is Some;
        let st = collect_opts(d, d@[x].children, (None, Seq::empty()), multiple, 0, d.fuel());
        if multiple {
            FormV::Multiple(st.1)
        } else if st.1.len() > 0 {
            FormV::Single(st.1[0])
        } else {
            FormV::Single(
                match st.0 {
                    Some(v) => v,
                    None => Seq::empty(),
                },
            )
        }
    } else if t == "textarea"@ {
        FormV::Single(text_of(d, x))
    } else {
        FormV::Single(Seq::empty())
    }
}

/// The value of the attribute `name` of an element or doctype; empty where
/// it has none.
fn attr_text_exec(d: &Document, x: usize, name: &str) -> (r: Vec<char>)
    requires
        d.wf(),
        d.has_meta(x as int),
    ensures
        r@ == attr_text(d@[x as int], name@),
{
    match d.get_attribute(x, name) {
        Some(IAttrValue::Value(v, _)) => str_chars(v.as_str()),
        _ => Vec::new(),
    }
}

/// See `collect_opts`.
fn collect_opts_exec(
    d: &Document,
    cs: &Vec<usize>,
    st: &mut (Option<Vec<char>>, Vec<Vec<char>>),
    multiple: bool,
    level: usize,
    fuel: usize,
)
    requires
        d.wf(),
        forall|k: int| 0 <= k < cs@.len() ==> d.valid(#[trigger] cs@[k] as int),
        level + fuel <= d.nodes@.len(),
    ensures
        st_view(*final(st)) == collect_opts(d, cs@, st_view(*old(st)), multiple, level as nat, fuel as nat),
    decreases fuel, cs@.len(),
{
    let mut k: usize = 0;
    assert(cs@.skip(0) =~= cs@);
    let ghost target = collect_opts(d, cs@, st_view(*old(st)), multiple, level as nat, fuel as nat);
    while k < cs.len()
        invariant
            d.wf(),
            forall|j: int| 0 <= j < cs@.len() ==> d.valid(#[trigger] cs@[j] as int),
            level + fuel <= d.nodes@.len(),
            k <= cs@.len(),
            target == collect_opts(d, cs@, st_view(*old(st)), multiple, level as nat, fuel as nat),
            collect_opts(d, cs@.skip(k as int), st_view(*st), multiple, level as nat, fuel as nat) == target,
        decreases cs.len() - k,
    {
        let x = cs[k];
        assert(cs@.skip(k as int).drop_first() =~= cs@.skip(k + 1));
        assert(cs@.skip(k as int)[0] == x);
        assert(d.valid(cs@[k as int] as int));
        assert(d@[x as int] == d.nodes@[x as int]@);
        if d.nodes[x].kind != NodeKind::Tag {
            k += 1;
            continue;
        }
        let t = d.tag_names(x);
        if chars_eq(t.as_slice(), str_chars("option").as_slice()) {
            let sel = d.has_attribute(x, "selected");
            let no_default = st.0.is_none();
            if sel || (no_default && level == 0) {
                let v = attr_text_exec(d, x, "value");
                if sel {
                    let ghost before = st_view(*st);
                    st.1.push(v);
                    assert(st_view(*st).1 =~= before.1.push(v@));
                    if !multiple {
                        return;
                    }
                } else {
                    st.0 = Some(v);
                }
            }
        } else if fuel > 0 {
            let kids = d.children_of(x);
            collect_opts_exec(d, &kids, st, multiple, level + 1, fuel - 1);
        }
        k += 1;
    }
    assert(cs@.skip(k as int) =~= Seq::<usize>::empty());
}

/// A select reading state as plain values.
pub open spec fn st_view(st: (Option<Vec<char>>, Vec<Vec<char>>)) -> (Option<Seq<char>>, Seq<Seq<char>>) {
    (
        match st.0 {
            Some(v) => Some(v@),
            None => None,
        },
        st.1@.map_values(|v: Vec<char>| v@),
    )
}

/// The texts of character vectors.
fn strings_of(v: &Vec<Vec<char>>) -> (r: Vec<String>)
    ensures
        r@.map_values(|s: String| s@) == v@.map_values(|w: Vec<char>| w@),
{
    let mut r: Vec<String> = Vec::new();
    let mut k: usize = 0;
    while k < v.len()
        invariant
            k <= v@.len(),
            r@.map_values(|s: String| s@) == v@.map_values(|w: Vec<char>| w@).take(k as int),
        decreases v.len() - k,
    {
        let ghost before = r@.map_values(|s: String| s@);
        r.push(chars_to_string(v[k].as_slice()));
        assert(r@.map_values(|s: String| s@) =~= before.push(v@[k as int]@));
        assert(v@.map_values(|w: Vec<char>| w@).take(k + 1) =~= v@.map_values(|w: Vec<char>| w@).take(k as int).push(
            v@[k as int]@,
        ));
        k += 1;
    }
    assert(v@.map_values(|w: Vec<char>| w@).take(k as int) =~= v@.map_values(|w: Vec<char>| w@));
    r
}

impl Document {
    /// The child nodes of node `i`.
    pub fn children_of(&self, i: usize) -> (r: Vec<usize>)
        requires
            self.wf(),
            self.valid(i as int),
        ensures
            r@ == self@[i as int].children,
            forall|k: int| 0 <= k < r@.len() ==> self.valid(#[trigger] r@[k] as int),
    {
        assert(self@[i as int] == self.nodes@[i as int]@);
        let r = crate::elements::copy_ids(&self.nodes[i].children);
        assert forall|k: int| 0 <= k < r@.len() implies self.valid(#[trigger] r@[k] as int) by {
            assert(self.nodes@[i as int].children@[k] == r@[k]);
        }
        r
    }

    /// The value of node `i` (see `form_value`).
    pub fn value(&self, i: usize) -> (r: IFormValue)
        requires
            self.wf(),
            self.valid(i as int),
        ensures
            r.form_view() == form_value(self, i as int),
    {
        let t = self.tag_names(i);
        proof {
            reveal_strlit("input");
            reveal_strlit("option");
            reveal_strlit("select");
        }
        let is_input = chars_eq(t.as_slice(), str_chars("input").as_slice());
        let is_option = chars_eq(t.as_slice(), str_chars("option").as_slice());
        if is_input || is_option {
            assert(t@.len() > 0);
            let v = attr_text_exec(self, i, "value");
            return IFormValue::Single(chars_to_string(v.as_slice()));
        }
        if chars_eq(t.as_slice(), str_chars("select").as_slice()) {
            assert(t@.len() > 0);
            let multiple = self.has_attribute(i, "multiple");
            let mut st: (Option<Vec<char>>, Vec<Vec<char>>) = (None, Vec::new());
            assert(st_view(st) =~= (None::<Seq<char>>, Seq::<Seq<char>>::empty()));
            let kids = self.children_of(i);
            collect_opts_exec(self, &kids, &mut st, multiple, 0, self.nodes.len());
            if multiple {
                let r = IFormValue::Multiple(strings_of(&st.1));
                return r;
            }
            if st.1.len() > 0 {
                assert(st_view(st).1[0] == st.1@[0]@);
                return IFormValue::Single(chars_to_string(st.1[0].as_slice()));
            }
            return match &st.0 {
                Some(v) => IFormValue::Single(chars_to_string(v.as_slice())),
                None => IFormValue::Single(String::new()),
            };
        }
        if chars_eq(t.as_slice(), str_chars("textarea").as_slice()) {
            let v = self.text_contents(i);
            return IFormValue::Single(chars_to_string(v.as_slice()));
        }
        IFormValue::Single(String::new())
    }
}

impl Elements {
    /// The value of the first element; empty where there is none.
    pub fn val(&self, d: &Document) -> (r: IFormValue)
        requires
            d.wf(),
            self@.len() > 0 ==> d.valid(self@[0] as int),
        ensures
            r.form_view() == if self@.len() > 0 {
                form_value(d, self@[0] as int)
            } else {
                FormV::Single(Seq::empty())
            },
    {
        if self.nodes.len() > 0 {
            d.value(self.nodes[0])
        } else {
            IFormValue::Single(String::new())
        }
    }
}

} // verus!
