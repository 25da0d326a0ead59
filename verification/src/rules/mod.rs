//! The selector rules of the library, in the order they are tried.
use crate::rule::Rule;
use vstd::prelude::*;

pub mod all;
pub mod attr;
pub mod class;
pub mod id;
pub mod name;
pub mod pseudo;

verus! {

/// A pattern of fixed characters.
pub fn lit(s: &str) -> (p: crate::pattern::Pattern)
    ensures
        p matches crate::pattern::Pattern::Chars(v) && v@ == s@,
{
    crate::pattern::Pattern::Chars(crate::chars::str_chars(s))
}

/// `p` is the pattern of fixed characters `s`.
pub open spec fn is_lit(p: crate::pattern::Pattern, s: Seq<char>) -> bool {
    p matches crate::pattern::Pattern::Chars(v) && v@ == s
}

/// The rules of the library, in the order they are tried: class, id, name,
/// attribute, the pseudo classes, then `*`.
pub open spec fn spec_rules(rules: Seq<Rule>) -> bool {
    &&& rules.len() == 24
    &&& class::spec_class_rule(rules[0])
    &&& id::spec_id_rule(rules[1])
    &&& name::spec_name_rule(rules[2])
    &&& attr::spec_attr_rule(rules[3])
    &&& pseudo::spec_pseudo_rules(rules.subrange(4, 23))
    &&& all::spec_all_rule(rules[23])
}

/// All the rules (see `spec_rules`).
pub fn init() -> (rules: Vec<Rule>)
    ensures
        spec_rules(rules@),
{
    let mut rules: Vec<Rule> = Vec::new();
    class::init(&mut rules);
    id::init(&mut rules);
    name::init(&mut rules);
    attr::init(&mut rules);
    let ghost before = rules@;
    pseudo::init(&mut rules);
    let ghost mid = rules@;
    all::init(&mut rules);
    assert(rules@.subrange(4, 23) =~= mid.subrange(4, 23));
    rules
}

} // verus!
