//! The attribute selector `[name op value]`.
use crate::pattern::{Pattern, RegExp};
use crate::rule::{Rule, RuleKind, PRIORITY_ATTR_SELECTOR};
use vstd::prelude::*;

verus! {

/// The expression of the operator and value of an attribute selector.
pub open spec fn attr_value_regex() -> Seq<char> {
    r##"(?:([*^$~|!]?)=\s*(?:'((?:\\?+.)*?)'|([^\s\]'"<>/=`]+)|"((?:\\?+.)*?)"))?"##@
}

pub open spec fn spec_attr_rule(r: Rule) -> bool {
    &&& r.kind == RuleKind::Attr
    &&& r.priority == PRIORITY_ATTR_SELECTOR
    &&& !r.in_cache
    &&& r.queues@.len() == 7
    &&& r.queues@[0] == Pattern::Char('[')
    &&& r.queues@[1] is Spaces
    &&& r.queues@[2] is AttrKey
    &&& r.queues@[3] is Spaces
    &&& r.queues@[4] matches Pattern::RegExp(re) && re.context@ == attr_value_regex()
    &&& r.queues@[5] is Spaces
    &&& r.queues@[6] == Pattern::Char(']')
}

/// Adds the attribute rule.
pub fn init(rules: &mut Vec<Rule>)
    ensures
        final(rules)@.len() == old(rules)@.len() + 1,
        final(rules)@.take(old(rules)@.len() as int) == old(rules)@,
        spec_attr_rule(final(rules)@.last()),
{
    let re = String::from_str(r##"(?:([*^$~|!]?)=\s*(?:'((?:\\?+.)*?)'|([^\s\]'"<>/=`]+)|"((?:\\?+.)*?)"))?"##);
    let queues = vec![
        Pattern::Char('['),
        Pattern::Spaces,
        Pattern::AttrKey,
        Pattern::Spaces,
        Pattern::RegExp(RegExp { context: re }),
        Pattern::Spaces,
        Pattern::Char(']'),
    ];
    rules.push(Rule { name: "attr", priority: PRIORITY_ATTR_SELECTOR, in_cache: false, queues, kind: RuleKind::Attr });
    assert(rules@.take(rules@.len() - 1) =~= old(rules)@);
}

} // verus!
