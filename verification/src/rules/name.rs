//! The tag name selector.
use crate::pattern::Pattern;
use crate::rule::{Rule, RuleKind, PRIORITY_NAME_SELECTOR};
use vstd::prelude::*;

verus! {

pub open spec fn spec_name_rule(r: Rule) -> bool {
    &&& r.kind == RuleKind::Name
    &&& r.priority == PRIORITY_NAME_SELECTOR
    &&& !r.in_cache
    &&& r.queues@.len() == 1
    &&& r.queues@[0] is Identity
}

/// Adds the tag name rule.
pub fn init(rules: &mut Vec<Rule>)
    ensures
        final(rules)@.len() == old(rules)@.len() + 1,
        final(rules)@.take(old(rules)@.len() as int) == old(rules)@,
        spec_name_rule(final(rules)@.last()),
{
    let queues = vec![Pattern::Identity];
    rules.push(Rule { name: "name", priority: PRIORITY_NAME_SELECTOR, in_cache: false, queues, kind: RuleKind::Name });
    assert(rules@.take(rules@.len() - 1) =~= old(rules)@);
}

} // verus!
