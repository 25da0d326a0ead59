//! The class selector `.name`.
use crate::pattern::Pattern;
use crate::rule::{Rule, RuleKind, PRIORITY_CLASS_SELECTOR};
use vstd::prelude::*;

verus! {

pub open spec fn spec_class_rule(r: Rule) -> bool {
    &&& r.kind == RuleKind::Class
    &&& r.priority == PRIORITY_CLASS_SELECTOR
    &&& !r.in_cache
    &&& r.queues@.len() == 2
    &&& r.queues@[0] == Pattern::Char('.')
    &&& r.queues@[1] is Identity
}

/// Adds the class rule.
pub fn init(rules: &mut Vec<Rule>)
    ensures
        final(rules)@.len() == old(rules)@.len() + 1,
        final(rules)@.take(old(rules)@.len() as int) == old(rules)@,
        spec_class_rule(final(rules)@.last()),
{
    let queues = vec![Pattern::Char('.'), Pattern::Identity];
    rules.push(Rule { name: "class", priority: PRIORITY_CLASS_SELECTOR, in_cache: false, queues, kind: RuleKind::Class });
    assert(rules@.take(rules@.len() - 1) =~= old(rules)@);
}

} // verus!
