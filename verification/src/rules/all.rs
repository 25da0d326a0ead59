//! The universal selector `*`.
use crate::pattern::Pattern;
use crate::rule::{Rule, RuleKind, PRIORITY_ALL_SELECTOR};
use vstd::prelude::*;

verus! {

pub open spec fn spec_all_rule(r: Rule) -> bool {
    &&& r.kind == RuleKind::All
    &&& r.priority == PRIORITY_ALL_SELECTOR
    &&& !r.in_cache
    &&& r.queues@.len() == 1
    &&& r.queues@[0] == Pattern::Char('*')
}

/// The universal rule.
pub fn all_rule() -> (r: Rule)
    ensures
        spec_all_rule(r),
{
    let queues = vec![Pattern::Char('*')];
    Rule { name: "all", priority: PRIORITY_ALL_SELECTOR, in_cache: false, queues, kind: RuleKind::All }
}

/// Adds the universal rule.
pub fn init(rules: &mut Vec<Rule>)
    ensures
        final(rules)@.len() == old(rules)@.len() + 1,
        final(rules)@.take(old(rules)@.len() as int) == old(rules)@,
        spec_all_rule(final(rules)@.last()),
{
    rules.push(all_rule());
    assert(rules@.take(rules@.len() - 1) =~= old(rules)@);
}

} // verus!
