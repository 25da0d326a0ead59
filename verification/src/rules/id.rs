//! The id selector `#id`.
use crate::pattern::Pattern;
use crate::rule::{Rule, RuleKind, PRIORITY_ID_SELECTOR};
use vstd::prelude::*;

verus! {

pub open spec fn spec_id_rule(r: Rule) -> bool {
    &&& r.kind == RuleKind::Id
    &&& r.priority == PRIORITY_ID_SELECTOR
    &&& r.in_cache
    &&& r.queues@.len() == 2
    &&& r.queues@[0] == Pattern::Char('#')
    &&& r.queues@[1] is Identity
}

/// Adds the id rule; it looks its element up in the document.
pub fn init(rules: &mut Vec<Rule>)
    ensures
        final(rules)@.len() == old(rules)@.len() + 1,
        final(rules)@.take(old(rules)@.len() as int) == old(rules)@,
        spec_id_rule(final(rules)@.last()),
{
    let queues = vec![Pattern::Char('#'), Pattern::Identity];
    rules.push(Rule { name: "id", priority: PRIORITY_ID_SELECTOR, in_cache: true, queues, kind: RuleKind::Id });
    assert(rules@.take(rules@.len() - 1) =~= old(rules)@);
}

} // verus!
