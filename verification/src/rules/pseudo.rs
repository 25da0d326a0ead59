//! The pseudo class selectors.
use crate::pattern::{Pattern, RegExp};
use crate::rule::{Rule, RuleKind, PRIORITY_PSEUDO_SELECTOR};
use crate::rules::{is_lit, lit};
use vstd::prelude::*;

verus! {

/// The expression of a `:contains` argument: quoted text or a bare word.
pub open spec fn contains_regex() -> Seq<char> {
    r##"(?:'((?:\\?+.)*?)'|"((?:\\?+.)*?)"|([^)\s'"<>/=`]*))"##@
}

/// A rule written as fixed characters alone.
pub open spec fn spec_simple_rule(r: Rule, text: Seq<char>, kind: RuleKind) -> bool {
    &&& r.kind == kind
    &&& r.priority == PRIORITY_PSEUDO_SELECTOR
    &&& !r.in_cache
    &&& r.queues@.len() == 1
    &&& is_lit(r.queues@[0], text)
}

/// The argument pattern of a pseudo class with an argument.
pub open spec fn spec_argument(p: Pattern, kind: RuleKind) -> bool {
    match kind {
        RuleKind::Not | RuleKind::Has => p is NestedSelector,
        RuleKind::Contains => p matches Pattern::RegExp(re) && re.context@ == contains_regex(),
        _ => p is Nth,
    }
}

/// A rule written as `prefix`, spaces, an argument, spaces and `)`.
pub open spec fn spec_paren_rule(r: Rule, prefix: Seq<char>, kind: RuleKind) -> bool {
    &&& r.kind == kind
    &&& r.priority == PRIORITY_PSEUDO_SELECTOR
    &&& !r.in_cache
    &&& r.queues@.len() == 5
    &&& is_lit(r.queues@[0], prefix)
    &&& r.queues@[1] is Spaces
    &&& spec_argument(r.queues@[2], kind)
    &&& r.queues@[3] is Spaces
    &&& r.queues@[4] == Pattern::Char(')')
}

/// The pseudo class rules, in order.
pub open spec fn spec_pseudo_rules(rs: Seq<Rule>) -> bool {
    &&& rs.len() == 19
    &&& spec_simple_rule(rs[0], ":root"@, RuleKind::Root)
    &&& spec_simple_rule(rs[1], ":empty"@, RuleKind::Empty)
    &&& spec_simple_rule(rs[2], ":first-child"@, RuleKind::FirstChild)
    &&& spec_simple_rule(rs[3], ":last-child"@, RuleKind::LastChild)
    &&& spec_simple_rule(rs[4], ":only-child"@, RuleKind::OnlyChild)
    &&& spec_paren_rule(rs[5], ":nth-child("@, RuleKind::NthChild)
    &&& spec_paren_rule(rs[6], ":nth-last-child("@, RuleKind::NthLastChild)
    &&& spec_simple_rule(rs[7], ":first-of-type"@, RuleKind::FirstOfType)
    &&& spec_simple_rule(rs[8], ":last-of-type"@, RuleKind::LastOfType)
    &&& spec_paren_rule(rs[9], ":nth-of-type("@, RuleKind::NthOfType)
    &&& spec_paren_rule(rs[10], ":nth-last-of-type("@, RuleKind::NthLastOfType)
    &&& spec_simple_rule(rs[11], ":only-of-type"@, RuleKind::OnlyOfType)
    &&& spec_paren_rule(rs[12], ":not("@, RuleKind::Not)
    &&& spec_paren_rule(rs[13], ":contains("@, RuleKind::Contains)
    &&& spec_paren_rule(rs[14], ":has("@, RuleKind::Has)
    &&& spec_simple_rule(rs[15], ":checked"@, RuleKind::Checked)
    &&& spec_simple_rule(rs[16], ":header"@, RuleKind::Header)
    &&& spec_simple_rule(rs[17], ":input"@, RuleKind::Input)
    &&& spec_simple_rule(rs[18], ":submit"@, RuleKind::Submit)
}

fn simple(name: &'static str, kind: RuleKind) -> (r: Rule)
    ensures
        spec_simple_rule(r, name@, kind),
{
    let queues = vec![lit(name)];
    Rule { name, priority: PRIORITY_PSEUDO_SELECTOR, in_cache: false, queues, kind }
}

fn argument(kind: RuleKind) -> (p: Pattern)
    ensures
        spec_argument(p, kind),
{
    match kind {
        RuleKind::Not | RuleKind::Has => Pattern::NestedSelector,
        RuleKind::Contains => Pattern::RegExp(
            RegExp { context: String::from_str(r##"(?:'((?:\\?+.)*?)'|"((?:\\?+.)*?)"|([^)\s'"<>/=`]*))"##) },
        ),
        _ => Pattern::Nth,
    }
}

fn paren(name: &'static str, prefix: &str, kind: RuleKind) -> (r: Rule)
    ensures
        spec_paren_rule(r, prefix@, kind),
{
    let queues = vec![lit(prefix), Pattern::Spaces, argument(kind), Pattern::Spaces, Pattern::Char(')')];
    Rule { name, priority: PRIORITY_PSEUDO_SELECTOR, in_cache: false, queues, kind }
}

/// Adds the pseudo class rules.
pub fn init(rules: &mut Vec<Rule>)
    ensures
        final(rules)@.len() == old(rules)@.len() + 19,
        final(rules)@.take(old(rules)@.len() as int) == old(rules)@,
        spec_pseudo_rules(final(rules)@.skip(old(rules)@.len() as int)),
{
    let ghost start = old(rules)@.len() as int;
    rules.push(simple(":root", RuleKind::Root));
    rules.push(simple(":empty", RuleKind::Empty));
    rules.push(simple(":first-child", RuleKind::FirstChild));
    rules.push(simple(":last-child", RuleKind::LastChild));
    rules.push(simple(":only-child", RuleKind::OnlyChild));
    rules.push(paren(":nth-child({spaces}{nth}{spaces})", ":nth-child(", RuleKind::NthChild));
    rules.push(paren(":nth-last-child({spaces}{nth}{spaces})", ":nth-last-child(", RuleKind::NthLastChild));
    rules.push(simple(":first-of-type", RuleKind::FirstOfType));
    rules.push(simple(":last-of-type", RuleKind::LastOfType));
    rules.push(paren(":nth-of-type({spaces}{nth}{spaces})", ":nth-of-type(", RuleKind::NthOfType));
    rules.push(paren(":nth-last-of-type({spaces}{nth}{spaces})", ":nth-last-of-type(", RuleKind::NthLastOfType));
    rules.push(simple(":only-of-type", RuleKind::OnlyOfType));
    rules.push(paren(":not", ":not(", RuleKind::Not));
    rules.push(paren(":contains", ":contains(", RuleKind::Contains));
    rules.push(paren(":has", ":has(", RuleKind::Has));
    rules.push(simple(":checked", RuleKind::Checked));
    rules.push(simple(":header", RuleKind::Header));
    rules.push(simple(":input", RuleKind::Input));
    rules.push(simple(":submit", RuleKind::Submit));
    assert(rules@.take(start) =~= old(rules)@);
}

} // verus!
