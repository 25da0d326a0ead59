//! Selector parsing: a selector text becomes groups of compound selectors
//! joined by combinators.
use crate::chars::{copy_chars, str_chars};
use crate::error::{invalid_selector, invalid_selector_at, invalid_selector_plain, lemma_suffix_skip, nested_error, selector_error, Error};
use crate::pattern::{
    exec, matched_vs, plain_v, slice_skip, spec_exec, Matched, MatchedV, Pattern, RegExp,
};
use crate::rule::{
    exec_queues, spec_can_make, spec_exec_queues, spec_made, AttrTest, Matcher, MatcherKind, Rule,
    RuleKind, PRIORITY_ALL_SELECTOR,
};
use crate::rules::spec_rules;
use vstd::prelude::*;

verus! {

/// How a compound selector relates to the one before it.
#[derive(Debug, Clone, Copy, PartialEq, Eq, Hash, Structural)]
pub enum Combinator {
    /// descendants (whitespace)
    ChildrenAll,
    /// children (`>`)
    Children,
    /// the parent: reverse of `Children`
    Parent,
    /// the ancestors: reverse of `ChildrenAll`
    ParentAll,
    /// all the next siblings (`~`)
    NextAll,
    /// the next sibling (`+`)
    Next,
    /// all the previous siblings: reverse of `NextAll`
    PrevAll,
    /// the previous sibling: reverse of `Next`
    Prev,
    /// the siblings
    Siblings,
    /// the same element (simple selectors chained in one compound)
    Chain,
}

impl Combinator {
    /// The combinators that have a reverse.
    pub open spec fn spec_reversible(self) -> bool {
        self is ChildrenAll || self is Children || self is NextAll || self is Next || self is Chain
    }

    pub open spec fn spec_reverse(self) -> Combinator {
        match self {
            Combinator::ChildrenAll => Combinator::ParentAll,
            Combinator::Children => Combinator::Parent,
            Combinator::NextAll => Combinator::PrevAll,
            Combinator::Next => Combinator::Prev,
            _ => Combinator::Chain,
        }
    }

    /// The combinator that walks the other way: descendants to ancestors,
    /// children to parent, next siblings to previous ones; `Chain` stays.
    pub fn reverse(&self) -> (r: Combinator)
        requires
            self.spec_reversible(),
        ensures
            r == self.spec_reverse(),
    {
        match self {
            Combinator::ChildrenAll => Combinator::ParentAll,
            Combinator::Children => Combinator::Parent,
            Combinator::NextAll => Combinator::PrevAll,
            Combinator::Next => Combinator::Prev,
            _ => Combinator::Chain,
        }
    }

    /// The combinator written as `op` (already trimmed): `""` descendants,
    /// `>` children, `~` next siblings, `+` next sibling; anything else has
    /// none.
    pub fn from_op(op: &str) -> (r: Option<Combinator>)
        ensures
            r == spec_combinator_of(op@),
    {
        let c = str_chars(op);
        if c.len() == 0 {
            Some(Combinator::ChildrenAll)
        } else if c.len() == 1 {
            assert(op@ =~= seq![c[0]]);
            from_op_char(Some(c[0]))
        } else {
            None
        }
    }
}

/// The combinator of a trimmed operator text.
pub open spec fn spec_combinator_of(op: Seq<char>) -> Option<Combinator> {
    if op.len() == 0 {
        Some(Combinator::ChildrenAll)
    } else if op == seq!['>'] {
        Some(Combinator::Children)
    } else if op == seq!['~'] {
        Some(Combinator::NextAll)
    } else if op == seq!['+'] {
        Some(Combinator::Next)
    } else {
        None
    }
}

/// The combinator of an operator character (`None`: whitespace alone).
pub open spec fn spec_combinator_of_char(op: Option<char>) -> Option<Combinator> {
    match op {
        None => Some(Combinator::ChildrenAll),
        Some(c) => spec_combinator_of(seq![c]),
    }
}

fn from_op_char(op: Option<char>) -> (r: Option<Combinator>)
    ensures
        r == spec_combinator_of_char(op),
{
    match op {
        None => Some(Combinator::ChildrenAll),
        Some(c) => {
            proof {
                assert(seq![c] == seq!['>'] ==> c == '>') by {
                    if seq![c] == seq!['>'] {
                        assert(seq![c][0] == seq!['>'][0]);
                    }
                }
                assert(seq![c] == seq!['~'] ==> c == '~') by {
                    if seq![c] == seq!['~'] {
                        assert(seq![c][0] == seq!['~'][0]);
                    }
                }
                assert(seq![c] == seq!['+'] ==> c == '+') by {
                    if seq![c] == seq!['+'] {
                        assert(seq![c][0] == seq!['+'][0]);
                    }
                }
            }
            if c == '>' {
                Some(Combinator::Children)
            } else if c == '~' {
                Some(Combinator::NextAll)
            } else if c == '+' {
                Some(Combinator::Next)
            } else {
                None
            }
        },
    }
}

/// A simple selector and how it joins the one before.
pub type SelectorSegment = (Matcher, Combinator);

/// One comma separated part of a selector: the compound selectors to find,
/// and, when the lookup optimization applies, the leading compounds that the
/// found elements must be reached from.
pub struct QueryProcess {
    pub should_in: Option<Vec<Vec<SelectorSegment>>>,
    pub query: Vec<Vec<SelectorSegment>>,
}

/// A parsed selector.
pub struct Selector {
    pub process: Vec<QueryProcess>,
}

impl Default for QueryProcess {
    fn default() -> (r: Self)
        ensures
            r.should_in is None,
            r.query@.len() == 0,
    {
        QueryProcess { should_in: None, query: Vec::new() }
    }
}

impl Default for Selector {
    fn default() -> (r: Self)
        ensures
            r.process@.len() == 0,
    {
        Selector { process: Vec::new() }
    }
}

/// Where the selector parser has got to.
#[derive(PartialEq, Eq, Structural, Clone, Copy)]
pub enum PrevIn {
    Begin,
    Splitter,
    Selector,
}

/// A simple selector as the parser reads it: the rule (by its position in
/// the rule list), what the rule's patterns matched, and the combinator.
pub type SpecSeg = (int, Seq<MatchedV>, Combinator);

/// The expression of a combinator with its whitespace.
pub open spec fn splitter_regex() -> Seq<char> {
    "(\\s*[>,~+]\\s*|\\s+)"@
}

/// The patterns of the combinator splitter.
pub open spec fn spec_splitter(splitter: Seq<Pattern>) -> bool {
    splitter.len() == 1 && (splitter[0] matches Pattern::RegExp(re) && re.context@ == splitter_regex())
}

/// The splitter patterns.
pub fn splitter() -> (r: Vec<Pattern>)
    ensures
        spec_splitter(r@),
{
    vec![Pattern::RegExp(RegExp { context: String::from_str("(\\s*[>,~+]\\s*|\\s+)") })]
}

/// The length of a combinator at the start of `s`, or 0.
pub open spec fn spec_split_len(splitter: Seq<Pattern>, s: Seq<char>) -> int {
    match spec_exec_queues(splitter, s) {
        Some((m, len, num)) => if 0 < len <= s.len() && m.len() > 0 {
            len
        } else {
            0
        },
        None => 0,
    }
}

/// The operator character of a combinator text: the first of `>,~+` in it.
pub open spec fn spec_first_op(s: Seq<char>) -> Option<char>
    decreases s.len(),
{
    if s.len() == 0 {
        None
    } else if s[0] == '>' || s[0] == ',' || s[0] == '~' || s[0] == '+' {
        Some(s[0])
    } else {
        spec_first_op(s.drop_first())
    }
}

/// The operator of the combinator at the start of `s`.
pub open spec fn spec_split_op(splitter: Seq<Pattern>, s: Seq<char>) -> Option<char> {
    spec_first_op(spec_exec_queues(splitter, s).unwrap().0[0].chars)
}

/// The first rule, from position `k` on, whose patterns stop well on `s`.
pub open spec fn spec_first_rule(rules: Seq<Rule>, s: Seq<char>, k: int) -> Option<int>
    decreases rules.len() - k,
{
    if k < 0 || k >= rules.len() {
        None
    } else if spec_exec_queues(rules[k].queues@, s) is Some {
        Some(k)
    } else {
        spec_first_rule(rules, s, k + 1)
    }
}

/// What a nested selector ends with: the selector text itself (at level 0)
/// and then the patterns `until`, which must all match.
pub open spec fn spec_until_finish(chars: Seq<char>, until: Seq<Pattern>, level: int, i: int) -> Result<
    (int, Seq<MatchedV>),
    (),
> {
    let head = if level == 0 {
        seq![plain_v(chars.take(i))]
    } else {
        Seq::empty()
    };
    if until.len() == 0 {
        Ok((i, head))
    } else {
        let (m, c) = spec_exec(until, chars.skip(i));
        if m.len() != until.len() {
            Err(())
        } else {
            Ok((i + c, if level == 0 { head + m } else { head }))
        }
    }
}

/// Reads a nested selector from position `i`: combinators and simple
/// selectors are skipped until a position where none is recognised, or
/// until a nested selector inside it has been read; then the nested
/// selector ends (see `spec_until_finish`). Reaching the end of the text
/// first ends it without any match.
pub open spec fn spec_until_from(
    rules: Seq<Rule>,
    splitter: Seq<Pattern>,
    chars: Seq<char>,
    until: Seq<Pattern>,
    level: int,
    i: int,
) -> Result<(int, Seq<MatchedV>), ()>
    decreases chars.len(), 0int, chars.len() - i,
{
    if i < 0 || i >= chars.len() {
        Ok((i, Seq::empty()))
    } else {
        let s = chars.skip(i);
        let sl = spec_split_len(splitter, s);
        if sl > 0 {
            spec_until_from(rules, splitter, chars, until, level, i + sl)
        } else {
            match spec_first_rule(rules, s, 0) {
                None => spec_until_finish(chars, until, level, i),
                Some(j) => {
                    let (data, len, num) = spec_exec_queues(rules[j].queues@, s).unwrap();
                    if len <= 0 || i + len > chars.len() {
                        spec_until_finish(chars, until, level, i)
                    } else if num == rules[j].queues@.len() {
                        spec_until_from(rules, splitter, chars, until, level, i + len)
                    } else {
                        match spec_until(
                            rules,
                            splitter,
                            chars.skip(i + len),
                            rules[j].queues@.skip(num + 1),
                            level + 1,
                        ) {
                            Err(_) => Err(()),
                            Ok((k, _)) => if 0 <= k <= chars.len() - (i + len) {
                                spec_until_finish(chars, until, level, i + len + k)
                            } else {
                                Err(())
                            },
                        }
                    }
                },
            }
        }
    }
}

/// Reads a nested selector at the start of `chars`.
pub open spec fn spec_until(
    rules: Seq<Rule>,
    splitter: Seq<Pattern>,
    chars: Seq<char>,
    until: Seq<Pattern>,
    level: int,
) -> Result<(int, Seq<MatchedV>), ()>
    decreases chars.len(), 1int, 0int,
{
    spec_until_from(rules, splitter, chars, until, level, 0)
}

fn first_op(s: &[char]) -> (r: Option<char>)
    ensures
        r == spec_first_op(s@),
{
    let mut i: usize = 0;
    assert(s@.skip(0) =~= s@);
    while i < s.len()
        invariant
            i <= s@.len(),
            spec_first_op(s@) == spec_first_op(s@.skip(i as int)),
        decreases s.len() - i,
    {
        let c = s[i];
        assert(s@.skip(i as int)[0] == c);
        assert(s@.skip(i as int).drop_first() =~= s@.skip(i + 1));
        if c == '>' || c == ',' || c == '~' || c == '+' {
            return Some(c);
        }
        i += 1;
    }
    None
}

/// The combinator at the start of `chars`: its length (0 when there is none)
/// and its operator.
fn split_at(splitter: &[Pattern], chars: &[char]) -> (r: (usize, Option<char>))
    ensures
        r.0 == spec_split_len(splitter@, chars@),
        r.0 > 0 ==> r.1 == spec_split_op(splitter@, chars@),
        r.0 <= chars@.len(),
{
    match exec_queues(splitter, chars) {
        Some((m, len, num)) => {
            if 0 < len && len <= chars.len() && m.len() > 0 {
                assert(matched_vs(m@)[0] == m@[0]@);
                let op = first_op(m[0].chars.as_slice());
                (len, op)
            } else {
                (0, None)
            }
        },
        None => (0, None),
    }
}

/// The first rule whose patterns stop well at the start of `chars` (see
/// `spec_first_rule`): its position, matches, length and number of matched
/// patterns.
fn find_rule(rules: &[Rule], chars: &[char]) -> (r: Option<(usize, Vec<Matched>, usize, usize)>)
    ensures
        r is Some <==> spec_first_rule(rules@, chars@, 0) is Some,
        r matches Some((j, m, len, num)) ==> {
            &&& j as int == spec_first_rule(rules@, chars@, 0).unwrap()
            &&& j < rules@.len()
            &&& matched_vs(m@) == spec_exec_queues(rules@[j as int].queues@, chars@).unwrap().0
            &&& len as int == spec_exec_queues(rules@[j as int].queues@, chars@).unwrap().1
            &&& num as int == spec_exec_queues(rules@[j as int].queues@, chars@).unwrap().2
            &&& num <= rules@[j as int].queues@.len()
            &&& len <= chars@.len()
        },
{
    let mut k: usize = 0;
    while k < rules.len()
        invariant
            k <= rules@.len(),
            spec_first_rule(rules@, chars@, 0) == spec_first_rule(rules@, chars@, k as int),
        decreases rules.len() - k,
    {
        match rules[k].exec(chars) {
            Some((m, len, num)) => {
                return Some((k, m, len, num));
            },
            None => {},
        }
        k += 1;
    }
    None
}

impl Selector {
    /// Reads a nested selector at the start of `chars` (see `spec_until`):
    /// returns the characters consumed and, at level 0, the selector text as one
    /// match followed by the matches of `until`.
    pub fn parse_until(
        chars: &[char],
        until: &[Pattern],
        rules: &[Rule],
        splitter: &[Pattern],
        level: usize,
    ) -> (r: Result<(usize, Vec<Matched>), Error>)
        requires
            level + chars@.len() < usize::MAX,
        ensures
            r is Ok <==> spec_until(rules@, splitter@, chars@, until@, level as int) is Ok,
            r matches Ok((n, m)) ==> n as int == spec_until(rules@, splitter@, chars@, until@, level as int).unwrap().0
                && matched_vs(m@) == spec_until(rules@, splitter@, chars@, until@, level as int).unwrap().1,
            r matches Err(e) ==> nested_error(e, chars@),
        decreases chars@.len(),
    {
        let mut index: usize = 0;
        let total = chars.len();
        while index < total
            invariant
                total == chars@.len(),
                index <= total,
                level + chars@.len() < usize::MAX,
                spec_until_from(rules@, splitter@, chars@, until@, level as int, index as int) == spec_until(
                    rules@,
                    splitter@,
                    chars@,
                    until@,
                    level as int,
                ),
            decreases total - index,
        {
            let next_chars = slice_skip(chars, index);
            let (sl, _) = split_at(splitter, next_chars);
            if sl > 0 {
                index += sl;
                continue;
            }
            match find_rule(rules, next_chars) {
                Some((j, _m, len, num)) => {
                    if len == 0 || len > total - index {
                        return finish_until(chars, until, level, index);
                    }
                    if num == rules[j].queues.len() {
                        index += len;
                        continue;
                    }
                    let rest = slice_skip(chars, index + len);
                    let nested_until = slice_skip_patterns(rules[j].queues.as_slice(), num + 1);
                    let (k, _) = match Selector::parse_until(rest, nested_until, rules, splitter, level + 1) {
                        Ok(p) => p,
                        Err(e) => {
                            proof {
                                if e is InvalidSelector {
                                    lemma_suffix_skip(e->context@, chars@, (index + len) as int);
                                }
                            }
                            return Err(e);
                        },
                    };
                    if k > total - (index + len) {
                        let e = invalid_selector(chars, "Nested selector parse error at index ", index);
                        assert(chars@.subrange(0, chars@.len() as int) =~= chars@);
                        return Err(e);
                    }
                    return finish_until(chars, until, level, index + len + k);
                },
                None => {
                    return finish_until(chars, until, level, index);
                },
            }
        }
        assert(spec_until_from(rules@, splitter@, chars@, until@, level as int, index as int) == Ok::<
            (int, Seq<MatchedV>),
            (),
        >((index as int, Seq::empty())));
        Ok((index, Vec::new()))
    }
}

/// The patterns from position `n` on.
pub fn slice_skip_patterns(s: &[Pattern], n: usize) -> (r: &[Pattern])
    ensures
        n <= s@.len() ==> r@ == s@.skip(n as int),
        n > s@.len() ==> r@.len() == 0,
{
    if n > s.len() {
        let (r, _) = s.split_at(0);
        return r;
    }
    let (_, r) = s.split_at(n);
    assert(r@ =~= s@.skip(n as int));
    r
}

fn finish_until(chars: &[char], until: &[Pattern], level: usize, index: usize) -> (r: Result<
    (usize, Vec<Matched>),
    Error,
>)
    requires
        index <= chars@.len(),
    ensures
        r is Ok <==> spec_until_finish(chars@, until@, level as int, index as int) is Ok,
        r matches Ok((n, m)) ==> n as int == spec_until_finish(chars@, until@, level as int, index as int).unwrap().0
            && matched_vs(m@) == spec_until_finish(chars@, until@, level as int, index as int).unwrap().1,
        r matches Err(e) ==> nested_error(e, chars@),
{
    let mut matched: Vec<Matched> = Vec::new();
    if level == 0 {
        let head = take_chars(chars, index);
        matched.push(Matched::plain(head, "selector"));
        assert(matched_vs(matched@) =~= seq![plain_v(chars@.take(index as int))]);
    } else {
        assert(matched_vs(matched@) =~= Seq::empty());
    }
    if until.len() == 0 {
        return Ok((index, matched));
    }
    let rest = slice_skip(chars, index);
    let (until_matched, count, queue_num, _) = exec(until, rest);
    let total = chars.len();
    assert(rest@.len() == chars@.len() - index);
    if queue_num != until.len() {
        let e = invalid_selector(rest, "Nested selector parse error at index ", index);
        assert(rest@.is_suffix_of(chars@)) by {
            assert(rest@ =~= chars@.subrange(chars@.len() - rest@.len(), chars@.len() as int));
        }
        return Err(e);
    }
    if level == 0 {
        let ghost before = matched@;
        let mut um = until_matched;
        let ghost umv = matched_vs(um@);
        matched.append(&mut um);
        assert(matched_vs(matched@) =~= matched_vs(before) + umv);
    }
    Ok((index + count, matched))
}

fn take_chars(chars: &[char], n: usize) -> (r: Vec<char>)
    requires
        n <= chars@.len(),
    ensures
        r@ == chars@.take(n as int),
{
    let mut r: Vec<char> = Vec::new();
    let mut i: usize = 0;
    while i < n
        invariant
            n <= chars@.len(),
            i <= n,
            r@ == chars@.take(i as int),
        decreases n - i,
    {
        r.push(chars[i]);
        i += 1;
        assert(r@ =~= chars@.take(i as int));
    }
    r
}

/// The state of the selector parser.
pub struct PState {
    pub index: int,
    pub comb: Combinator,
    pub prev_in: PrevIn,
    pub last_in: PrevIn,
    pub groups: Seq<Seq<Seq<SpecSeg>>>,
}

/// Adds a simple selector: as a new compound of the last group, or chained
/// to the last compound.
pub open spec fn spec_add_item(groups: Seq<Seq<Seq<SpecSeg>>>, item: SpecSeg, is_new: bool) -> Seq<
    Seq<Seq<SpecSeg>>,
> {
    if groups.len() == 0 {
        groups
    } else {
        let last = groups.last();
        let last2 = if is_new {
            last.push(seq![item])
        } else if last.len() > 0 {
            last.update(last.len() - 1, last.last().push(item))
        } else {
            last
        };
        groups.update(groups.len() - 1, last2)
    }
}

/// One step of the selector parser at `st.index`: a combinator, or a simple
/// selector read by the first rule that recognises it.
/// - two combinators in a row are refused;
/// - `,` must follow a simple selector and opens a new group;
/// - a whitespace combinator keeps the last state before it, so that
///   whitespace at the end is allowed;
/// - a simple selector right after another is chained to it;
/// - an unrecognised text, or a nested selector that fails, is refused.
pub open spec fn spec_step(rules: Seq<Rule>, splitter: Seq<Pattern>, chars: Seq<char>, st: PState) -> Result<
    PState,
    (),
> {
    let i = st.index;
    let s = chars.skip(i);
    let sl = spec_split_len(splitter, s);
    if sl > 0 {
        if st.prev_in == PrevIn::Splitter {
            Err(())
        } else {
            let op = spec_split_op(splitter, s);
            if op == Some(',') {
                if st.prev_in != PrevIn::Selector {
                    Err(())
                } else {
                    Ok(
                        PState {
                            index: i + sl,
                            comb: Combinator::ChildrenAll,
                            prev_in: PrevIn::Splitter,
                            last_in: PrevIn::Splitter,
                            groups: st.groups.push(Seq::empty()),
                        },
                    )
                }
            } else {
                match spec_combinator_of_char(op) {
                    None => Err(()),
                    Some(c) => Ok(
                        PState {
                            index: i + sl,
                            comb: c,
                            prev_in: PrevIn::Splitter,
                            last_in: if op is None {
                                st.prev_in
                            } else {
                                PrevIn::Splitter
                            },
                            groups: st.groups,
                        },
                    ),
                }
            }
        }
    } else {
        let is_new = st.prev_in != PrevIn::Selector;
        let comb = if is_new {
            st.comb
        } else {
            Combinator::Chain
        };
        let last_in = if is_new {
            PrevIn::Selector
        } else {
            st.last_in
        };
        match spec_first_rule(rules, s, 0) {
            None => Err(()),
            Some(j) => {
                let (data, len, num) = spec_exec_queues(rules[j].queues@, s).unwrap();
                if len <= 0 || i + len > chars.len() {
                    Err(())
                } else if num == rules[j].queues@.len() {
                    if !spec_can_make(rules[j].kind, data) {
                        Err(())
                    } else {
                        Ok(
                            PState {
                                index: i + len,
                                comb,
                                prev_in: PrevIn::Selector,
                                last_in,
                                groups: spec_add_item(st.groups, (j, data, comb), is_new),
                            },
                        )
                    }
                } else {
                    match spec_until(
                        rules,
                        splitter,
                        chars.skip(i + len),
                        rules[j].queues@.skip(num + 1),
                        0,
                    ) {
                        Err(_) => Err(()),
                        Ok((k, nested)) => if k < 0 || k > chars.len() - (i + len)
                            || !spec_can_make(rules[j].kind, data + nested) {
                            Err(())
                        } else {
                            Ok(
                                PState {
                                    index: i + len + k,
                                    comb,
                                    prev_in: PrevIn::Selector,
                                    last_in,
                                    groups: spec_add_item(
                                        st.groups,
                                        (j, data + nested, comb),
                                        is_new,
                                    ),
                                },
                            )
                        },
                    }
                }
            },
        }
    }
}

/// Runs the parser from `st` to the end: the groups, when the text ends
/// after a simple selector.
pub open spec fn spec_parse_from(rules: Seq<Rule>, splitter: Seq<Pattern>, chars: Seq<char>, st: PState) -> Result<
    Seq<Seq<Seq<SpecSeg>>>,
    (),
>
    decreases chars.len() - st.index,
{
    if st.index < 0 || st.index >= chars.len() {
        if st.last_in == PrevIn::Selector {
            Ok(st.groups)
        } else {
            Err(())
        }
    } else {
        match spec_step(rules, splitter, chars, st) {
            Err(_) => Err(()),
            Ok(st2) => if st2.index > st.index {
                spec_parse_from(rules, splitter, chars, st2)
            } else {
                Err(())
            },
        }
    }
}

/// The groups of a selector text; the empty text has none.
pub open spec fn spec_parse(rules: Seq<Rule>, splitter: Seq<Pattern>, chars: Seq<char>) -> Result<
    Seq<Seq<Seq<SpecSeg>>>,
    (),
> {
    if chars.len() == 0 {
        Ok(Seq::empty())
    } else {
        spec_parse_from(
            rules,
            splitter,
            chars,
            PState {
                index: 0,
                comb: Combinator::ChildrenAll,
                prev_in: PrevIn::Begin,
                last_in: PrevIn::Begin,
                groups: seq![Seq::empty()],
            },
        )
    }
}

/// A segment is the one the rule `s.0` builds from `s.1`, joined by `s.2`.
pub open spec fn seg_made(rules: Seq<Rule>, e: SelectorSegment, s: SpecSeg) -> bool {
    &&& 0 <= s.0 < rules.len()
    &&& spec_made(rules[s.0].kind, s.1, e.0.kind)
    &&& e.0.priority == rules[s.0].priority
    &&& e.0.in_cache == rules[s.0].in_cache
    &&& e.1 == s.2
}

pub open spec fn compound_made(rules: Seq<Rule>, e: Seq<SelectorSegment>, s: Seq<SpecSeg>) -> bool {
    e.len() == s.len() && forall|k: int| 0 <= k < e.len() ==> seg_made(rules, #[trigger] e[k], s[k])
}

pub open spec fn compounds_made(rules: Seq<Rule>, e: Seq<Vec<SelectorSegment>>, s: Seq<Seq<SpecSeg>>) -> bool {
    e.len() == s.len() && forall|c: int| 0 <= c < e.len() ==> compound_made(rules, #[trigger] e[c]@, s[c])
}

pub open spec fn groups_made(
    rules: Seq<Rule>,
    e: Seq<Vec<Vec<SelectorSegment>>>,
    s: Seq<Seq<Seq<SpecSeg>>>,
) -> bool {
    e.len() == s.len() && forall|g: int| 0 <= g < e.len() ==> compounds_made(rules, #[trigger] e[g]@, s[g])
}

fn add_group_item(
    groups: &mut Vec<Vec<Vec<SelectorSegment>>>,
    item: SelectorSegment,
    is_new: bool,
    Ghost(rules): Ghost<Seq<Rule>>,
    Ghost(sg): Ghost<Seq<Seq<Seq<SpecSeg>>>>,
    Ghost(si): Ghost<SpecSeg>,
)
    requires
        groups_made(rules, old(groups)@, sg),
        seg_made(rules, item, si),
    ensures
        groups_made(rules, final(groups)@, spec_add_item(sg, si, is_new)),
{
    let n = groups.len();
    if n == 0 {
        return;
    }
    let mut last = groups.pop().unwrap();
    let ghost ls = sg.last();
    assert(compounds_made(rules, last@, ls));
    if is_new {
        let mut c: Vec<SelectorSegment> = Vec::new();
        c.push(item);
        assert(compound_made(rules, c@, seq![si]));
        last.push(c);
        assert(compounds_made(rules, last@, ls.push(seq![si]))) by {
            assert forall|k: int| 0 <= k < last@.len() implies compound_made(
                rules,
                #[trigger] last@[k]@,
                ls.push(seq![si])[k],
            ) by {
                if k < last@.len() - 1 {
                    assert(compound_made(rules, old(groups)@[n - 1]@[k]@, ls[k]));
                }
            }
        }
    } else if last.len() > 0 {
        let m = last.len();
        let mut c = last.pop().unwrap();
        let ghost cs = ls.last();
        assert(compound_made(rules, c@, cs)) by {
            assert(compound_made(rules, old(groups)@[n - 1]@[m - 1]@, ls[m - 1]));
        }
        c.push(item);
        assert(compound_made(rules, c@, cs.push(si)));
        last.push(c);
        assert(compounds_made(rules, last@, ls.update(ls.len() - 1, cs.push(si)))) by {
            assert forall|k: int| 0 <= k < last@.len() implies compound_made(
                rules,
                #[trigger] last@[k]@,
                ls.update(ls.len() - 1, cs.push(si))[k],
            ) by {
                if k < last@.len() - 1 {
                    assert(compound_made(rules, old(groups)@[n - 1]@[k]@, ls[k]));
                }
            }
        }
    }
    groups.push(last);
    proof {
        let sg2 = spec_add_item(sg, si, is_new);
        assert forall|g: int| 0 <= g < groups@.len() implies compounds_made(
            rules,
            #[trigger] groups@[g]@,
            sg2[g],
        ) by {
            if g < groups@.len() - 1 {
                assert(compounds_made(rules, old(groups)@[g]@, sg[g]));
            }
        }
    }
}

/// Parses a selector text into its groups (see `spec_parse`); a text that
/// does not parse is refused with an `InvalidSelector` error.
pub fn parse_groups(chars: &[char], rules: &[Rule], splitter: &[Pattern]) -> (r: Result<
    Vec<Vec<Vec<SelectorSegment>>>,
    Error,
>)
    requires
        chars@.len() < usize::MAX,
    ensures
        r is Ok <==> spec_parse(rules@, splitter@, chars@) is Ok,
        r matches Ok(g) ==> groups_made(rules@, g@, spec_parse(rules@, splitter@, chars@).unwrap()),
        r matches Err(e) ==> selector_error(e, chars@),
{
    let total_len = chars.len();
    let mut groups: Vec<Vec<Vec<SelectorSegment>>> = Vec::new();
    if total_len == 0 {
        assert(groups_made(rules@, groups@, Seq::empty()));
        return Ok(groups);
    }
    let mut index: usize = 0;
    let mut comb = Combinator::ChildrenAll;
    let mut prev_in = PrevIn::Begin;
    let mut last_in = prev_in;
    groups.push(Vec::new());
    let ghost mut st = PState {
        index: 0,
        comb: Combinator::ChildrenAll,
        prev_in: PrevIn::Begin,
        last_in: PrevIn::Begin,
        groups: seq![Seq::empty()],
    };
    assert(groups_made(rules@, groups@, st.groups)) by {
        assert(compounds_made(rules@, groups@[0]@, st.groups[0]));
    }
    while index < total_len
        invariant
            total_len == chars@.len(),
            total_len < usize::MAX,
            index <= total_len,
            st.index == index,
            st.comb == comb,
            st.prev_in == prev_in,
            st.last_in == last_in,
            groups_made(rules@, groups@, st.groups),
            spec_parse_from(rules@, splitter@, chars@, st) == spec_parse(rules@, splitter@, chars@),
        decreases total_len - index,
    {
        let next_chars = slice_skip(chars, index);
        let ghost st0 = st;
        let ghost next_st = spec_step(rules@, splitter@, chars@, st0);
        let (sl, op) = split_at(splitter, next_chars);
        if sl > 0 {
            if prev_in == PrevIn::Splitter {
                let piece = take_chars(next_chars, sl);
                return Err(invalid_selector_at(chars, "Wrong combinator ", piece.as_slice(), index));
            }
            index += sl;
            if op == Some(',') {
                if prev_in != PrevIn::Selector {
                    return Err(invalid_selector(chars, "Wrong empty selector before ',' at index  ", index));
                }
                groups.push(Vec::new());
                comb = Combinator::ChildrenAll;
                prev_in = PrevIn::Splitter;
                last_in = PrevIn::Splitter;
            } else {
                match from_op_char(op) {
                    Some(c) => {
                        comb = c;
                    },
                    None => {
                        let piece = take_chars(next_chars, sl);
                        return Err(invalid_selector_at(chars, "Wrong combinator ", piece.as_slice(), index));
                    },
                }
                if op.is_none() {
                    last_in = prev_in;
                    prev_in = PrevIn::Splitter;
                } else {
                    prev_in = PrevIn::Splitter;
                    last_in = PrevIn::Splitter;
                }
            }
            proof {
                st = next_st.unwrap();
                assert(groups_made(rules@, groups@, st.groups)) by {
                    if op == Some(',') {
                        assert forall|g: int| 0 <= g < groups@.len() implies compounds_made(
                            rules@,
                            #[trigger] groups@[g]@,
                            st.groups[g],
                        ) by {
                            if g < groups@.len() - 1 {
                                assert(compounds_made(rules@, groups@[g]@, st0.groups[g]));
                            }
                        }
                    }
                }
            }
            continue;
        }
        let is_new = prev_in != PrevIn::Selector;
        if !is_new {
            comb = Combinator::Chain;
        } else {
            prev_in = PrevIn::Selector;
            last_in = PrevIn::Selector;
        }
        match find_rule(rules, next_chars) {
            None => {
                return Err(invalid_selector_at(chars, "Unrecognized selector ", next_chars, index));
            },
            Some((j, mut matched, len, num)) => {
                if len == 0 || len > total_len - index {
                    return Err(invalid_selector_at(chars, "Unrecognized selector ", next_chars, index));
                }
                if num == rules[j].queues.len() {
                    match rules[j].make(&matched) {
                        Some(m) => {
                            let ghost si: SpecSeg = (j as int, matched_vs(matched@), comb);
                            add_group_item(&mut groups, (m, comb), is_new, Ghost(rules@), Ghost(st0.groups), Ghost(si));
                        },
                        None => {
                            return Err(invalid_selector_at(chars, "Unrecognized selector ", next_chars, index));
                        },
                    }
                    index += len;
                } else {
                    let rest = slice_skip(chars, index + len);
                    let nested_until = slice_skip_patterns(rules[j].queues.as_slice(), num + 1);
                    let (k, mut nested) = match Selector::parse_until(rest, nested_until, rules, splitter, 0) {
                        Ok(p) => p,
                        Err(e) => {
                            proof {
                                if e is InvalidSelector {
                                    lemma_suffix_skip(e->context@, chars@, (index + len) as int);
                                }
                            }
                            return Err(e);
                        },
                    };
                    if k > total_len - (index + len) {
                        return Err(invalid_selector(chars, "Nested selector parse error at index ", index));
                    }
                    let ghost mv = matched_vs(matched@);
                    let ghost nv = matched_vs(nested@);
                    matched.append(&mut nested);
                    assert(matched_vs(matched@) =~= mv + nv);
                    match rules[j].make(&matched) {
                        Some(m) => {
                            let ghost si: SpecSeg = (j as int, matched_vs(matched@), comb);
                            add_group_item(&mut groups, (m, comb), is_new, Ghost(rules@), Ghost(st0.groups), Ghost(si));
                        },
                        None => {
                            return Err(invalid_selector_at(chars, "Unrecognized selector ", next_chars, index));
                        },
                    }
                    index += len + k;
                }
                proof {
                    st = next_st.unwrap();
                }
            },
        }
    }
    if last_in != PrevIn::Selector {
        return Err(invalid_selector_plain(chars, "Wrong selector rule at last"));
    }
    Ok(groups)
}

/// The segments of a compound whose rule has priority `p`, in order.
pub open spec fn spec_with_prio(rules: Seq<Rule>, c: Seq<SpecSeg>, p: u32) -> Seq<SpecSeg>
    decreases c.len(),
{
    if c.len() == 0 {
        Seq::empty()
    } else {
        let prev = spec_with_prio(rules, c.drop_last(), p);
        if 0 <= c.last().0 < rules.len() && rules[c.last().0].priority == p {
            prev.push(c.last())
        } else {
            prev
        }
    }
}

/// The rules' priorities are among those the library uses.
pub open spec fn prios_ok(rules: Seq<Rule>) -> bool {
    forall|j: int|
        0 <= j < rules.len() ==> {
            let p = #[trigger] rules[j].priority;
            p == 10000 || p == 1000 || p == 100 || p == 10 || p == 0
        }
}

/// The segments ordered by priority, highest first, keeping the order of
/// equal priorities.
pub open spec fn spec_sorted(rules: Seq<Rule>, c: Seq<SpecSeg>) -> Seq<SpecSeg> {
    spec_with_prio(rules, c, 10000) + spec_with_prio(rules, c, 1000) + spec_with_prio(rules, c, 100)
        + spec_with_prio(rules, c, 10) + spec_with_prio(rules, c, 0)
}

/// The first segment joins by `first`, the others are chained.
pub open spec fn spec_fix_combs(c: Seq<SpecSeg>, first: Combinator) -> Seq<SpecSeg> {
    Seq::new(
        c.len(),
        |k: int|
            (c[k].0, c[k].1, if k == 0 {
                first
            } else {
                Combinator::Chain
            }),
    )
}

/// A compound selector applies its highest priority selectors first; the
/// first one keeps the compound's combinator.
pub open spec fn spec_sort_compound(rules: Seq<Rule>, c: Seq<SpecSeg>) -> Seq<SpecSeg> {
    if c.len() <= 1 {
        c
    } else {
        spec_fix_combs(spec_sorted(rules, c), c[0].2)
    }
}

/// The sum of the priorities of a compound.
pub open spec fn spec_total(rules: Seq<Rule>, c: Seq<SpecSeg>) -> int
    decreases c.len(),
{
    if c.len() == 0 {
        0
    } else {
        spec_total(rules, c.drop_last()) + if 0 <= c.last().0 < rules.len() {
            rules[c.last().0].priority as int
        } else {
            0
        }
    }
}

/// The position of the first compound of greatest total priority (0 when
/// every total is 0).
pub open spec fn spec_max_from(rules: Seq<Rule>, g: Seq<Seq<SpecSeg>>, k: int, best: int, best_p: int) -> int
    decreases g.len() - k,
{
    if k < 0 || k >= g.len() {
        best
    } else if spec_total(rules, g[k]) > best_p {
        spec_max_from(rules, g, k + 1, k, spec_total(rules, g[k]))
    } else {
        spec_max_from(rules, g, k + 1, best, best_p)
    }
}

/// The query of one group: its compounds sorted; with the lookup
/// optimization, when the compound of greatest priority is not the first and
/// the group starts with a descendant or child combinator, the compounds
/// before it become the lookup part.
pub open spec fn spec_optimize_group(rules: Seq<Rule>, g: Seq<Seq<SpecSeg>>, use_lookup: bool) -> (
    Option<Seq<Seq<SpecSeg>>>,
    Seq<Seq<SpecSeg>>,
) {
    let sorted = Seq::new(g.len(), |c: int| spec_sort_compound(rules, g[c]));
    let mi = spec_max_from(rules, g, 0, 0, 0);
    if use_lookup && mi > 0 && sorted.len() > 0 && sorted[0].len() > 0 && (sorted[0][0].2
        is Children || sorted[0][0].2 is ChildrenAll) {
        (Some(sorted.take(mi)), sorted.skip(mi))
    } else {
        (None, sorted)
    }
}

pub open spec fn process_made(
    rules: Seq<Rule>,
    e: QueryProcess,
    s: (Option<Seq<Seq<SpecSeg>>>, Seq<Seq<SpecSeg>>),
) -> bool {
    compounds_made(rules, e.query@, s.1) && match (e.should_in, s.0) {
        (Some(x), Some(y)) => compounds_made(rules, x@, y),
        (None, None) => true,
        _ => false,
    }
}

/// The selector holds, for each group, its optimized query.
pub open spec fn selector_made(
    rules: Seq<Rule>,
    sel: Selector,
    groups: Seq<Seq<Seq<SpecSeg>>>,
    use_lookup: bool,
) -> bool {
    sel.process@.len() == groups.len() && forall|i: int|
        0 <= i < groups.len() ==> process_made(
            rules,
            #[trigger] sel.process@[i],
            spec_optimize_group(rules, groups[i], use_lookup),
        )
}

proof fn lemma_with_prio_step(rules: Seq<Rule>, sc: Seq<SpecSeg>, i: int, p: u32)
    requires
        0 <= i < sc.len(),
    ensures
        spec_with_prio(rules, sc.take(i + 1), p) == if 0 <= sc[i].0 < rules.len()
            && rules[sc[i].0].priority == p {
            spec_with_prio(rules, sc.take(i), p).push(sc[i])
        } else {
            spec_with_prio(rules, sc.take(i), p)
        },
{
    assert(sc.take(i + 1).drop_last() =~= sc.take(i));
}

fn push_bucket(
    b: &mut Vec<SelectorSegment>,
    seg: SelectorSegment,
    Ghost(rules): Ghost<Seq<Rule>>,
    Ghost(sb): Ghost<Seq<SpecSeg>>,
    Ghost(ss): Ghost<SpecSeg>,
)
    requires
        compound_made(rules, old(b)@, sb),
        seg_made(rules, seg, ss),
    ensures
        compound_made(rules, final(b)@, sb.push(ss)),
{
    b.push(seg);
    assert forall|k: int| 0 <= k < b@.len() implies seg_made(rules, #[trigger] b@[k], sb.push(ss)[k]) by {
        if k < b@.len() - 1 {
            assert(seg_made(rules, old(b)@[k], sb[k]));
        }
    }
}

fn append_made(
    a: &mut Vec<SelectorSegment>,
    b: Vec<SelectorSegment>,
    Ghost(rules): Ghost<Seq<Rule>>,
    Ghost(sa): Ghost<Seq<SpecSeg>>,
    Ghost(sb): Ghost<Seq<SpecSeg>>,
)
    requires
        compound_made(rules, old(a)@, sa),
        compound_made(rules, b@, sb),
    ensures
        compound_made(rules, final(a)@, sa + sb),
{
    let mut b = b;
    let ghost bv = b@;
    a.append(&mut b);
    assert forall|k: int| 0 <= k < a@.len() implies seg_made(rules, #[trigger] a@[k], (sa + sb)[k]) by {
        if k < old(a)@.len() {
            assert(seg_made(rules, old(a)@[k], sa[k]));
        } else {
            assert(seg_made(rules, bv[k - old(a)@.len()], sb[k - old(a)@.len()]));
        }
    }
}

/// Orders a compound by priority (see `spec_sort_compound`).
fn sort_compound(c: Vec<SelectorSegment>, Ghost(rules): Ghost<Seq<Rule>>, Ghost(sc): Ghost<Seq<SpecSeg>>) -> (r:
    Vec<SelectorSegment>)
    requires
        compound_made(rules, c@, sc),
        prios_ok(rules),
    ensures
        compound_made(rules, r@, spec_sort_compound(rules, sc)),
{
    if c.len() <= 1 {
        return c;
    }
    let first_comb = c[0].1;
    assert(seg_made(rules, c@[0], sc[0]));
    let mut b0: Vec<SelectorSegment> = Vec::new();
    let mut b1: Vec<SelectorSegment> = Vec::new();
    let mut b2: Vec<SelectorSegment> = Vec::new();
    let mut b3: Vec<SelectorSegment> = Vec::new();
    let mut b4: Vec<SelectorSegment> = Vec::new();
    let mut rest = c;
    let ghost mut i: int = 0;
    let ghost orig = rest@;
    proof {
        assert(sc.take(0) =~= Seq::<SpecSeg>::empty());
        assert(compound_made(rules, b0@, spec_with_prio(rules, sc.take(0), 10000)));
        assert(compound_made(rules, b1@, spec_with_prio(rules, sc.take(0), 1000)));
        assert(compound_made(rules, b2@, spec_with_prio(rules, sc.take(0), 100)));
        assert(compound_made(rules, b3@, spec_with_prio(rules, sc.take(0), 10)));
        assert(compound_made(rules, b4@, spec_with_prio(rules, sc.take(0), 0)));
        assert(rest@ =~= orig.skip(0));
    }
    while rest.len() > 0
        invariant
            prios_ok(rules),
            compound_made(rules, orig, sc),
            0 <= i <= sc.len(),
            rest@ == orig.skip(i),
            compound_made(rules, b0@, spec_with_prio(rules, sc.take(i), 10000)),
            compound_made(rules, b1@, spec_with_prio(rules, sc.take(i), 1000)),
            compound_made(rules, b2@, spec_with_prio(rules, sc.take(i), 100)),
            compound_made(rules, b3@, spec_with_prio(rules, sc.take(i), 10)),
            compound_made(rules, b4@, spec_with_prio(rules, sc.take(i), 0)),
        decreases rest.len(),
    {
        let seg = rest.remove(0);
        let ghost ss = sc[i];
        assert(seg_made(rules, orig[i], sc[i]));
        assert(seg == orig[i]);
        proof {
            lemma_with_prio_step(rules, sc, i, 10000);
            lemma_with_prio_step(rules, sc, i, 1000);
            lemma_with_prio_step(rules, sc, i, 100);
            lemma_with_prio_step(rules, sc, i, 10);
            lemma_with_prio_step(rules, sc, i, 0);
            assert(rules[ss.0].priority == seg.0.priority);
        }
        let p = seg.0.priority;
        if p == 10000 {
            push_bucket(&mut b0, seg, Ghost(rules), Ghost(spec_with_prio(rules, sc.take(i), 10000)), Ghost(ss));
        } else if p == 1000 {
            push_bucket(&mut b1, seg, Ghost(rules), Ghost(spec_with_prio(rules, sc.take(i), 1000)), Ghost(ss));
        } else if p == 100 {
            push_bucket(&mut b2, seg, Ghost(rules), Ghost(spec_with_prio(rules, sc.take(i), 100)), Ghost(ss));
        } else if p == 10 {
            push_bucket(&mut b3, seg, Ghost(rules), Ghost(spec_with_prio(rules, sc.take(i), 10)), Ghost(ss));
        } else {
            push_bucket(&mut b4, seg, Ghost(rules), Ghost(spec_with_prio(rules, sc.take(i), 0)), Ghost(ss));
        }
        proof {
            i = i + 1;
            assert(rest@ =~= orig.skip(i));
        }
    }
    assert(sc.take(i) =~= sc);
    append_made(&mut b0, b1, Ghost(rules), Ghost(spec_with_prio(rules, sc, 10000)), Ghost(spec_with_prio(rules, sc, 1000)));
    append_made(&mut b0, b2, Ghost(rules), Ghost(spec_with_prio(rules, sc, 10000) + spec_with_prio(rules, sc, 1000)), Ghost(spec_with_prio(rules, sc, 100)));
    append_made(&mut b0, b3, Ghost(rules), Ghost(spec_with_prio(rules, sc, 10000) + spec_with_prio(rules, sc, 1000) + spec_with_prio(rules, sc, 100)), Ghost(spec_with_prio(rules, sc, 10)));
    append_made(&mut b0, b4, Ghost(rules), Ghost(spec_with_prio(rules, sc, 10000) + spec_with_prio(rules, sc, 1000) + spec_with_prio(rules, sc, 100) + spec_with_prio(rules, sc, 10)), Ghost(spec_with_prio(rules, sc, 0)));
    let ghost sorted = spec_sorted(rules, sc);
    assert(compound_made(rules, b0@, sorted));
    // the first keeps the compound's combinator, the others are chained
    let mut result: Vec<SelectorSegment> = Vec::new();
    let ghost fixed = spec_fix_combs(sorted, first_comb);
    let ghost src = b0@;
    let n0 = b0.len();
    assert(src.len() == n0);
    let mut k: usize = 0;
    while b0.len() > 0
        invariant
            src.len() == sorted.len(),
            src.len() <= usize::MAX,
            compound_made(rules, src, sorted),
            fixed == spec_fix_combs(sorted, first_comb),
            k <= src.len(),
            b0@ == src.skip(k as int),
            compound_made(rules, result@, fixed.take(k as int)),
        decreases b0.len(),
    {
        assert(k < src.len());
        let (m, _) = b0.remove(0);
        assert(seg_made(rules, src[k as int], sorted[k as int]));
        let seg = (m, if k == 0 { first_comb } else { Combinator::Chain });
        push_bucket(&mut result, seg, Ghost(rules), Ghost(fixed.take(k as int)), Ghost(fixed[k as int]));
        assert(fixed.take(k as int).push(fixed[k as int]) =~= fixed.take(k + 1));
        k += 1;
        assert(b0@ =~= src.skip(k as int));
    }
    assert(fixed.take(k as int) =~= fixed);
    result
}

/// The sum of the priorities of a compound (see `spec_total`).
fn total_priority(c: &Vec<SelectorSegment>, Ghost(rules): Ghost<Seq<Rule>>, Ghost(sc): Ghost<Seq<SpecSeg>>) -> (r:
    u128)
    requires
        compound_made(rules, c@, sc),
        prios_ok(rules),
    ensures
        r == spec_total(rules, sc),
{
    let mut t: u128 = 0;
    let mut i: usize = 0;
    assert(sc.take(0) =~= Seq::<SpecSeg>::empty());
    while i < c.len()
        invariant
            i <= c@.len(),
            compound_made(rules, c@, sc),
            prios_ok(rules),
            t == spec_total(rules, sc.take(i as int)),
            t <= 10000 * i,
        decreases c.len() - i,
    {
        assert(seg_made(rules, c@[i as int], sc[i as int]));
        assert(sc.take(i + 1).drop_last() =~= sc.take(i as int));
        let p = c[i].0.priority;
        assert(p <= 10000);
        t = t + p as u128;
        i += 1;
    }
    assert(sc.take(i as int) =~= sc);
    t
}

/// The position of the first compound of greatest total priority (see
/// `spec_max_from`).
fn max_index(totals: &Vec<u128>, Ghost(rules): Ghost<Seq<Rule>>, Ghost(g): Ghost<Seq<Seq<SpecSeg>>>) -> (r: usize)
    requires
        totals@.len() == g.len(),
        forall|k: int| 0 <= k < g.len() ==> totals@[k] == spec_total(rules, #[trigger] g[k]),
    ensures
        r as int == spec_max_from(rules, g, 0, 0, 0),
{
    let mut best: usize = 0;
    let mut best_p: u128 = 0;
    let mut k: usize = 0;
    while k < totals.len()
        invariant
            totals@.len() == g.len(),
            forall|j: int| 0 <= j < g.len() ==> totals@[j] == spec_total(rules, #[trigger] g[j]),
            k <= g.len(),
            spec_max_from(rules, g, 0, 0, 0) == spec_max_from(rules, g, k as int, best as int, best_p as int),
        decreases totals.len() - k,
    {
        let t = totals[k];
        assert(t == spec_total(rules, g[k as int]));
        if t > best_p {
            best = k;
            best_p = t;
        }
        k += 1;
    }
    best
}

proof fn lemma_max_from_bound(rules: Seq<Rule>, g: Seq<Seq<SpecSeg>>, k: int, best: int, best_p: int)
    requires
        0 <= k,
    ensures
        spec_max_from(rules, g, k, best, best_p) == best || 0 <= spec_max_from(rules, g, k, best, best_p) < g.len(),
    decreases g.len() - k,
{
    if k < g.len() {
        if spec_total(rules, g[k]) > best_p {
            lemma_max_from_bound(rules, g, k + 1, k, spec_total(rules, g[k]));
        } else {
            lemma_max_from_bound(rules, g, k + 1, best, best_p);
        }
    }
}

/// The query of one group (see `spec_optimize_group`).
fn optimize_group(
    group: Vec<Vec<SelectorSegment>>,
    use_lookup: bool,
    Ghost(rules): Ghost<Seq<Rule>>,
    Ghost(sg): Ghost<Seq<Seq<SpecSeg>>>,
) -> (r: QueryProcess)
    requires
        compounds_made(rules, group@, sg),
        prios_ok(rules),
    ensures
        process_made(rules, r, spec_optimize_group(rules, sg, use_lookup)),
{
    let ghost target = Seq::new(sg.len(), |c: int| spec_sort_compound(rules, sg[c]));
    let mut totals: Vec<u128> = Vec::new();
    let mut sorted: Vec<Vec<SelectorSegment>> = Vec::new();
    let mut rest = group;
    let ghost orig = rest@;
    let ghost mut i: int = 0;
    assert(rest@ =~= orig.skip(0));
    while rest.len() > 0
        invariant
            compounds_made(rules, orig, sg),
            prios_ok(rules),
            0 <= i <= sg.len(),
            rest@ == orig.skip(i),
            totals@.len() == i,
            forall|k: int| 0 <= k < i ==> totals@[k] == spec_total(rules, #[trigger] sg[k]),
            target == Seq::new(sg.len(), |c: int| spec_sort_compound(rules, sg[c])),
            compounds_made(rules, sorted@, target.take(i)),
        decreases rest.len(),
    {
        let c = rest.remove(0);
        assert(c == orig[i]);
        assert(compound_made(rules, orig[i]@, sg[i]));
        let t = total_priority(&c, Ghost(rules), Ghost(sg[i]));
        totals.push(t);
        let s = sort_compound(c, Ghost(rules), Ghost(sg[i]));
        let ghost before = sorted@;
        sorted.push(s);
        proof {
            assert(target[i] == spec_sort_compound(rules, sg[i]));
            assert forall|k: int| 0 <= k < sorted@.len() implies compound_made(
                rules,
                #[trigger] sorted@[k]@,
                target.take(i + 1)[k],
            ) by {
                if k < i {
                    assert(compound_made(rules, before[k]@, target.take(i)[k]));
                }
            }
            i = i + 1;
            assert(rest@ =~= orig.skip(i));
        }
    }
    assert(target.take(i) =~= target);
    let mi = if use_lookup {
        max_index(&totals, Ghost(rules), Ghost(sg))
    } else {
        0
    };
    if use_lookup && mi > 0 && sorted.len() > 0 && sorted[0].len() > 0 {
        assert(compound_made(rules, sorted@[0]@, target[0]));
        assert(seg_made(rules, sorted@[0]@[0], target[0][0]));
        let first = sorted[0][0].1;
        if first == Combinator::Children || first == Combinator::ChildrenAll {
            proof {
                lemma_max_from_bound(rules, sg, 0, 0, 0);
            }
            let ghost all = sorted@;
            let query = sorted.split_off(mi);
            proof {
                assert forall|k: int| 0 <= k < query@.len() implies compound_made(
                    rules,
                    #[trigger] query@[k]@,
                    target.skip(mi as int)[k],
                ) by {
                    assert(compound_made(rules, all[k + mi]@, target[k + mi]));
                }
                assert forall|k: int| 0 <= k < sorted@.len() implies compound_made(
                    rules,
                    #[trigger] sorted@[k]@,
                    target.take(mi as int)[k],
                ) by {
                    assert(compound_made(rules, all[k]@, target[k]));
                }
            }
            return QueryProcess { should_in: Some(sorted), query };
        }
    }
    QueryProcess { should_in: None, query: sorted }
}

/// Every rule of the library has one of the priorities that compounds are
/// ordered by.
pub proof fn lemma_rules_prios(rules: Seq<Rule>)
    requires
        spec_rules(rules),
    ensures
        prios_ok(rules),
{
    let ps = rules.subrange(4, 23);
    assert forall|j: int| 0 <= j < rules.len() implies {
        let p = #[trigger] rules[j].priority;
        p == 10000 || p == 1000 || p == 100 || p == 10 || p == 0
    } by {
        if 4 <= j < 23 {
            assert(ps[j - 4] == rules[j]);
            assert(ps[j - 4].priority == 10);
        }
    }
}

/// The groups, each optimized (see `spec_optimize_group`).
fn optimize(groups: Vec<Vec<Vec<SelectorSegment>>>, use_lookup: bool, Ghost(rules): Ghost<Seq<Rule>>, Ghost(sg): Ghost<
    Seq<Seq<Seq<SpecSeg>>>,
>) -> (r: Vec<QueryProcess>)
    requires
        groups_made(rules, groups@, sg),
        prios_ok(rules),
    ensures
        r@.len() == sg.len(),
        forall|i: int|
            0 <= i < sg.len() ==> process_made(
                rules,
                #[trigger] r@[i],
                spec_optimize_group(rules, sg[i], use_lookup),
            ),
{
    let mut process: Vec<QueryProcess> = Vec::new();
    let mut rest = groups;
    let ghost orig = rest@;
    let ghost mut i: int = 0;
    assert(rest@ =~= orig.skip(0));
    while rest.len() > 0
        invariant
            groups_made(rules, orig, sg),
            prios_ok(rules),
            0 <= i <= sg.len(),
            rest@ == orig.skip(i),
            process@.len() == i,
            forall|k: int|
                0 <= k < i ==> process_made(
                    rules,
                    #[trigger] process@[k],
                    spec_optimize_group(rules, sg[k], use_lookup),
                ),
        decreases rest.len(),
    {
        let g = rest.remove(0);
        assert(g == orig[i]);
        assert(compounds_made(rules, orig[i]@, sg[i]));
        let p = optimize_group(g, use_lookup, Ghost(rules), Ghost(sg[i]));
        process.push(p);
        proof {
            i = i + 1;
            assert(rest@ =~= orig.skip(i));
        }
    }
    process
}

/// The matcher of `*`.
pub open spec fn all_matcher() -> Matcher {
    Matcher { kind: MatcherKind::All, priority: PRIORITY_ALL_SELECTOR, in_cache: false }
}

/// `v2` is the compound list `v` whose first compound joins by `comb`: the
/// first simple selector takes `comb` where it was a descendant one; else a
/// `*` joined by `comb` comes first.
pub open spec fn spec_led_by(v: Seq<Vec<SelectorSegment>>, v2: Seq<Vec<SelectorSegment>>, comb: Combinator) -> bool {
    if v.len() == 0 {
        v2 == v
    } else if v[0]@.len() > 0 && v[0]@[0].1 is ChildrenAll {
        &&& v2.len() == v.len()
        &&& v2.skip(1) == v.skip(1)
        &&& v2[0]@ == v[0]@.update(0, (v[0]@[0].0, comb))
    } else {
        &&& v2.len() == v.len() + 1
        &&& v2.skip(1) == v
        &&& v2[0]@ == seq![(all_matcher(), comb)]
    }
}

/// The compounds that a selector of `p` starts with: the lookup part where
/// there is one, else the query.
pub open spec fn spec_head(p: QueryProcess) -> Seq<Vec<SelectorSegment>> {
    match p.should_in {
        Some(s) => s@,
        None => p.query@,
    }
}

/// `p2` is `p` whose head is led by `comb`.
pub open spec fn spec_process_led(p: QueryProcess, p2: QueryProcess, comb: Combinator) -> bool {
    match p.should_in {
        Some(_) => p2.query == p.query && p2.should_in is Some && spec_led_by(spec_head(p), spec_head(p2), comb),
        None => p2.should_in is None && spec_led_by(p.query@, p2.query@, comb),
    }
}

fn lead(v: Vec<Vec<SelectorSegment>>, comb: Combinator) -> (r: Vec<Vec<SelectorSegment>>)
    ensures
        spec_led_by(v@, r@, comb),
{
    let mut v = v;
    if v.len() == 0 {
        return v;
    }
    let ghost v0 = v@;
    let descendants_first = v[0].len() > 0 && v[0][0].1 == Combinator::ChildrenAll;
    match descendants_first {
        true => {
            let mut first = v.remove(0);
            let ghost f0 = first@;
            let (m, _) = first.remove(0);
            first.insert(0, (m, comb));
            assert(first@ =~= f0.update(0, (f0[0].0, comb)));
            v.insert(0, first);
            assert(v@.skip(1) =~= v0.skip(1));
        },
        false => {
            let seg = Selector::make_comb_all(comb);
            let mut c: Vec<SelectorSegment> = Vec::new();
            c.push(seg);
            assert(c@ =~= seq![(all_matcher(), comb)]);
            v.insert(0, c);
            assert(v@.skip(1) =~= v0);
        },
    }
    v
}

fn lead_process(p: QueryProcess, comb: Combinator) -> (r: QueryProcess)
    ensures
        spec_process_led(p, r, comb),
{
    match p.should_in {
        Some(s) => QueryProcess { should_in: Some(lead(s, comb)), query: p.query },
        None => QueryProcess { should_in: None, query: lead(p.query, comb) },
    }
}

impl Selector {
    /// A selector with no group.
    pub fn new() -> (r: Selector)
        ensures
            r.process@.len() == 0,
    {
        Selector { process: Vec::new() }
    }

    /// Parses `context` with the rules `rules` and the combinator patterns
    /// `splitter` (see `spec_parse`), then optimizes each group (see
    /// `spec_optimize_group`). A text that does not parse is refused with an
    /// `InvalidSelector` error.
    pub fn parse_with(context: &str, rules: &[Rule], splitter: &[Pattern], use_lookup: bool) -> (r: Result<
        Selector,
        Error,
    >)
        requires
            context@.len() < usize::MAX,
            prios_ok(rules@),
        ensures
            r is Ok <==> spec_parse(rules@, splitter@, context@) is Ok,
            r matches Ok(sel) ==> selector_made(
                rules@,
                sel,
                spec_parse(rules@, splitter@, context@).unwrap(),
                use_lookup,
            ),
            r matches Err(e) ==> selector_error(e, context@),
    {
        let chars = str_chars(context);
        let groups = parse_groups(chars.as_slice(), rules, splitter)?;
        let ghost sg = spec_parse(rules@, splitter@, context@).unwrap();
        let process = optimize(groups, use_lookup, Ghost(rules@), Ghost(sg));
        Ok(Selector { process })
    }

    /// Parses a selector text with the library's rules (see `spec_rules`)
    /// and combinators (see `spec_splitter`). With `use_lookup`, a group
    /// whose compound of greatest priority is not the first is looked up
    /// from that compound.
    pub fn from_str(context: &str, use_lookup: bool) -> (r: Result<Selector, Error>)
        requires
            context@.len() < usize::MAX,
        ensures
            exists|rules: Seq<Rule>, splitter: Seq<Pattern>|
                {
                    &&& spec_rules(rules)
                    &&& spec_splitter(splitter)
                    &&& (r is Ok <==> spec_parse(rules, splitter, context@) is Ok)
                    &&& (r matches Ok(sel) ==> selector_made(
                        rules,
                        sel,
                        spec_parse(rules, splitter, context@).unwrap(),
                        use_lookup,
                    ))
                },
            r matches Err(e) ==> selector_error(e, context@),
    {
        let rules = crate::rules::init();
        let splitter = splitter();
        proof {
            lemma_rules_prios(rules@);
        }
        let r = Selector::parse_with(context, rules.as_slice(), splitter.as_slice(), use_lookup);
        assert(spec_rules(rules@) && spec_splitter(splitter@));
        r
    }

    /// A `*` joined by `comb`.
    pub fn make_comb_all(comb: Combinator) -> (r: SelectorSegment)
        ensures
            r == (all_matcher(), comb),
    {
        let rule = crate::rules::all::all_rule();
        let data: Vec<Matched> = Vec::new();
        match rule.make(&data) {
            Some(m) => (m, comb),
            None => (Matcher { kind: MatcherKind::All, priority: PRIORITY_ALL_SELECTOR, in_cache: false }, comb),
        }
    }

    /// The selector of one simple selector.
    pub fn from_segment(segment: SelectorSegment) -> (r: Selector)
        ensures
            r.process@.len() == 1,
            r.process@[0].should_in is None,
            r.process@[0].query@.len() == 1,
            r.process@[0].query@[0]@ == seq![segment],
    {
        let c = vec![segment];
        let process = QueryProcess { query: vec![c], should_in: None };
        Selector { process: vec![process] }
    }

    /// Makes every group start with `comb` in place of the descendant
    /// combinator (see `spec_process_led`).
    pub fn head_combinator(&mut self, comb: Combinator)
        ensures
            final(self).process@.len() == old(self).process@.len(),
            forall|i: int|
                0 <= i < old(self).process@.len() ==> spec_process_led(
                    old(self).process@[i],
                    #[trigger] final(self).process@[i],
                    comb,
                ),
    {
        let mut procs: Vec<QueryProcess> = Vec::new();
        std::mem::swap(&mut procs, &mut self.process);
        let ghost orig = procs@;
        let mut out: Vec<QueryProcess> = Vec::new();
        let ghost mut i: int = 0;
        assert(procs@ =~= orig.skip(0));
        while procs.len() > 0
            invariant
                0 <= i <= orig.len(),
                procs@ == orig.skip(i),
                out@.len() == i,
                forall|k: int| 0 <= k < i ==> spec_process_led(orig[k], #[trigger] out@[k], comb),
            decreases procs.len(),
        {
            let p = procs.remove(0);
            assert(p == orig[i]);
            let p2 = lead_process(p, comb);
            out.push(p2);
            proof {
                i = i + 1;
                assert(procs@ =~= orig.skip(i));
            }
        }
        self.process = out;
    }
}

} // verus!
