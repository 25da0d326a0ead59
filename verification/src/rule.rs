//! Selector rules: how each simple selector is written and what it matches.
use crate::chars::copy_chars;
use crate::nth::{parse_isize, spec_number_value, spec_parses_isize};
use crate::pattern::{
    exec, matched_vs, spec_exec, Matched, MatchedV, Pattern, opt_v,
};
use vstd::prelude::*;

verus! {

/// Priorities: a compound selector applies its simple selectors with the
/// highest priority first.
pub const PRIORITY_ALL_SELECTOR: u32 = 0;
pub const PRIORITY_ATTR_SELECTOR: u32 = 10;
pub const PRIORITY_PSEUDO_SELECTOR: u32 = 10;
pub const PRIORITY_NAME_SELECTOR: u32 = 100;
pub const PRIORITY_CLASS_SELECTOR: u32 = 1000;
pub const PRIORITY_ID_SELECTOR: u32 = 10000;

/// How an attribute selector tests the attribute's value.
pub enum AttrTest {
    /// `[name]`: the attribute is present
    Exists,
    /// `^=`, `$=`, `*=` or `~=` with an empty value: never matches
    Never,
    /// `^=`: the value begins with the text
    Prefix(Vec<char>),
    /// `$=`: the value ends with the text
    Suffix(Vec<char>),
    /// `*=`: the value contains the text
    Contains(Vec<char>),
    /// `|=`: the value is the text or begins with the text and `-`
    DashMatch(Vec<char>),
    /// `~=`: one of the whitespace separated words of the value is the text
    Word(Vec<char>),
    /// `!=`: the value is not the text
    NotEqual(Vec<char>),
    /// `=`: the value is the text
    Equal(Vec<char>),
}

/// What a simple selector matches.
pub enum MatcherKind {
    /// `*`
    All,
    /// `#id`
    Id(Vec<char>),
    /// `.class`
    Class(Vec<char>),
    /// a tag name, compared without regard to ascii case
    Name(Vec<char>),
    /// `[attr...]`
    Attr(Vec<char>, AttrTest),
    /// `:root`
    Root,
    /// `:empty`
    Empty,
    /// `:only-child`
    OnlyChild,
    /// `:only-of-type`
    OnlyOfType,
    /// `:nth-child` (asc) and `:nth-last-child`; `:first-child` and
    /// `:last-child` are these with index 1
    NthChild { asc: bool, n: Option<isize>, index: Option<isize> },
    /// `:nth-of-type` (asc) and `:nth-last-of-type`; `:first-of-type` and
    /// `:last-of-type` are these with index 1
    NthOfType { asc: bool, n: Option<isize>, index: Option<isize> },
    /// `:not(selector)`
    Not(Vec<char>),
    /// `:has(selector)`
    Has(Vec<char>),
    /// `:contains(text)`; `None` for an empty argument, which matches all
    Contains(Option<Vec<char>>),
    /// `:checked`
    Checked,
    /// `:header`, `:input`, `:submit`: the elements that the selector matches
    Alias(Vec<char>),
}

/// A simple selector ready to be applied.
pub struct Matcher {
    pub kind: MatcherKind,
    pub priority: u32,
    pub in_cache: bool,
}

/// The kinds of selector rules.
#[derive(PartialEq, Eq, Structural, Clone, Copy)]
pub enum RuleKind {
    All,
    Id,
    Class,
    Name,
    Attr,
    Root,
    Empty,
    FirstChild,
    LastChild,
    OnlyChild,
    NthChild,
    NthLastChild,
    FirstOfType,
    LastOfType,
    NthOfType,
    NthLastOfType,
    OnlyOfType,
    Not,
    Contains,
    Has,
    Checked,
    Header,
    Input,
    Submit,
}

/// A selector rule: the patterns it is written with and what it builds.
pub struct Rule {
    pub name: &'static str,
    pub priority: u32,
    pub in_cache: bool,
    pub queues: Vec<Pattern>,
    pub kind: RuleKind,
}

/// Where the patterns of a rule stop: `Some` when all of them matched or the
/// first that did not is a nested selector.
pub open spec fn spec_exec_queues(queues: Seq<Pattern>, s: Seq<char>) -> Option<(Seq<MatchedV>, int, int)> {
    let (m, len) = spec_exec(queues, s);
    if m.len() == queues.len() || queues[m.len() as int] is NestedSelector {
        Some((m, len, m.len() as int))
    } else {
        None
    }
}

/// Runs the patterns of a rule (see `spec_exec_queues`); returns the matches,
/// the characters consumed and the number of patterns that matched.
pub fn exec_queues(queues: &[Pattern], chars: &[char]) -> (r: Option<(Vec<Matched>, usize, usize)>)
    ensures
        r is Some <==> spec_exec_queues(queues@, chars@) is Some,
        r matches Some((m, len, num)) ==> {
            &&& matched_vs(m@) == spec_exec_queues(queues@, chars@).unwrap().0
            &&& len as int == spec_exec_queues(queues@, chars@).unwrap().1
            &&& num as int == spec_exec_queues(queues@, chars@).unwrap().2
            &&& num == m@.len()
            &&& num <= queues@.len()
            &&& len <= chars@.len()
        },
{
    let (matched, len, num, _) = exec(queues, chars);
    proof {
        crate::pattern::lemma_exec_len(queues@, chars@);
    }
    if num == queues.len() || queues[num].is_nested() {
        Some((matched, len, num))
    } else {
        None
    }
}

/// `data[i]` exists and its characters are `c`.
pub open spec fn data_chars(data: Seq<MatchedV>, i: int, c: Seq<char>) -> bool {
    0 <= i < data.len() && data[i].chars == c
}

/// The text of a `:contains` argument: without its quotes when quoted.
pub open spec fn spec_contains_text(c: Seq<char>) -> Seq<char> {
    if c.len() > 0 && (c[0] == '"' || c[0] == '\'') {
        if c.len() >= 2 {
            c.subrange(1, c.len() - 1)
        } else {
            Seq::empty()
        }
    } else {
        c
    }
}

/// The test of an attribute selector, given the captures of its value
/// expression: mode in group 1, value in group 2, 3 or 4.
pub open spec fn spec_attr_test(t: AttrTest, groups: Seq<Option<Seq<char>>>) -> bool {
    let g = |i: int| if 0 <= i < groups.len() { groups[i] } else { None };
    let mode: Seq<char> = match g(0) {
        Some(m) => m,
        None => Seq::empty(),
    };
    let value = if g(1) is Some {
        g(1)
    } else if g(2) is Some {
        g(2)
    } else {
        g(3)
    };
    match value {
        None => t is Exists,
        Some(v) => if v.len() == 0 && !(mode.len() == 0 || mode == seq!['!'] || mode == seq!['|']) {
            t is Never
        } else if mode == seq!['^'] {
            t matches AttrTest::Prefix(x) && x@ == v
        } else if mode == seq!['$'] {
            t matches AttrTest::Suffix(x) && x@ == v
        } else if mode == seq!['*'] {
            t matches AttrTest::Contains(x) && x@ == v
        } else if mode == seq!['|'] {
            t matches AttrTest::DashMatch(x) && x@ == v
        } else if mode == seq!['~'] {
            t matches AttrTest::Word(x) && x@ == v
        } else if mode == seq!['!'] {
            t matches AttrTest::NotEqual(x) && x@ == v
        } else {
            t matches AttrTest::Equal(x) && x@ == v
        },
    }
}

/// The step and offset of an `nth` match, parsed.
pub open spec fn spec_nth_parsed(m: MatchedV, n: Option<isize>, index: Option<isize>) -> bool {
    (match m.n {
        Some(s) => spec_parses_isize(s) && (n matches Some(v) && v as int == spec_number_value(s)),
        None => n is None,
    }) && (match m.index {
        Some(s) => spec_parses_isize(s) && (index matches Some(v) && v as int == spec_number_value(s)),
        None => index is None,
    }) && (n is Some || index is Some)
}

/// The alias selectors.
pub open spec fn header_alias() -> Seq<char> {
    "h1,h2,h3,h4,h5,h6"@
}

pub open spec fn input_alias() -> Seq<char> {
    "input,select,textarea,button"@
}

pub open spec fn submit_alias() -> Seq<char> {
    "input[type='submit'],button[type='submit']"@
}

/// `m` is the matcher that a rule of kind `kind` builds from `data`.
pub open spec fn spec_made(kind: RuleKind, data: Seq<MatchedV>, k: MatcherKind) -> bool {
    match kind {
        RuleKind::All => k is All,
        RuleKind::Id => k matches MatcherKind::Id(v) && data_chars(data, 1, v@),
        RuleKind::Class => k matches MatcherKind::Class(v) && data_chars(data, 1, v@),
        RuleKind::Name => k matches MatcherKind::Name(v) && data_chars(data, 0, v@),
        RuleKind::Attr => k matches MatcherKind::Attr(key, t) && data.len() > 4 && data_chars(
            data,
            2,
            key@,
        ) && spec_attr_test(t, data[4].groups),
        RuleKind::Root => k is Root,
        RuleKind::Empty => k is Empty,
        RuleKind::FirstChild => k == (MatcherKind::NthChild { asc: true, n: None, index: Some(1) }),
        RuleKind::LastChild => k == (MatcherKind::NthChild { asc: false, n: None, index: Some(1) }),
        RuleKind::OnlyChild => k is OnlyChild,
        RuleKind::NthChild => k matches MatcherKind::NthChild { asc, n, index } && asc
            && data.len() > 2 && spec_nth_parsed(data[2], n, index),
        RuleKind::NthLastChild => k matches MatcherKind::NthChild { asc, n, index } && !asc
            && data.len() > 2 && spec_nth_parsed(data[2], n, index),
        RuleKind::FirstOfType => k == (MatcherKind::NthOfType { asc: true, n: None, index: Some(1) }),
        RuleKind::LastOfType => k == (MatcherKind::NthOfType { asc: false, n: None, index: Some(1) }),
        RuleKind::NthOfType => k matches MatcherKind::NthOfType { asc, n, index } && asc
            && data.len() > 2 && spec_nth_parsed(data[2], n, index),
        RuleKind::NthLastOfType => k matches MatcherKind::NthOfType { asc, n, index } && !asc
            && data.len() > 2 && spec_nth_parsed(data[2], n, index),
        RuleKind::OnlyOfType => k is OnlyOfType,
        RuleKind::Not => k matches MatcherKind::Not(v) && data_chars(data, 2, v@),
        RuleKind::Has => k matches MatcherKind::Has(v) && data_chars(data, 2, v@),
        RuleKind::Contains => k matches MatcherKind::Contains(o) && data.len() > 2 && (if data[2].chars.len()
            == 0 {
            o is None
        } else {
            o matches Some(v) && v@ == spec_contains_text(data[2].chars)
        }),
        RuleKind::Checked => k is Checked,
        RuleKind::Header => k matches MatcherKind::Alias(v) && v@ == header_alias(),
        RuleKind::Input => k matches MatcherKind::Alias(v) && v@ == input_alias(),
        RuleKind::Submit => k matches MatcherKind::Alias(v) && v@ == submit_alias(),
    }
}

/// A rule of kind `kind` can build a matcher from `data`.
pub open spec fn spec_can_make(kind: RuleKind, data: Seq<MatchedV>) -> bool {
    match kind {
        RuleKind::Id | RuleKind::Class => data.len() > 1,
        RuleKind::Name => data.len() > 0,
        RuleKind::Attr => data.len() > 4,
        RuleKind::NthChild | RuleKind::NthLastChild | RuleKind::NthOfType
        | RuleKind::NthLastOfType => data.len() > 2 && (match data[2].n {
            Some(s) => spec_parses_isize(s),
            None => true,
        }) && (match data[2].index {
            Some(s) => spec_parses_isize(s),
            None => true,
        }) && (data[2].n is Some || data[2].index is Some),
        RuleKind::Not | RuleKind::Has | RuleKind::Contains => data.len() > 2,
        _ => true,
    }
}

fn nth_parsed(m: &Matched) -> (r: Option<(Option<isize>, Option<isize>)>)
    ensures
        r is Some <==> ((match m@.n {
            Some(s) => spec_parses_isize(s),
            None => true,
        }) && (match m@.index {
            Some(s) => spec_parses_isize(s),
            None => true,
        }) && (m@.n is Some || m@.index is Some)),
        r matches Some((n, index)) ==> spec_nth_parsed(m@, n, index),
{
    let n = match &m.n {
        Some(s) => match parse_isize(s.as_slice()) {
            Some(v) => Some(v),
            None => return None,
        },
        None => None,
    };
    let index = match &m.index {
        Some(s) => match parse_isize(s.as_slice()) {
            Some(v) => Some(v),
            None => return None,
        },
        None => None,
    };
    if n.is_none() && index.is_none() {
        return None;
    }
    Some((n, index))
}

fn chars_is(v: &Option<Vec<char>>, c: char) -> (r: bool)
    ensures
        r == (opt_v(*v) == Some(seq![c])),
{
    match v {
        Some(x) => {
            if x.len() == 1 && x[0] == c {
                assert(x@ =~= seq![c]);
                true
            } else {
                assert(x@.len() != 1 ==> x@ != seq![c]);
                false
            }
        },
        None => false,
    }
}

fn attr_test(groups: &Vec<Option<Vec<char>>>) -> (t: AttrTest)
    ensures
        spec_attr_test(t, crate::pattern::opt_vv(groups@)),
{
    let ghost gs = crate::pattern::opt_vv(groups@);
    let empty: Option<Vec<char>> = None;
    let g0 = if 0 < groups.len() { &groups[0] } else { &empty };
    let g1 = if 1 < groups.len() { &groups[1] } else { &empty };
    let g2 = if 2 < groups.len() { &groups[2] } else { &empty };
    let g3 = if 3 < groups.len() { &groups[3] } else { &empty };
    let value: &Option<Vec<char>> = if g1.is_some() {
        g1
    } else if g2.is_some() {
        g2
    } else {
        g3
    };
    let mode_empty = match g0 {
        Some(m) => m.len() == 0,
        None => true,
    };
    proof {
        if 0 < groups@.len() {
            assert(gs[0] == opt_v(groups@[0]));
        }
        if 1 < groups@.len() {
            assert(gs[1] == opt_v(groups@[1]));
        }
        if 2 < groups@.len() {
            assert(gs[2] == opt_v(groups@[2]));
        }
        if 3 < groups@.len() {
            assert(gs[3] == opt_v(groups@[3]));
        }
        match g0 {
            Some(m) => if m@.len() == 0 {
                assert(m@ =~= Seq::<char>::empty());
            },
            None => {},
        }
    }
    match value {
        None => AttrTest::Exists,
        Some(v) => {
            let is_bang = chars_is(g0, '!');
            let is_bar = chars_is(g0, '|');
            if v.len() == 0 && !(mode_empty || is_bang || is_bar) {
                AttrTest::Never
            } else if chars_is(g0, '^') {
                AttrTest::Prefix(copy_chars(v.as_slice()))
            } else if chars_is(g0, '$') {
                AttrTest::Suffix(copy_chars(v.as_slice()))
            } else if chars_is(g0, '*') {
                AttrTest::Contains(copy_chars(v.as_slice()))
            } else if is_bar {
                AttrTest::DashMatch(copy_chars(v.as_slice()))
            } else if chars_is(g0, '~') {
                AttrTest::Word(copy_chars(v.as_slice()))
            } else if is_bang {
                AttrTest::NotEqual(copy_chars(v.as_slice()))
            } else {
                AttrTest::Equal(copy_chars(v.as_slice()))
            }
        },
    }
}

fn contains_text(c: &Vec<char>) -> (r: Vec<char>)
    ensures
        r@ == spec_contains_text(c@),
{
    if c.len() > 0 && (c[0] == '"' || c[0] == '\'') {
        let mut r: Vec<char> = Vec::new();
        if c.len() >= 2 {
            let mut i: usize = 1;
            while i < c.len() - 1
                invariant
                    c@.len() >= 2,
                    1 <= i <= c@.len() - 1,
                    r@ == c@.subrange(1, i as int),
                decreases c.len() - 1 - i,
            {
                r.push(c[i]);
                i += 1;
                assert(r@ =~= c@.subrange(1, i as int));
            }
        } else {
            assert(r@ =~= Seq::<char>::empty());
        }
        r
    } else {
        copy_chars(c.as_slice())
    }
}

fn alias(s: &str) -> (v: Vec<char>)
    ensures
        v@ == s@,
{
    crate::chars::str_chars(s)
}

impl Rule {
    /// Runs the rule's patterns on `chars` (see `spec_exec_queues`).
    pub fn exec(&self, chars: &[char]) -> (r: Option<(Vec<Matched>, usize, usize)>)
        ensures
            r is Some <==> spec_exec_queues(self.queues@, chars@) is Some,
            r matches Some((m, len, num)) ==> {
                &&& matched_vs(m@) == spec_exec_queues(self.queues@, chars@).unwrap().0
                &&& len as int == spec_exec_queues(self.queues@, chars@).unwrap().1
                &&& num as int == spec_exec_queues(self.queues@, chars@).unwrap().2
                &&& num == m@.len()
                &&& num <= self.queues@.len()
                &&& len <= chars@.len()
            },
    {
        exec_queues(self.queues.as_slice(), chars)
    }

    /// Builds the matcher of this rule from what its patterns matched;
    /// `None` where `data` does not hold what the rule reads (see
    /// `spec_can_make`), which includes an `nth` number too large for an
    /// `isize`.
    pub fn make(&self, data: &Vec<Matched>) -> (r: Option<Matcher>)
        ensures
            r is Some <==> spec_can_make(self.kind, matched_vs(data@)),
            r matches Some(m) ==> spec_made(self.kind, matched_vs(data@), m.kind) && m.priority
                == self.priority && m.in_cache == self.in_cache,
    {
        let ghost d = matched_vs(data@);
        proof {
            assert forall|i: int| 0 <= i < data@.len() implies #[trigger] d[i] == data@[i]@ by {}
        }
        let kind = match self.kind {
            RuleKind::All => MatcherKind::All,
            RuleKind::Id => {
                if data.len() < 2 {
                    return None;
                }
                MatcherKind::Id(copy_chars(data[1].chars.as_slice()))
            },
            RuleKind::Class => {
                if data.len() < 2 {
                    return None;
                }
                MatcherKind::Class(copy_chars(data[1].chars.as_slice()))
            },
            RuleKind::Name => {
                if data.len() < 1 {
                    return None;
                }
                MatcherKind::Name(copy_chars(data[0].chars.as_slice()))
            },
            RuleKind::Attr => {
                if data.len() < 5 {
                    return None;
                }
                MatcherKind::Attr(copy_chars(data[2].chars.as_slice()), attr_test(&data[4].groups))
            },
            RuleKind::Root => MatcherKind::Root,
            RuleKind::Empty => MatcherKind::Empty,
            RuleKind::FirstChild => MatcherKind::NthChild { asc: true, n: None, index: Some(1) },
            RuleKind::LastChild => MatcherKind::NthChild { asc: false, n: None, index: Some(1) },
            RuleKind::OnlyChild => MatcherKind::OnlyChild,
            RuleKind::NthChild | RuleKind::NthLastChild | RuleKind::NthOfType
            | RuleKind::NthLastOfType => {
                if data.len() < 3 {
                    return None;
                }
                let (n, index) = match nth_parsed(&data[2]) {
                    Some(p) => p,
                    None => return None,
                };
                match self.kind {
                    RuleKind::NthChild => MatcherKind::NthChild { asc: true, n, index },
                    RuleKind::NthLastChild => MatcherKind::NthChild { asc: false, n, index },
                    RuleKind::NthOfType => MatcherKind::NthOfType { asc: true, n, index },
                    _ => MatcherKind::NthOfType { asc: false, n, index },
                }
            },
            RuleKind::FirstOfType => MatcherKind::NthOfType { asc: true, n: None, index: Some(1) },
            RuleKind::LastOfType => MatcherKind::NthOfType { asc: false, n: None, index: Some(1) },
            RuleKind::OnlyOfType => MatcherKind::OnlyOfType,
            RuleKind::Not => {
                if data.len() < 3 {
                    return None;
                }
                MatcherKind::Not(copy_chars(data[2].chars.as_slice()))
            },
            RuleKind::Has => {
                if data.len() < 3 {
                    return None;
                }
                MatcherKind::Has(copy_chars(data[2].chars.as_slice()))
            },
            RuleKind::Contains => {
                if data.len() < 3 {
                    return None;
                }
                if data[2].chars.len() == 0 {
                    MatcherKind::Contains(None)
                } else {
                    MatcherKind::Contains(Some(contains_text(&data[2].chars)))
                }
            },
            RuleKind::Checked => MatcherKind::Checked,
            RuleKind::Header => MatcherKind::Alias(alias("h1,h2,h3,h4,h5,h6")),
            RuleKind::Input => MatcherKind::Alias(alias("input,select,textarea,button")),
            RuleKind::Submit => MatcherKind::Alias(
                alias("input[type='submit'],button[type='submit']"),
            ),
        };
        proof {
            reveal_strlit("h1,h2,h3,h4,h5,h6");
            reveal_strlit("input,select,textarea,button");
            reveal_strlit("input[type='submit'],button[type='submit']");
        }
        Some(Matcher { kind, priority: self.priority, in_cache: self.in_cache })
    }
}

} // verus!
