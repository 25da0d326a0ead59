//! Patterns: the pieces a selector rule is written with, and how each one
//! matches at the start of a sequence of characters.
use crate::chars::{
    chars_to_string, copy_chars, is_alnum, is_alpha, is_ws, spec_is_alnum, spec_is_alpha, spec_is_ws, str_chars,
};
use crate::utils::{is_char_available_in_key, spec_char_available_in_key};
use vstd::prelude::*;

verus! {

/// The captures of a regular expression in a text, as the `regex` crate
/// computes them: `None` when the crate refuses the expression or it does not
/// match, otherwise every capture group in order, group 0 being the leftmost
/// match.
pub uninterp spec fn spec_regex_captures(pattern: Seq<char>, text: Seq<char>) -> Option<
    Seq<Option<Seq<char>>>,
>;

/// An expression that matches only at the start of the text.
pub open spec fn anchored(expr: Seq<char>) -> Seq<char> {
    seq!['^'] + expr
}

/// The sequences held by optional character vectors.
pub open spec fn opt_vv(v: Seq<Option<Vec<char>>>) -> Seq<Option<Seq<char>>> {
    v.map_values(|o: Option<Vec<char>>| opt_v(o))
}

pub open spec fn opt_v(o: Option<Vec<char>>) -> Option<Seq<char>> {
    match o {
        Some(x) => Some(x@),
        None => None,
    }
}

/// `regex::Regex::new(pattern)` followed by `Regex::captures(text)`. The
/// contract says that the groups are those that `spec_regex_captures` names,
/// and, from the crate's documentation, that there is at least one group,
/// that group 0 (the whole match) is present, and that it is no longer than
/// the text. A pattern that the crate refuses gives `None` here.
#[verifier::external_body]
fn regex_captures(pattern: &str, text: &str) -> (r: Option<Vec<Option<Vec<char>>>>)
    ensures
        r is Some <==> spec_regex_captures(pattern@, text@) is Some,
        r matches Some(c) ==> opt_vv(c@) == spec_regex_captures(pattern@, text@).unwrap(),
        r matches Some(c) ==> c@.len() >= 1 && c@[0] is Some && c@[0].unwrap()@.len() <= text@.len(),
{
    let re = regex::Regex::new(pattern).ok()?;
    let caps = re.captures(text)?;
    Some(caps.iter().map(|m| m.map(|m| m.as_str().chars().collect())).collect())
}

/// What a pattern matched.
pub struct Matched {
    /// the characters the pattern stands for (escape characters left out)
    pub chars: Vec<char>,
    /// the number of escape characters that were consumed but left out
    pub ignore_chars: Option<usize>,
    /// the kind of pattern that matched
    pub name: &'static str,
    /// capture groups 1.. of a regular expression pattern
    pub groups: Vec<Option<Vec<char>>>,
    /// the step of an `nth` pattern, with its sign
    pub n: Option<Vec<char>>,
    /// the offset of an `nth` pattern, with its sign
    pub index: Option<Vec<char>>,
}

/// The mathematical value of a `Matched`.
#[verifier::ext_equal]
pub struct MatchedV {
    pub chars: Seq<char>,
    pub ignore_chars: Option<usize>,
    pub groups: Seq<Option<Seq<char>>>,
    pub n: Option<Seq<char>>,
    pub index: Option<Seq<char>>,
}

impl Matched {
    pub open spec fn view(&self) -> MatchedV {
        MatchedV {
            chars: self.chars@,
            ignore_chars: self.ignore_chars,
            groups: opt_vv(self.groups@),
            n: opt_v(self.n),
            index: opt_v(self.index),
        }
    }

    /// A match of plain characters.
    pub fn plain(chars: Vec<char>, name: &'static str) -> (m: Matched)
        ensures
            m@ == plain_v(chars@),
            m.name == name,
    {
        let groups: Vec<Option<Vec<char>>> = Vec::new();
        assert(opt_vv(groups@) =~= Seq::empty());
        Matched { chars, ignore_chars: None, name, groups, n: None, index: None }
    }
}

pub open spec fn plain_v(chars: Seq<char>) -> MatchedV {
    MatchedV { chars, ignore_chars: None, groups: Seq::empty(), n: None, index: None }
}

/// The number of characters of the input that a match consumed.
pub open spec fn consumed(m: MatchedV) -> int {
    m.chars.len() + match m.ignore_chars {
        Some(k) => k as int,
        None => 0,
    }
}

/// A regular expression pattern; `context` is the expression, which is
/// anchored at the start of the text when it is matched.
#[derive(Debug)]
pub struct RegExp {
    pub context: String,
}

/// The patterns that selector rules are written with.
#[derive(Debug)]
pub enum Pattern {
    /// one character
    Char(char),
    /// a fixed sequence of characters
    Chars(Vec<char>),
    /// a css identifier: a letter or `_`, then letters, digits, `-`, `_`;
    /// a `\` escapes the character after it
    Identity,
    /// an attribute name
    AttrKey,
    /// any run of ascii whitespace, possibly empty
    Spaces,
    /// the argument of `:nth-child` and the like: `an+b`, `b`, `even`, `odd`
    Nth,
    /// a regular expression
    RegExp(RegExp),
    /// a nested selector: it never matches by itself, the selector parser
    /// handles it
    NestedSelector,
}

/// The first `n` characters, or all of them where there are fewer.
pub open spec fn spec_prefix(s: Seq<char>, n: int) -> Seq<char> {
    if n <= s.len() {
        s.take(n)
    } else {
        s
    }
}

/// The longest prefix of ascii whitespace.
pub open spec fn spec_spaces(s: Seq<char>) -> Seq<char>
    decreases s.len(),
{
    if s.len() > 0 && spec_is_ws(s[0]) {
        seq![s[0]] + spec_spaces(s.drop_first())
    } else {
        Seq::empty()
    }
}

/// The longest prefix of characters allowed in an attribute name.
pub open spec fn spec_attr_key(s: Seq<char>) -> Seq<char>
    decreases s.len(),
{
    if s.len() > 0 && spec_char_available_in_key(s[0]) {
        seq![s[0]] + spec_attr_key(s.drop_first())
    } else {
        Seq::empty()
    }
}

/// Reads an identifier: alphanumerics, `-` and `_` are kept, a `\` is left
/// out and makes the next character kept whatever it is, anything else ends
/// it. Returns the kept characters and the number of `\` left out.
pub open spec fn spec_identity_scan(s: Seq<char>, in_translate: bool) -> (Seq<char>, nat)
    decreases s.len(),
{
    if s.len() == 0 {
        (Seq::empty(), 0)
    } else if in_translate {
        let (r, k) = spec_identity_scan(s.drop_first(), false);
        (seq![s[0]] + r, k)
    } else if spec_is_alnum(s[0]) || s[0] == '-' || s[0] == '_' {
        let (r, k) = spec_identity_scan(s.drop_first(), false);
        (seq![s[0]] + r, k)
    } else if s[0] == '\\' {
        let (r, k) = spec_identity_scan(s.drop_first(), true);
        (r, k + 1)
    } else {
        (Seq::empty(), 0)
    }
}

/// The `nth` regular expression.
pub open spec fn nth_regex() -> Seq<char> {
    "^(?:([-+])?([1-9]\\d+|[0-9])?n(?:\\s*([+-])\\s*([1-9]\\d+|[0-9]))?|([-+])?([1-9]\\d+|[0-9]))"@
}

/// A number read from groups of the `nth` expression: the digits at
/// `digits` (or `def` where that group is absent), with a leading `-` where
/// the sign group `sign` holds `-`.
pub open spec fn spec_nth_number(
    groups: Seq<Option<Seq<char>>>,
    digits: int,
    sign: int,
    def: Option<Seq<char>>,
) -> Option<Seq<char>> {
    let d = if 0 <= digits < groups.len() && groups[digits] is Some {
        groups[digits]
    } else {
        def
    };
    match d {
        Some(ds) => if 0 <= sign < groups.len() && groups[sign] == Some(seq!['-']) {
            Some(seq!['-'] + ds)
        } else {
            Some(ds)
        },
        None => None,
    }
}

/// What the `nth` pattern matches, given the captures of its expression:
/// with group 6 (a lone number) the index is groups 6 and 5; otherwise the
/// index is groups 4 and 3 and the step groups 2 and 1, defaulting to 1.
/// Without a match of the expression, `even` is `2n+0` and `odd` is `2n+1`.
pub open spec fn spec_nth_matched(s: Seq<char>, caps: Option<Seq<Option<Seq<char>>>>) -> Option<
    MatchedV,
> {
    match caps {
        Some(c) => {
            let g = c.drop_first();
            let only_index = g.len() > 5 && g[5] is Some;
            let index = if only_index {
                spec_nth_number(g, 5, 4, None)
            } else {
                spec_nth_number(g, 3, 2, None)
            };
            let n = if only_index {
                None
            } else {
                spec_nth_number(g, 1, 0, Some(seq!['1']))
            };
            if index is None && n is None {
                None
            } else {
                Some(
                    MatchedV {
                        chars: spec_prefix(s, c[0].unwrap().len() as int),
                        ignore_chars: None,
                        groups: Seq::empty(),
                        n,
                        index,
                    },
                )
            }
        },
        None => {
            if s.len() >= 4 && s.take(4) == seq!['e', 'v', 'e', 'n'] {
                Some(
                    MatchedV {
                        chars: seq!['e', 'v', 'e', 'n'],
                        ignore_chars: None,
                        groups: Seq::empty(),
                        n: Some(seq!['2']),
                        index: Some(seq!['0']),
                    },
                )
            } else if s.len() >= 3 && s.take(3) == seq!['o', 'd', 'd'] {
                Some(
                    MatchedV {
                        chars: seq!['o', 'd', 'd'],
                        ignore_chars: None,
                        groups: Seq::empty(),
                        n: Some(seq!['2']),
                        index: Some(seq!['1']),
                    },
                )
            } else {
                None
            }
        },
    }
}

/// What a pattern matches at the start of `s`.
pub open spec fn spec_matched(p: Pattern, s: Seq<char>) -> Option<MatchedV> {
    match p {
        Pattern::Char(c) => if s.len() > 0 && s[0] == c {
            Some(plain_v(seq![c]))
        } else {
            None
        },
        Pattern::Chars(v) => if v@.len() <= s.len() && s.take(v@.len() as int) == v@ {
            Some(plain_v(v@))
        } else {
            None
        },
        Pattern::Identity => if s.len() > 0 && (spec_is_alpha(s[0]) || s[0] == '_') {
            let (r, k) = spec_identity_scan(s, false);
            Some(
                MatchedV {
                    chars: r,
                    ignore_chars: if k > 0 { Some(k as usize) } else { None },
                    groups: Seq::empty(),
                    n: None,
                    index: None,
                },
            )
        } else {
            None
        },
        Pattern::AttrKey => if spec_attr_key(s).len() > 0 {
            Some(plain_v(spec_attr_key(s)))
        } else {
            None
        },
        Pattern::Spaces => Some(plain_v(spec_spaces(s))),
        Pattern::Nth => spec_nth_matched(s, spec_regex_captures(nth_regex(), s)),
        Pattern::RegExp(re) => match spec_regex_captures(anchored(re.context@), s) {
            Some(c) => Some(
                MatchedV {
                    chars: spec_prefix(s, c[0].unwrap().len() as int),
                    ignore_chars: None,
                    groups: c.drop_first(),
                    n: None,
                    index: None,
                },
            ),
            None => None,
        },
        Pattern::NestedSelector => None,
    }
}

/// The facts the callers of a pattern rely on: a match never consumes more
/// than the input holds.
pub open spec fn matched_fits(p: Pattern, s: Seq<char>) -> bool {
    s.len() <= usize::MAX ==> (spec_matched(p, s) matches Some(m) ==> consumed(m) <= s.len())
}

proof fn lemma_spaces_prefix(s: Seq<char>)
    ensures
        spec_spaces(s).len() <= s.len(),
        spec_spaces(s) == s.take(spec_spaces(s).len() as int),
        forall|i: int| 0 <= i < spec_spaces(s).len() ==> spec_is_ws(#[trigger] s[i]),
        spec_spaces(s).len() < s.len() ==> !spec_is_ws(s[spec_spaces(s).len() as int]),
    decreases s.len(),
{
    if s.len() > 0 && spec_is_ws(s[0]) {
        lemma_spaces_prefix(s.drop_first());
        assert(spec_spaces(s) =~= s.take(spec_spaces(s).len() as int));
        assert forall|i: int| 0 <= i < spec_spaces(s).len() implies spec_is_ws(#[trigger] s[i]) by {
            if i > 0 {
                assert(s[i] == s.drop_first()[i - 1]);
            }
        }
    }
}

proof fn lemma_attr_key_prefix(s: Seq<char>)
    ensures
        spec_attr_key(s).len() <= s.len(),
        spec_attr_key(s) == s.take(spec_attr_key(s).len() as int),
        forall|i: int|
            0 <= i < spec_attr_key(s).len() ==> spec_char_available_in_key(#[trigger] s[i]),
        spec_attr_key(s).len() < s.len() ==> !spec_char_available_in_key(
            s[spec_attr_key(s).len() as int],
        ),
    decreases s.len(),
{
    if s.len() > 0 && spec_char_available_in_key(s[0]) {
        lemma_attr_key_prefix(s.drop_first());
        assert(spec_attr_key(s) =~= s.take(spec_attr_key(s).len() as int));
        assert forall|i: int|
            0 <= i < spec_attr_key(s).len() implies spec_char_available_in_key(#[trigger] s[i]) by {
            if i > 0 {
                assert(s[i] == s.drop_first()[i - 1]);
            }
        }
    }
}

proof fn lemma_identity_fits(s: Seq<char>, t: bool)
    ensures
        spec_identity_scan(s, t).0.len() + spec_identity_scan(s, t).1 <= s.len(),
    decreases s.len(),
{
    if s.len() > 0 {
        lemma_identity_fits(s.drop_first(), false);
        lemma_identity_fits(s.drop_first(), true);
    }
}

/// Every pattern consumes at most the characters it is given.
pub proof fn lemma_matched_fits(p: Pattern, s: Seq<char>)
    ensures
        matched_fits(p, s),
{
    match p {
        Pattern::Identity => {
            lemma_identity_fits(s, false);
            let r = spec_identity_scan(s, false).0;
            let k = spec_identity_scan(s, false).1;
            if s.len() > 0 && (spec_is_alpha(s[0]) || s[0] == '_') && s.len() <= usize::MAX {
                let m = spec_matched(p, s).unwrap();
                assert(m.chars == r);
                assert(r.len() + k <= s.len());
                if k > 0 {
                    assert((k as usize) as int == k);
                    assert(m.ignore_chars == Some(k as usize));
                    assert(consumed(m) == r.len() + k);
                } else {
                    assert(m.ignore_chars is None);
                    assert(consumed(m) == r.len());
                }
            }
        },
        Pattern::AttrKey => lemma_attr_key_prefix(s),
        Pattern::Spaces => lemma_spaces_prefix(s),
        _ => {},
    }
}

/// The longest prefix of ascii whitespace.
fn match_spaces(chars: &[char]) -> (r: Vec<char>)
    ensures
        r@ == spec_spaces(chars@),
{
    proof {
        lemma_spaces_prefix(chars@);
    }
    let mut result: Vec<char> = Vec::new();
    let mut i: usize = 0;
    while i < chars.len() && is_ws(chars[i])
        invariant
            i <= chars@.len(),
            result@ == chars@.take(i as int),
            forall|j: int| 0 <= j < i ==> spec_is_ws(#[trigger] chars@[j]),
            spec_spaces(chars@) == chars@.take(spec_spaces(chars@).len() as int),
            spec_spaces(chars@).len() <= chars@.len(),
            forall|j: int| 0 <= j < spec_spaces(chars@).len() ==> spec_is_ws(#[trigger] chars@[j]),
            spec_spaces(chars@).len() < chars@.len() ==> !spec_is_ws(
                chars@[spec_spaces(chars@).len() as int],
            ),
            i <= spec_spaces(chars@).len(),
        decreases chars.len() - i,
    {
        result.push(chars[i]);
        i += 1;
        assert(result@ =~= chars@.take(i as int));
    }
    assert(i == spec_spaces(chars@).len());
    result
}

/// The longest prefix of characters allowed in an attribute name.
fn match_attr_key(chars: &[char]) -> (r: Vec<char>)
    ensures
        r@ == spec_attr_key(chars@),
{
    proof {
        lemma_attr_key_prefix(chars@);
    }
    let mut result: Vec<char> = Vec::new();
    let mut i: usize = 0;
    while i < chars.len() && is_char_available_in_key(&chars[i])
        invariant
            i <= chars@.len(),
            result@ == chars@.take(i as int),
            spec_attr_key(chars@) == chars@.take(spec_attr_key(chars@).len() as int),
            spec_attr_key(chars@).len() <= chars@.len(),
            forall|j: int|
                0 <= j < spec_attr_key(chars@).len() ==> spec_char_available_in_key(
                    #[trigger] chars@[j],
                ),
            spec_attr_key(chars@).len() < chars@.len() ==> !spec_char_available_in_key(
                chars@[spec_attr_key(chars@).len() as int],
            ),
            i <= spec_attr_key(chars@).len(),
        decreases chars.len() - i,
    {
        result.push(chars[i]);
        i += 1;
        assert(result@ =~= chars@.take(i as int));
    }
    assert(i == spec_attr_key(chars@).len());
    result
}

/// Reads an identifier (see `spec_identity_scan`).
fn match_identity(chars: &[char]) -> (r: (Vec<char>, usize))
    ensures
        (r.0@, r.1 as nat) == spec_identity_scan(chars@, false),
{
    let mut result: Vec<char> = Vec::new();
    let mut is_in_translate = false;
    let mut ignore_chars: usize = 0;
    let mut i: usize = 0;
    proof {
        lemma_identity_fits(chars@, false);
        assert(chars@.skip(0) =~= chars@);
        assert forall|rest: Seq<char>| Seq::<char>::empty() + rest =~= rest by {}
    }
    while i < chars.len()
        invariant
            i <= chars@.len(),
            ({
                let (rest, k) = spec_identity_scan(chars@.skip(i as int), is_in_translate);
                (result@ + rest, (ignore_chars + k) as nat) == spec_identity_scan(chars@, false)
            }),
            ignore_chars + result@.len() <= i,
        decreases chars.len() - i,
    {
        let c = chars[i];
        let ghost s = chars@.skip(i as int);
        assert(s[0] == c);
        assert(s.drop_first() =~= chars@.skip(i + 1));
        if !is_in_translate {
            if is_alnum(c) || c == '-' || c == '_' {
                let ghost before = result@;
                result.push(c);
                assert(result@ =~= before + seq![c]);
                assert forall|rest: Seq<char>| before + (seq![c] + rest) =~= result@ + rest by {}
            } else if c == '\\' {
                is_in_translate = true;
                ignore_chars += 1;
            } else {
                assert(result@ + Seq::<char>::empty() =~= result@);
                assert(spec_identity_scan(s, false) == (Seq::<char>::empty(), 0nat));
                return (result, ignore_chars);
            }
        } else {
            let ghost before = result@;
            result.push(c);
            is_in_translate = false;
            assert forall|rest: Seq<char>| before + (seq![c] + rest) =~= result@ + rest by {}
        }
        i += 1;
    }
    assert(chars@.skip(i as int) =~= Seq::<char>::empty());
    assert(result@ + Seq::<char>::empty() =~= result@);
    (result, ignore_chars)
}

fn groups_from(caps: &Vec<Option<Vec<char>>>) -> (r: Vec<Option<Vec<char>>>)
    requires
        caps@.len() >= 1,
    ensures
        opt_vv(r@) == opt_vv(caps@).drop_first(),
{
    let mut r: Vec<Option<Vec<char>>> = Vec::new();
    let mut i: usize = 1;
    while i < caps.len()
        invariant
            1 <= i <= caps@.len(),
            opt_vv(r@) == opt_vv(caps@).subrange(1, i as int),
        decreases caps.len() - i,
    {
        let g = match &caps[i] {
            Some(x) => Some(copy_chars(x.as_slice())),
            None => None,
        };
        let ghost before = r@;
        r.push(g);
        assert(opt_v(g) == opt_v(caps@[i as int]));
        i += 1;
        assert(r@ == before.push(g));
        assert(opt_vv(before.push(g)) =~= opt_vv(before).push(opt_v(g)));
        assert(opt_vv(caps@).subrange(1, i as int) =~= opt_vv(caps@).subrange(1, i - 1).push(
            opt_vv(caps@)[i - 1],
        ));
        assert(opt_vv(r@) =~= opt_vv(caps@).subrange(1, i as int));
    }
    assert(opt_vv(caps@).subrange(1, caps@.len() as int) =~= opt_vv(caps@).drop_first());
    r
}

fn take_prefix(chars: &[char], n: usize) -> (r: Vec<char>)
    requires
        n <= chars@.len(),
    ensures
        r@ == chars@.take(n as int),
{
    let mut r: Vec<char> = Vec::new();
    let mut i: usize = 0;
    while i < n
        invariant
            n <= chars@.len(),
            i <= n,
            r@ == chars@.take(i as int),
        decreases n - i,
    {
        r.push(chars[i]);
        i += 1;
        assert(r@ =~= chars@.take(i as int));
    }
    r
}

/// Reads a number of the `nth` expression (see `spec_nth_number`).
fn nth_number(groups: &Vec<Option<Vec<char>>>, digits: usize, sign: usize, def: Option<Vec<char>>) -> (r:
    Option<Vec<char>>)
    ensures
        opt_v(r) == spec_nth_number(opt_vv(groups@), digits as int, sign as int, opt_v(def)),
{
    let d = if digits < groups.len() && groups[digits].is_some() {
        match &groups[digits] {
            Some(x) => Some(copy_chars(x.as_slice())),
            None => None,
        }
    } else {
        def
    };
    match d {
        Some(ds) => {
            let minus = sign < groups.len() && match &groups[sign] {
                Some(x) => x.len() == 1 && x[0] == '-',
                None => false,
            };
            if minus {
                let mut v: Vec<char> = Vec::new();
                v.push('-');
                let mut i: usize = 0;
                while i < ds.len()
                    invariant
                        i <= ds@.len(),
                        v@ == seq!['-'] + ds@.take(i as int),
                    decreases ds.len() - i,
                {
                    v.push(ds[i]);
                    i += 1;
                    assert(v@ =~= seq!['-'] + ds@.take(i as int));
                }
                assert(ds@.take(ds@.len() as int) =~= ds@);
                proof {
                    let g = opt_vv(groups@);
                    assert(g[sign as int] == Some(seq!['-'])) by {
                        let x = groups@[sign as int].unwrap();
                        assert(x@ =~= seq!['-']);
                    }
                }
                Some(v)
            } else {
                proof {
                    let g = opt_vv(groups@);
                    if 0 <= sign < groups@.len() && groups@[sign as int] is Some {
                        let x = groups@[sign as int].unwrap();
                        if x@ == seq!['-'] {
                            assert(x@.len() == 1 && x@[0] == '-');
                        }
                    }
                }
                Some(ds)
            }
        },
        None => None,
    }
}

fn starts_with(chars: &[char], prefix: &[char]) -> (r: bool)
    ensures
        r == (prefix@.len() <= chars@.len() && chars@.take(prefix@.len() as int) == prefix@),
{
    if prefix.len() > chars.len() {
        return false;
    }
    let mut i: usize = 0;
    while i < prefix.len()
        invariant
            prefix@.len() <= chars@.len(),
            i <= prefix@.len(),
            forall|j: int| 0 <= j < i ==> chars@[j] == prefix@[j],
        decreases prefix.len() - i,
    {
        if chars[i] != prefix[i] {
            assert(chars@.take(prefix@.len() as int)[i as int] != prefix@[i as int]);
            return false;
        }
        i += 1;
    }
    assert(chars@.take(prefix@.len() as int) =~= prefix@);
    true
}

/// The `nth` pattern.
fn match_nth(chars: &[char]) -> (r: Option<Matched>)
    ensures
        opt_matched_v(r) == spec_nth_matched(chars@, spec_regex_captures(nth_regex(), chars@)),
        r matches Some(m) ==> m.name@ == "nth"@,
{
    let text = chars_to_string(chars);
    let rule = "^(?:([-+])?([1-9]\\d+|[0-9])?n(?:\\s*([+-])\\s*([1-9]\\d+|[0-9]))?|([-+])?([1-9]\\d+|[0-9]))";
    proof {
        reveal_strlit(
            "^(?:([-+])?([1-9]\\d+|[0-9])?n(?:\\s*([+-])\\s*([1-9]\\d+|[0-9]))?|([-+])?([1-9]\\d+|[0-9]))",
        );
    }
    match regex_captures(rule, text.as_str()) {
        Some(caps) => {
            let groups = groups_from(&caps);
            let ghost g = opt_vv(groups@);
            let only_index = groups.len() > 5 && groups[5].is_some();
            assert(only_index == (g.len() > 5 && g[5] is Some));
            let index = if only_index {
                nth_number(&groups, 5, 4, None)
            } else {
                nth_number(&groups, 3, 2, None)
            };
            let n = if only_index {
                None
            } else {
                let mut one: Vec<char> = Vec::new();
                one.push('1');
                assert(one@ =~= seq!['1']);
                nth_number(&groups, 1, 0, Some(one))
            };
            if index.is_none() && n.is_none() {
                return None;
            }
            let total_len = match &caps[0] {
                Some(m) => m.len(),
                None => 0,
            };
            let matched = take_prefix(chars, total_len);
            Some(Matched { chars: matched, ignore_chars: None, name: "nth", groups: Vec::new(), n, index })
        },
        None => {
            let even = vec!['e', 'v', 'e', 'n'];
            let odd = vec!['o', 'd', 'd'];
            if starts_with(chars, even.as_slice()) {
                let n = vec!['2'];
                let index = vec!['0'];
                assert(even@ =~= seq!['e', 'v', 'e', 'n']);
                assert(n@ =~= seq!['2']);
                assert(index@ =~= seq!['0']);
                Some(Matched { chars: even, ignore_chars: None, name: "nth", groups: Vec::new(), n: Some(n), index: Some(index) })
            } else if starts_with(chars, odd.as_slice()) {
                let n = vec!['2'];
                let index = vec!['1'];
                assert(odd@ =~= seq!['o', 'd', 'd']);
                assert(n@ =~= seq!['2']);
                assert(index@ =~= seq!['1']);
                Some(Matched { chars: odd, ignore_chars: None, name: "nth", groups: Vec::new(), n: Some(n), index: Some(index) })
            } else {
                assert(even@ =~= seq!['e', 'v', 'e', 'n']);
                assert(odd@ =~= seq!['o', 'd', 'd']);
                None
            }
        },
    }
}

pub open spec fn opt_matched_v(o: Option<Matched>) -> Option<MatchedV> {
    match o {
        Some(m) => Some(m@),
        None => None,
    }
}

impl Pattern {
    /// Whether this pattern stands for a nested selector.
    pub fn is_nested(&self) -> (r: bool)
        ensures
            r == (*self is NestedSelector),
    {
        match self {
            Pattern::NestedSelector => true,
            _ => false,
        }
    }

    /// Matches the pattern at the start of `chars` (see `spec_matched`); the
    /// match is named after the kind of pattern (see `pattern_name`).
    pub fn matched(&self, chars: &[char]) -> (r: Option<Matched>)
        ensures
            opt_matched_v(r) == spec_matched(*self, chars@),
            r matches Some(m) ==> m.name@ == pattern_name(*self),
    {
        match self {
            Pattern::Char(c) => {
                if chars.len() > 0 && chars[0] == *c {
                    let v = vec![*c];
                    assert(v@ =~= seq![*c]);
                    Some(Matched::plain(v, ""))
                } else {
                    None
                }
            },
            Pattern::Chars(v) => {
                if starts_with(chars, v.as_slice()) {
                    Some(Matched::plain(copy_chars(v.as_slice()), ""))
                } else {
                    None
                }
            },
            Pattern::Identity => {
                if chars.len() > 0 && (is_alpha(chars[0]) || chars[0] == '_') {
                    let (result, ignore) = match_identity(chars);
                    let ignore_chars = if ignore > 0 { Some(ignore) } else { None };
                    Some(Matched { chars: result, ignore_chars, name: "identity", groups: Vec::new(), n: None, index: None })
                } else {
                    None
                }
            },
            Pattern::AttrKey => {
                let result = match_attr_key(chars);
                if result.len() > 0 {
                    Some(Matched::plain(result, "attr_key"))
                } else {
                    None
                }
            },
            Pattern::Spaces => Some(Matched::plain(match_spaces(chars), "spaces")),
            Pattern::Nth => match_nth(chars),
            Pattern::RegExp(re) => {
                let text = chars_to_string(chars);
                let mut expr = String::from_str("^");
                expr.append(re.context.as_str());
                proof {
                    reveal_strlit("^");
                    assert(expr@ =~= anchored(re.context@));
                }
                match regex_captures(expr.as_str(), text.as_str()) {
                    Some(caps) => {
                        let total_len = match &caps[0] {
                            Some(m) => m.len(),
                            None => 0,
                        };
                        let result = take_prefix(chars, total_len);
                        let groups = groups_from(&caps);
                        Some(Matched { chars: result, ignore_chars: None, name: "regexp", groups, n: None, index: None })
                    },
                    None => None,
                }
            },
            Pattern::NestedSelector => None,
        }
    }
}

/// The name that a match of the pattern carries: that of its kind, and
/// none for a character or a fixed text.
pub open spec fn pattern_name(p: Pattern) -> Seq<char> {
    match p {
        Pattern::Identity => "identity"@,
        Pattern::AttrKey => "attr_key"@,
        Pattern::Spaces => "spaces"@,
        Pattern::Nth => "nth"@,
        Pattern::RegExp(_) => "regexp"@,
        _ => ""@,
    }
}

/// Matches the patterns one after the other, each on what the previous ones
/// left: the matches made until one fails or all match, and the number of
/// characters they consumed.
pub open spec fn spec_exec(queues: Seq<Pattern>, s: Seq<char>) -> (Seq<MatchedV>, int)
    decreases queues.len(),
{
    if queues.len() == 0 {
        (Seq::empty(), 0)
    } else {
        match spec_matched(queues[0], s) {
            Some(m) => {
                let c = consumed(m);
                let (rest, n) = spec_exec(queues.drop_first(), s.skip(c));
                (seq![m] + rest, c + n)
            },
            None => (Seq::empty(), 0),
        }
    }
}

pub open spec fn matched_vs(v: Seq<Matched>) -> Seq<MatchedV> {
    v.map_values(|m: Matched| m@)
}

/// The number of matches never exceeds the number of patterns.
pub proof fn lemma_exec_len(queues: Seq<Pattern>, s: Seq<char>)
    ensures
        spec_exec(queues, s).0.len() <= queues.len(),
    decreases queues.len(),
{
    if queues.len() > 0 {
        match spec_matched(queues[0], s) {
            Some(m) => {
                lemma_exec_len(queues.drop_first(), s.skip(consumed(m)));
            },
            None => {},
        }
    }
}

proof fn lemma_exec_fits(queues: Seq<Pattern>, s: Seq<char>)
    requires
        s.len() <= usize::MAX,
    ensures
        0 <= spec_exec(queues, s).1 <= s.len(),
        spec_exec(queues, s).0.len() <= queues.len(),
    decreases queues.len(),
{
    if queues.len() > 0 {
        lemma_matched_fits(queues[0], s);
        match spec_matched(queues[0], s) {
            Some(m) => {
                lemma_exec_fits(queues.drop_first(), s.skip(consumed(m)));
            },
            None => {},
        }
    }
}

/// Runs the patterns in order on `chars` (see `spec_exec`). Returns the
/// matches, the characters consumed, the number of patterns that matched and
/// whether all of `chars` was consumed.
pub fn exec(queues: &[Pattern], chars: &[char]) -> (r: (Vec<Matched>, usize, usize, bool))
    ensures
        matched_vs(r.0@) == spec_exec(queues@, chars@).0,
        r.1 == spec_exec(queues@, chars@).1,
        r.2 == r.0@.len(),
        r.3 == (r.1 == chars@.len()),
        r.1 <= chars@.len(),
{
    let mut start_index: usize = 0;
    let mut result: Vec<Matched> = Vec::new();
    let mut i: usize = 0;
    let len = chars.len();
    proof {
        lemma_exec_fits(queues@, chars@);
        assert(queues@.skip(0) =~= queues@);
        assert(chars@.skip(0) =~= chars@);
        assert forall|x: Seq<MatchedV>| Seq::<MatchedV>::empty() + x =~= x by {}
    }
    while i < queues.len()
        invariant
            len == chars@.len(),
            i <= queues@.len(),
            start_index <= chars@.len(),
            result@.len() == i,
            ({
                let (rest, n) = spec_exec(queues@.skip(i as int), chars@.skip(start_index as int));
                matched_vs(result@) + rest == spec_exec(queues@, chars@).0 && start_index + n
                    == spec_exec(queues@, chars@).1
            }),
        decreases queues.len() - i,
    {
        let rest = slice_skip(chars, start_index);
        let ghost qs = queues@.skip(i as int);
        assert(qs[0] == queues@[i as int]);
        assert(qs.drop_first() =~= queues@.skip(i + 1));
        let rest_len = rest.len();
        proof {
            lemma_matched_fits(queues@[i as int], rest@);
        }
        match queues[i].matched(rest) {
            Some(matched) => {
                let ignore = match matched.ignore_chars {
                    Some(k) => k,
                    None => 0,
                };
                assert(consumed(matched@) <= rest@.len());
                let step = matched.chars.len() + ignore;
                assert(step as int == consumed(matched@));
                assert(rest@.len() == chars@.len() - start_index);
                proof {
                    assert(rest@.skip(step as int) =~= chars@.skip(start_index + step));
                    lemma_exec_fits(queues@.skip(i + 1), chars@.skip(start_index + step));
                }
                let ghost before = result@;
                result.push(matched);
                assert(matched_vs(result@) =~= matched_vs(before).push(matched@));
                assert forall|x: Seq<MatchedV>|
                    matched_vs(before) + (seq![matched@] + x) =~= matched_vs(result@) + x by {}
                start_index += step;
                i += 1;
            },
            None => {
                assert(matched_vs(result@) + Seq::<MatchedV>::empty() =~= matched_vs(result@));
                let total = start_index == chars.len();
                return (result, start_index, i, total);
            },
        }
    }
    assert(queues@.skip(i as int) =~= Seq::<Pattern>::empty());
    assert(matched_vs(result@) + Seq::<MatchedV>::empty() =~= matched_vs(result@));
    let total = start_index == chars.len();
    (result, start_index, i, total)
}

/// The characters from position `n` on.
pub fn slice_skip(s: &[char], n: usize) -> (r: &[char])
    requires
        n <= s@.len(),
    ensures
        r@ == s@.skip(n as int),
{
    let (_, r) = s.split_at(n);
    assert(r@ =~= s@.skip(n as int));
    r
}

/// The parameters joined together.
pub open spec fn spec_concat(params: Seq<&str>) -> Seq<char>
    decreases params.len(),
{
    if params.len() == 0 {
        Seq::empty()
    } else {
        spec_concat(params.drop_last()) + params.last()@
    }
}

/// The message of a refused parameter list.
pub open spec fn spec_unrecognized_params(params: Seq<&str>) -> Seq<char> {
    "Unrecognized params '"@ + spec_concat(params) + "'"@
}

/// Accepts `pattern` only when every parameter is empty; otherwise refuses
/// with a message that quotes all the parameters joined together.
pub fn check_params_return(params: &[&str], pattern: Pattern) -> (r: Result<Pattern, String>)
    ensures
        r is Ok <==> (forall|i: int| 0 <= i < params@.len() ==> params@[i]@.len() == 0),
        r matches Ok(p) ==> p == pattern,
        r matches Err(msg) ==> msg@ == spec_unrecognized_params(params@),
{
    let mut i: usize = 0;
    while i < params.len()
        invariant
            i <= params@.len(),
            forall|j: int| 0 <= j < i ==> params@[j]@.len() == 0,
        decreases params.len() - i,
    {
        if !params[i].is_empty() {
            let mut all = String::new();
            let mut k: usize = 0;
            while k < params.len()
                invariant
                    k <= params@.len(),
                    all@ == spec_concat(params@.take(k as int)),
                decreases params.len() - k,
            {
                all.append(params[k]);
                k += 1;
                assert(params@.take(k as int).drop_last() =~= params@.take(k - 1));
            }
            assert(params@.take(params@.len() as int) =~= params@);
            let mut msg = String::from_str("Unrecognized params '");
            msg.append(all.as_str());
            msg.append("'");
            proof {
                reveal_strlit("Unrecognized params '");
                reveal_strlit("'");
            }
            return Err(msg);
        }
        i += 1;
    }
    Ok(pattern)
}

/// The patterns a rule can be written with, by name.
pub enum PatternKind {
    Identity,
    Spaces,
    AttrKey,
    Nth,
    RegExp,
    Selector,
}

/// Builds a pattern of the given kind from its parameters: a regular
/// expression takes its expression as `p` and refuses a non-empty `s`; the
/// other kinds refuse any non-empty parameter.
pub fn from_params(kind: &PatternKind, s: &str, p: &str) -> (r: Result<Pattern, String>)
    ensures
        r is Ok <==> (s@.len() == 0 && (*kind is RegExp || p@.len() == 0)),
        r matches Ok(pat) ==> spec_is_pattern_of(pat, *kind, p@),
        r matches Err(msg) ==> msg@ == spec_unrecognized_params(kind_params(*kind, s, p)),
{
    match kind {
        PatternKind::RegExp => {
            let params = [s];
            let re = Pattern::RegExp(RegExp { context: String::from_str(p) });
            assert(params@ =~= kind_params(*kind, s, p));
            check_params_return(&params, re)
        },
        _ => {
            let params = [s, p];
            assert(params@ =~= kind_params(*kind, s, p));
            let pat = match kind {
                PatternKind::Identity => Pattern::Identity,
                PatternKind::Spaces => Pattern::Spaces,
                PatternKind::AttrKey => Pattern::AttrKey,
                PatternKind::Nth => Pattern::Nth,
                _ => Pattern::NestedSelector,
            };
            check_params_return(&params, pat)
        },
    }
}

/// The parameters a kind checks: the regular expression takes `p` as its
/// expression and checks `s` alone, the other kinds check both.
pub open spec fn kind_params<'a>(kind: PatternKind, s: &'a str, p: &'a str) -> Seq<&'a str> {
    if kind is RegExp {
        seq![s]
    } else {
        seq![s, p]
    }
}

/// `pat` is the pattern a kind stands for (a regular expression with
/// expression `p`).
pub open spec fn spec_is_pattern_of(pat: Pattern, kind: PatternKind, p: Seq<char>) -> bool {
    match kind {
        PatternKind::Identity => pat is Identity,
        PatternKind::Spaces => pat is Spaces,
        PatternKind::AttrKey => pat is AttrKey,
        PatternKind::Nth => pat is Nth,
        PatternKind::RegExp => pat matches Pattern::RegExp(re) && re.context@ == p,
        PatternKind::Selector => pat is NestedSelector,
    }
}

/// The patterns known by name.
pub struct Patterns {
    pub entries: Vec<(String, PatternKind)>,
}

/// The names registered, in order.
pub open spec fn pattern_names(entries: Seq<(String, PatternKind)>) -> Seq<Seq<char>> {
    entries.map_values(|e: (String, PatternKind)| e.0@)
}

fn str_eq(a: &str, b: &str) -> (r: bool)
    ensures
        r == (a@ == b@),
{
    let x = str_chars(a);
    let y = str_chars(b);
    crate::chars::chars_eq(x.as_slice(), y.as_slice())
}

fn find_pattern(entries: &Vec<(String, PatternKind)>, name: &str) -> (r: Option<usize>)
    ensures
        r matches Some(i) ==> i < entries@.len() && entries@[i as int].0@ == name@ && forall|j: int|
            0 <= j < i ==> entries@[j].0@ != name@,
        r is None ==> !pattern_names(entries@).contains(name@),
{
    let mut i: usize = 0;
    while i < entries.len()
        invariant
            i <= entries@.len(),
            forall|j: int| 0 <= j < i ==> entries@[j].0@ != name@,
        decreases entries.len() - i,
    {
        if str_eq(entries[i].0.as_str(), name) {
            return Some(i);
        }
        i += 1;
    }
    assert forall|k: int| 0 <= k < entries@.len() implies pattern_names(entries@)[k] != name@ by {}
    None
}

/// Registers a pattern kind under a name that is not registered yet.
pub fn add_pattern(patterns: &mut Patterns, name: &str, kind: PatternKind)
    requires
        !pattern_names(old(patterns).entries@).contains(name@),
    ensures
        pattern_names(final(patterns).entries@) == pattern_names(old(patterns).entries@).push(name@),
        final(patterns).entries@ == old(patterns).entries@.push((final(patterns).entries@.last().0, kind)),
{
    patterns.entries.push((String::from_str(name), kind));
    assert(pattern_names(patterns.entries@) =~= pattern_names(old(patterns).entries@).push(name@));
}

/// The builtin patterns: `identity`, `spaces`, `attr_key`, `nth`, `regexp`
/// and `selector`.
pub fn init() -> (r: Patterns)
    ensures
        pattern_names(r.entries@) == seq![
            "identity"@,
            "spaces"@,
            "attr_key"@,
            "nth"@,
            "regexp"@,
            "selector"@,
        ],
        r.entries@[0].1 is Identity,
        r.entries@[1].1 is Spaces,
        r.entries@[2].1 is AttrKey,
        r.entries@[3].1 is Nth,
        r.entries@[4].1 is RegExp,
        r.entries@[5].1 is Selector,
{
    let mut entries: Vec<(String, PatternKind)> = Vec::new();
    entries.push((String::from_str("identity"), PatternKind::Identity));
    entries.push((String::from_str("spaces"), PatternKind::Spaces));
    entries.push((String::from_str("attr_key"), PatternKind::AttrKey));
    entries.push((String::from_str("nth"), PatternKind::Nth));
    entries.push((String::from_str("regexp"), PatternKind::RegExp));
    entries.push((String::from_str("selector"), PatternKind::Selector));
    assert(pattern_names(entries@) =~= seq![
        "identity"@,
        "spaces"@,
        "attr_key"@,
        "nth"@,
        "regexp"@,
        "selector"@,
    ]);
    Patterns { entries }
}

/// Builds the pattern registered under `name` from its parameters (see
/// `from_params`, with the kind first registered under the name).
pub fn to_pattern(patterns: &Patterns, name: &str, s: &str, p: &str) -> (r: Result<Pattern, String>)
    requires
        pattern_names(patterns.entries@).contains(name@),
    ensures
        forall|i: int|
            0 <= i < patterns.entries@.len() && patterns.entries@[i].0@ == name@ && (forall|j: int|
                0 <= j < i ==> patterns.entries@[j].0@ != name@) ==> {
                let kind = #[trigger] patterns.entries@[i].1;
                &&& (r is Ok <==> (s@.len() == 0 && (kind is RegExp || p@.len() == 0)))
                &&& (r matches Ok(pat) ==> spec_is_pattern_of(pat, kind, p@))
                &&& (r matches Err(msg) ==> msg@ == spec_unrecognized_params(kind_params(kind, s, p)))
            },
{
    match find_pattern(&patterns.entries, name) {
        Some(i) => {
            let r = from_params(&patterns.entries[i].1, s, p);
            assert(pattern_names(patterns.entries@)[i as int] == name@);
            assert forall|k: int|
                0 <= k < patterns.entries@.len() && patterns.entries@[k].0@ == name@ && (forall|j: int|
                    0 <= j < k ==> patterns.entries@[j].0@ != name@) implies k == i by {
                if k < i {
                } else if k > i {
                    assert(patterns.entries@[i as int].0@ == name@);
                }
            }
            r
        },
        None => {
            proof {
                assert(false);
            }
            Err(String::from_str("No supported pattern was found"))
        },
    }
}

} // verus!
