//! Character classes and conversions between `str`, `String` and `Vec<char>`.
use vstd::prelude::*;

verus! {

/// ascii whitespace as `char::is_ascii_whitespace` documents it:
/// space, tab, line feed, form feed and carriage return.
pub open spec fn spec_is_ws(c: char) -> bool {
    c == ' ' || c == '\t' || c == '\n' || c == '\u{000C}' || c == '\r'
}

pub open spec fn spec_is_lower(c: char) -> bool {
    'a' <= c && c <= 'z'
}

pub open spec fn spec_is_upper(c: char) -> bool {
    'A' <= c && c <= 'Z'
}

pub open spec fn spec_is_alpha(c: char) -> bool {
    spec_is_lower(c) || spec_is_upper(c)
}

pub open spec fn spec_is_digit(c: char) -> bool {
    '0' <= c && c <= '9'
}

pub open spec fn spec_is_alnum(c: char) -> bool {
    spec_is_alpha(c) || spec_is_digit(c)
}

/// ascii control characters: U+0000..=U+001F and U+007F
pub open spec fn spec_is_control(c: char) -> bool {
    (c as u32) < 0x20 || (c as u32) == 0x7f
}

/// ascii punctuation: the graphic ascii characters that are not alphanumeric
pub open spec fn spec_is_punct(c: char) -> bool {
    (0x21 <= (c as u32) && (c as u32) <= 0x2f) || (0x3a <= (c as u32) && (c as u32) <= 0x40) || (
    0x5b <= (c as u32) && (c as u32) <= 0x60) || (0x7b <= (c as u32) && (c as u32) <= 0x7e)
}

pub open spec fn spec_to_upper(c: char) -> char {
    if spec_is_lower(c) {
        ((c as u32) - 32) as char
    } else {
        c
    }
}

pub open spec fn spec_to_lower(c: char) -> char {
    if spec_is_upper(c) {
        ((c as u32) + 32) as char
    } else {
        c
    }
}

pub open spec fn spec_lower_seq(s: Seq<char>) -> Seq<char> {
    s.map_values(|c: char| spec_to_lower(c))
}

pub open spec fn spec_upper_seq(s: Seq<char>) -> Seq<char> {
    s.map_values(|c: char| spec_to_upper(c))
}

/// The character sequences held by a vector of character vectors.
pub open spec fn vv(v: Seq<Vec<char>>) -> Seq<Seq<char>> {
    v.map_values(|x: Vec<char>| x@)
}

/// Unicode white space (the `White_Space` property), as `char::is_whitespace`
/// documents it.
pub open spec fn spec_is_unicode_ws(c: char) -> bool {
    ('\u{0009}' <= c && c <= '\u{000D}') || c == ' ' || c == '\u{0085}' || c == '\u{00A0}' || c == '\u{1680}'
        || ('\u{2000}' <= c && c <= '\u{200A}') || c == '\u{2028}' || c == '\u{2029}' || c == '\u{202F}' || c
        == '\u{205F}' || c == '\u{3000}'
}

pub fn is_unicode_ws(c: char) -> (r: bool)
    ensures
        r == spec_is_unicode_ws(c),
{
    ('\u{0009}' <= c && c <= '\u{000D}') || c == ' ' || c == '\u{0085}' || c == '\u{00A0}' || c == '\u{1680}'
        || ('\u{2000}' <= c && c <= '\u{200A}') || c == '\u{2028}' || c == '\u{2029}' || c == '\u{202F}' || c
        == '\u{205F}' || c == '\u{3000}'
}

/// The number of leading Unicode white space characters of `s`.
pub open spec fn spec_lead_ws(s: Seq<char>) -> nat
    decreases s.len(),
{
    if s.len() > 0 && spec_is_unicode_ws(s[0]) {
        1 + spec_lead_ws(s.drop_first())
    } else {
        0
    }
}

/// `s` without its leading and trailing Unicode white space, as `str::trim`
/// documents it.
pub open spec fn spec_trim(s: Seq<char>) -> Seq<char> {
    let a = spec_lead_ws(s);
    let b = spec_lead_ws(s.reverse());
    if a >= s.len() {
        Seq::empty()
    } else {
        s.subrange(a as int, s.len() - b)
    }
}

proof fn lemma_lead_ws(s: Seq<char>, i: int)
    requires
        0 <= i <= s.len(),
        forall|j: int| 0 <= j < i ==> spec_is_unicode_ws(#[trigger] s[j]),
    ensures
        spec_lead_ws(s) == i + spec_lead_ws(s.skip(i)),
    decreases i,
{
    if i > 0 {
        assert(s.skip(1) =~= s.drop_first());
        lemma_lead_ws(s.drop_first(), i - 1);
        assert(s.drop_first().skip(i - 1) =~= s.skip(i));
    } else {
        assert(s.skip(0) =~= s);
    }
}

/// See `spec_trim`.
pub fn trim_chars(s: &[char]) -> (r: Vec<char>)
    ensures
        r@ == spec_trim(s@),
{
    let n = s.len();
    let mut a: usize = 0;
    while a < n && is_unicode_ws(s[a])
        invariant
            a <= n == s@.len(),
            forall|j: int| 0 <= j < a ==> spec_is_unicode_ws(#[trigger] s@[j]),
        decreases n - a,
    {
        a += 1;
    }
    proof {
        lemma_lead_ws(s@, a as int);
        if a < n {
            assert(spec_lead_ws(s@.skip(a as int)) == 0);
        } else {
            assert(s@.skip(a as int).len() == 0);
        }
    }
    if a >= n {
        return Vec::new();
    }
    let mut b: usize = 0;
    while b < n && is_unicode_ws(s[n - 1 - b])
        invariant
            b <= n == s@.len(),
            a < n,
            forall|j: int| 0 <= j < b ==> spec_is_unicode_ws(#[trigger] s@.reverse()[j]),
        decreases n - b,
    {
        b += 1;
    }
    proof {
        lemma_lead_ws(s@.reverse(), b as int);
        if b < n {
            assert(spec_lead_ws(s@.reverse().skip(b as int)) == 0);
        } else {
            assert(!spec_is_unicode_ws(s@[a as int]));
            assert(s@.reverse()[n - 1 - a] == s@[a as int]);
            assert(false);
        }
    }
    let mut r: Vec<char> = Vec::new();
    let mut k = a;
    while k < n - b
        invariant
            a <= k <= n - b,
            b < n == s@.len(),
            r@ == s@.subrange(a as int, k as int),
        decreases n - b - k,
    {
        r.push(s[k]);
        k += 1;
        assert(r@ =~= s@.subrange(a as int, k as int));
    }
    r
}

pub fn is_ws(c: char) -> (r: bool)
    ensures
        r == spec_is_ws(c),
{
    c == ' ' || c == '\t' || c == '\n' || c == '\u{000C}' || c == '\r'
}

pub fn is_alpha(c: char) -> (r: bool)
    ensures
        r == spec_is_alpha(c),
{
    ('a' <= c && c <= 'z') || ('A' <= c && c <= 'Z')
}

pub fn is_digit(c: char) -> (r: bool)
    ensures
        r == spec_is_digit(c),
{
    '0' <= c && c <= '9'
}

pub fn is_alnum(c: char) -> (r: bool)
    ensures
        r == spec_is_alnum(c),
{
    is_alpha(c) || is_digit(c)
}

pub fn is_control(c: char) -> (r: bool)
    ensures
        r == spec_is_control(c),
{
    (c as u32) < 0x20 || (c as u32) == 0x7f
}

pub fn is_punct(c: char) -> (r: bool)
    ensures
        r == spec_is_punct(c),
{
    let v = c as u32;
    (0x21 <= v && v <= 0x2f) || (0x3a <= v && v <= 0x40) || (0x5b <= v && v <= 0x60) || (0x7b <= v
        && v <= 0x7e)
}

/// The ascii uppercase of a character, as `char::to_ascii_uppercase` gives
/// it: ascii lowercase letters map to uppercase, every other character to
/// itself.
pub(crate) fn to_upper(c: char) -> (r: char)
    ensures
        r == spec_to_upper(c),
{
    if 'a' <= c && c <= 'z' {
        let v: u8 = (c as u32 - 32) as u8;
        v as char
    } else {
        c
    }
}

/// The ascii lowercase of a character, as `char::to_ascii_lowercase` gives
/// it: ascii uppercase letters map to lowercase, every other character to
/// itself.
pub(crate) fn to_lower(c: char) -> (r: char)
    ensures
        r == spec_to_lower(c),
{
    if 'A' <= c && c <= 'Z' {
        let v: u8 = (c as u32 + 32) as u8;
        v as char
    } else {
        c
    }
}

/// The characters of a string slice.
pub fn str_chars(s: &str) -> (v: Vec<char>)
    ensures
        v@ == s@,
{
    let n = s.unicode_len();
    let mut v: Vec<char> = Vec::new();
    let mut i: usize = 0;
    while i < n
        invariant
            n == s@.len(),
            i <= n,
            v@ == s@.take(i as int),
        decreases n - i,
    {
        v.push(s.get_char(i));
        i += 1;
        assert(v@ =~= s@.take(i as int));
    }
    assert(s@.take(n as int) =~= s@);
    v
}

/// Collects characters into a `String` (`FromIterator<char>` for `String`).
#[verifier::external_body]
pub(crate) fn chars_to_string(v: &[char]) -> (s: String)
    ensures
        s@ == v@,
{
    v.iter().collect::<String>()
}

/// The characters of a string, lowercased where they are ascii letters.
pub fn lower_chars(s: &[char]) -> (v: Vec<char>)
    ensures
        v@ == spec_lower_seq(s@),
{
    let mut v: Vec<char> = Vec::new();
    let mut i: usize = 0;
    while i < s.len()
        invariant
            i <= s@.len(),
            v@ == spec_lower_seq(s@.take(i as int)),
        decreases s.len() - i,
    {
        v.push(to_lower(s[i]));
        i += 1;
        assert(v@ =~= spec_lower_seq(s@.take(i as int)));
    }
    assert(s@.take(s@.len() as int) =~= s@);
    v
}

/// The characters of a string, uppercased where they are ascii letters.
pub fn upper_chars(s: &[char]) -> (v: Vec<char>)
    ensures
        v@ == spec_upper_seq(s@),
{
    let mut v: Vec<char> = Vec::new();
    let mut i: usize = 0;
    while i < s.len()
        invariant
            i <= s@.len(),
            v@ == spec_upper_seq(s@.take(i as int)),
        decreases s.len() - i,
    {
        v.push(to_upper(s[i]));
        i += 1;
        assert(v@ =~= spec_upper_seq(s@.take(i as int)));
    }
    assert(s@.take(s@.len() as int) =~= s@);
    v
}

/// A copy of a character sequence.
pub fn copy_chars(s: &[char]) -> (v: Vec<char>)
    ensures
        v@ == s@,
{
    let mut v: Vec<char> = Vec::new();
    let mut i: usize = 0;
    while i < s.len()
        invariant
            i <= s@.len(),
            v@ == s@.take(i as int),
        decreases s.len() - i,
    {
        v.push(s[i]);
        i += 1;
        assert(v@ =~= s@.take(i as int));
    }
    assert(s@.take(s@.len() as int) =~= s@);
    v
}

/// Two character sequences are equal.
pub fn chars_eq(a: &[char], b: &[char]) -> (r: bool)
    ensures
        r == (a@ == b@),
{
    if a.len() != b.len() {
        return false;
    }
    let mut i: usize = 0;
    while i < a.len()
        invariant
            a@.len() == b@.len(),
            i <= a@.len(),
            forall|j: int| 0 <= j < i ==> a@[j] == b@[j],
        decreases a.len() - i,
    {
        if a[i] != b[i] {
            return false;
        }
        i += 1;
    }
    assert(a@ =~= b@);
    true
}

} // verus!
