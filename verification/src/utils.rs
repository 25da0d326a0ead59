//! Small character and integer helpers used by the selector engine.
use crate::chars::{
    chars_eq, chars_to_string, vv, str_chars, to_lower, to_upper, spec_is_lower, spec_is_upper, spec_to_lower,
    spec_to_upper, is_alnum, is_control, is_punct, is_ws, spec_is_alnum, spec_is_control,
    spec_is_punct, spec_is_ws,
};
use vstd::prelude::*;

verus! {

/// Drains a character buffer into a `String`, leaving the buffer empty.
pub fn vec_char_to_clean_str(v: &mut Vec<char>) -> (s: String)
    ensures
        s@ == old(v)@,
        final(v)@.len() == 0,
{
    let s = chars_to_string(v.as_slice());
    v.clear();
    s
}

/// The noncharacters of the infra standard:
/// U+FDD0..=U+FDEF and the last two code points of every plane.
pub open spec fn spec_is_non_character(ch: char) -> bool {
    let v = ch as u32;
    (0xFDD0 <= v && v <= 0xFDEF) || (v % 0x10000 == 0xFFFE) || (v % 0x10000 == 0xFFFF)
}

/// Whether `ch` is a noncharacter.
pub fn is_non_character(ch: &char) -> (r: bool)
    ensures
        r == spec_is_non_character(*ch),
{
    let v = *ch as u32;
    (0xFDD0 <= v && v <= 0xFDEF) || (v % 0x10000 == 0xFFFE) || (v % 0x10000 == 0xFFFF)
}

/// A character may stand in an attribute name when it is ascii alphanumeric or
/// one of `_ - . :`, or else when it is none of whitespace, an ascii control,
/// a noncharacter, ascii punctuation or NUL.
pub open spec fn spec_char_available_in_key(ch: char) -> bool {
    if spec_is_alnum(ch) || ch == '_' || ch == '-' || ch == '.' || ch == ':' {
        true
    } else {
        !(spec_is_ws(ch) || spec_is_control(ch) || spec_is_non_character(ch) || spec_is_punct(ch)
            || ch == '\u{0000}')
    }
}

pub fn is_char_available_in_key(ch: &char) -> (r: bool)
    ensures
        r == spec_char_available_in_key(*ch),
{
    let c = *ch;
    if is_alnum(c) || c == '_' || c == '-' || c == '.' || c == ':' {
        return true;
    }
    if is_ws(c) || is_control(c) || is_non_character(ch) || is_punct(c) || c == '\u{0000}' {
        return false;
    }
    true
}

/// How `divide_isize` adjusts a truncated quotient.
pub enum RoundType {
    Floor,
    Ceil,
    Round,
}

/// The absolute value.
pub open spec fn spec_abs(a: int) -> int {
    if a >= 0 { a } else { -a }
}

/// Truncated division, as Rust's `/` computes it: the quotient of the
/// absolute values, negated when the signs differ.
pub open spec fn spec_trunc_div(a: int, b: int) -> int {
    if (a >= 0) == (b > 0) {
        spec_abs(a) / spec_abs(b)
    } else {
        -(spec_abs(a) / spec_abs(b))
    }
}

/// Remainder of truncated division (Rust's `%`): it has the sign of the dividend.
pub open spec fn spec_trunc_rem(a: int, b: int) -> int {
    if a >= 0 {
        spec_abs(a) % spec_abs(b)
    } else {
        -(spec_abs(a) % spec_abs(b))
    }
}

/// The quotient that `divide_isize` returns: the truncated quotient `q`, moved
/// one step by the rounding mode only where `q` is not zero and the division
/// is not exact.
/// - `Floor`: a negative `q` moves one down.
/// - `Ceil`: a positive `q` moves one up.
/// - `Round`: `q` moves one away from zero when twice the remainder reaches
///   the divisor.
pub open spec fn spec_divide(a: int, b: int, round: RoundType) -> int {
    let q = spec_trunc_div(a, b);
    let r = spec_trunc_rem(a, b);
    if q == 0 || r == 0 {
        q
    } else {
        match round {
            RoundType::Floor => if q < 0 { q - 1 } else { q },
            RoundType::Ceil => if q > 0 { q + 1 } else { q },
            RoundType::Round => {
                let symbol: int = if q < 0 { -1 } else { 1 };
                let total = r * 2 - symbol * b;
                if (total >= 0 && a > 0) || (total <= 0 && a < 0) {
                    q + symbol
                } else {
                    q
                }
            },
        }
    }
}

proof fn lemma_div_small(ua: nat, ub: nat)
    requires
        ub > 0,
    ensures
        ua / ub <= ua,
        ua % ub < ub,
        ua % ub != 0 ==> ub >= 2 && 2 * (ua / ub) <= ua,
        ub >= 2 ==> 2 * (ua / ub) <= ua,
        ub == 1 ==> ua / ub == ua,
        (ua / ub) * ub + ua % ub == ua,
{
    if ub >= 2 {
        vstd::arithmetic::div_mod::lemma_div_is_ordered_by_denominator(ua as int, 2, ub as int);
        vstd::arithmetic::div_mod::lemma_fundamental_div_mod(ua as int, 2);
        vstd::arithmetic::div_mod::lemma_mod_bound(ua as int, 2);
    }
    vstd::arithmetic::div_mod::lemma_fundamental_div_mod(ua as int, ub as int);
    assert((ua / ub) * ub == ub * (ua / ub)) by (nonlinear_arith);
    vstd::arithmetic::div_mod::lemma_mod_bound(ua as int, ub as int);
    vstd::arithmetic::div_mod::lemma_div_is_ordered_by_denominator(ua as int, 1, ub as int);
    if ua % ub != 0 {
        if ub == 1 {
            assert(ua % 1 == 0);
        }
        vstd::arithmetic::div_mod::lemma_div_is_ordered_by_denominator(ua as int, 2, ub as int);
        vstd::arithmetic::div_mod::lemma_fundamental_div_mod(ua as int, 2);
        vstd::arithmetic::div_mod::lemma_mod_bound(ua as int, 2);
    }
}

/// Divides `a` by `b` and adjusts the truncated quotient by `round`
/// (see `spec_divide`).
pub fn divide_isize(a: isize, b: isize, round: RoundType) -> (r: isize)
    requires
        b != 0,
        !(a == isize::MIN && b == -1),
    ensures
        r == spec_divide(a as int, b as int, round),
{
    let aa: i128 = a as i128;
    let bb: i128 = b as i128;
    let ua: u128 = if aa >= 0 { aa as u128 } else { (-aa) as u128 };
    let ub: u128 = if bb >= 0 { bb as u128 } else { (-bb) as u128 };
    proof {
        lemma_div_small(ua as nat, ub as nat);
    }
    let uq: u128 = ua / ub;
    let ur: u128 = ua % ub;
    let q: i128 = if (aa >= 0) == (bb > 0) { uq as i128 } else { -(uq as i128) };
    let rem: i128 = if aa >= 0 { ur as i128 } else { -(ur as i128) };
    assert(q == spec_trunc_div(a as int, b as int));
    assert(rem == spec_trunc_rem(a as int, b as int));
    let mut res: i128 = q;
    assert(ua <= isize::MAX + 1);
    assert(uq <= ua);
    if q != 0 && rem != 0 {
        assert(ur != 0);
        assert(2 * uq <= ua);
        match round {
            RoundType::Floor => {
                if res < 0 {
                    res -= 1;
                }
            },
            RoundType::Ceil => {
                if res > 0 {
                    res += 1;
                }
            },
            RoundType::Round => {
                let symbol: i128 = if res < 0 { -1 } else { 1 };
                let total = rem * 2 - symbol * bb;
                if (total >= 0 && aa > 0) || (total <= 0 && aa < 0) {
                    res += symbol;
                }
            },
        }
    }
    assert(isize::MIN <= res <= isize::MAX);
    res as isize
}

/// Removes the elements at positions `indexs` one after the other, each
/// position shifted back by the number of elements already removed; for a
/// strictly increasing `indexs` this removes exactly those positions of the
/// sequence as given.
pub open spec fn spec_retain_by_index<T>(v: Seq<T>, indexs: Seq<usize>) -> Seq<T>
    decreases indexs.len(),
{
    if indexs.len() == 0 {
        v
    } else {
        let prev = spec_retain_by_index(v, indexs.drop_last());
        prev.remove(indexs.last() - (indexs.len() - 1))
    }
}

/// Each removal of `spec_retain_by_index` falls inside the list as it is
/// at its turn: the `i`-th position, shifted back by `i`, is one of the
/// `len - i` elements left.
pub open spec fn removal_ok(len: int, indexs: Seq<usize>) -> bool {
    forall|i: int| 0 <= i < indexs.len() ==> i <= #[trigger] indexs[i] && indexs[i] - i < len - i
}

/// Removes from `v` the elements at positions `indexs`, one after the other,
/// each shifted back by the number removed before it.
pub fn retain_by_index<T>(v: &mut Vec<T>, indexs: &[usize])
    requires
        removal_ok(old(v)@.len() as int, indexs@),
    ensures
        final(v)@ == spec_retain_by_index(old(v)@, indexs@),
        final(v)@.len() == old(v)@.len() - indexs@.len(),
{
    let ghost orig = v@;
    let mut i: usize = 0;
    while i < indexs.len()
        invariant
            removal_ok(orig.len() as int, indexs@),
            i <= indexs@.len(),
            v@ == spec_retain_by_index(orig, indexs@.take(i as int)),
            v@.len() == orig.len() - i,
        decreases indexs.len() - i,
    {
        let index = indexs[i];
        assert(indexs@.take(i + 1).drop_last() =~= indexs@.take(i as int));
        assert(i <= indexs@[i as int]);
        v.remove(index - i);
        i += 1;
    }
    assert(indexs@.take(indexs@.len() as int) =~= indexs@);
}

/// The state after reading `s` from the left: the class names finished so
/// far and the name being read (empty right after whitespace).
pub open spec fn spec_class_split(s: Seq<char>) -> (Seq<Seq<char>>, Seq<char>)
    decreases s.len(),
{
    if s.len() == 0 {
        (Seq::empty(), Seq::empty())
    } else {
        let (list, cur) = spec_class_split(s.drop_last());
        let c = s.last();
        if spec_is_ws(c) {
            if cur.len() == 0 {
                (list, cur)
            } else {
                (list.push(cur), Seq::empty())
            }
        } else {
            (list, cur.push(c))
        }
    }
}

/// The class names of a class attribute: its maximal runs of
/// non-whitespace characters, in order.
pub open spec fn spec_class_list(s: Seq<char>) -> Seq<Seq<char>> {
    let (list, cur) = spec_class_split(s);
    if cur.len() == 0 {
        list
    } else {
        list.push(cur)
    }
}

/// Splits a class attribute into its class names.
pub fn get_class_list(attr_class: &str) -> (r: Vec<Vec<char>>)
    ensures
        vv(r@) == spec_class_list(attr_class@),
{
    let chars = str_chars(attr_class);
    get_class_list_chars(&chars)
}

/// Splits a sequence of characters into the class names it holds.
pub fn get_class_list_chars(chars: &[char]) -> (r: Vec<Vec<char>>)
    ensures
        vv(r@) == spec_class_list(chars@),
{
    let mut class_list: Vec<Vec<char>> = Vec::new();
    let mut class_name: Vec<char> = Vec::new();
    let mut i: usize = 0;
    while i < chars.len()
        invariant
            i <= chars@.len(),
            (vv(class_list@), class_name@) == spec_class_split(chars@.take(i as int)),
        decreases chars.len() - i,
    {
        let ch = chars[i];
        assert(chars@.take(i + 1).drop_last() =~= chars@.take(i as int));
        if is_ws(ch) {
            if class_name.len() > 0 {
                let ghost before = vv(class_list@);
                let name = class_name;
                class_list.push(name);
                class_name = Vec::new();
                assert(vv(class_list@) =~= before.push(name@));
            }
        } else {
            class_name.push(ch);
        }
        i += 1;
    }
    assert(chars@.take(chars@.len() as int) =~= chars@);
    if class_name.len() > 0 {
        let ghost before = vv(class_list@);
        let name = class_name;
        class_list.push(name);
        assert(vv(class_list@) =~= before.push(name@));
    }
    class_list
}

/// The class names joined by single spaces.
pub open spec fn spec_join_classes(list: Seq<Seq<char>>) -> Seq<char>
    decreases list.len(),
{
    if list.len() == 0 {
        Seq::empty()
    } else if list.len() == 1 {
        list[0]
    } else {
        spec_join_classes(list.drop_last()).push(' ') + list.last()
    }
}

/// Joins class names into a class attribute value, separated by one space.
pub fn class_list_to_string(class_list: &[Vec<char>]) -> (r: String)
    ensures
        r@ == spec_join_classes(vv(class_list@)),
{
    let chars = class_list_to_chars(class_list);
    chars_to_string(chars.as_slice())
}

/// Joins class names by one space, as characters.
pub fn class_list_to_chars(class_list: &[Vec<char>]) -> (r: Vec<char>)
    ensures
        r@ == spec_join_classes(vv(class_list@)),
{
    let mut res: Vec<char> = Vec::new();
    let mut i: usize = 0;
    while i < class_list.len()
        invariant
            i <= class_list@.len(),
            res@ == spec_join_classes(vv(class_list@).take(i as int)),
        decreases class_list.len() - i,
    {
        let ghost before = res@;
        assert(vv(class_list@).take(i + 1).drop_last() =~= vv(class_list@).take(
            i as int,
        ));
        if i > 0 {
            res.push(' ');
        }
        let name = &class_list[i];
        let mut j: usize = 0;
        let ghost mid = res@;
        while j < name.len()
            invariant
                j <= name@.len(),
                res@ == mid + name@.take(j as int),
            decreases name.len() - j,
        {
            res.push(name[j]);
            j += 1;
            assert(res@ =~= mid + name@.take(j as int));
        }
        assert(name@.take(name@.len() as int) =~= name@);
        i += 1;
        assert(vv(class_list@).take(i as int).last() == name@);
        if i == 1 {
            assert(res@ =~= name@);
        }
    }
    assert(vv(class_list@).take(class_list@.len() as int) =~= vv(class_list@));
    res
}

/// Two characters are equal or are the same ascii letter in other case,
/// where `cmp` is the letter.
pub open spec fn spec_char_eq_ignore_case(t: char, c: char) -> bool {
    t == c || (spec_is_lower(c) && t == spec_to_upper(c)) || (spec_is_upper(c) && t
        == spec_to_lower(c))
}

/// The two sequences have the same length and agree up to ascii letter case.
pub open spec fn spec_equal_ignore_case(target: Seq<char>, cmp: Seq<char>) -> bool {
    target.len() == cmp.len() && forall|i: int|
        0 <= i < target.len() ==> spec_char_eq_ignore_case(#[trigger] target[i], cmp[i])
}

/// Compares two character sequences, ascii letters case-insensitively.
pub fn is_equal_chars_ignore_case(target: &[char], cmp: &[char]) -> (r: bool)
    ensures
        r == spec_equal_ignore_case(target@, cmp@),
{
    if target.len() != cmp.len() {
        return false;
    }
    let mut index: usize = 0;
    while index < target.len()
        invariant
            target@.len() == cmp@.len(),
            index <= target@.len(),
            forall|i: int| 0 <= i < index ==> spec_char_eq_ignore_case(#[trigger] target@[i], cmp@[i]),
        decreases target.len() - index,
    {
        let ch = target[index];
        let cmp_ch = cmp[index];
        if cmp_ch != ch {
            if 'a' <= cmp_ch && cmp_ch <= 'z' {
                if to_upper(cmp_ch) != ch {
                    return false;
                }
            } else if 'A' <= cmp_ch && cmp_ch <= 'Z' {
                if to_lower(cmp_ch) != ch {
                    return false;
                }
            } else {
                return false;
            }
        }
        index += 1;
    }
    true
}

/// Compares two character sequences.
pub fn is_equal_chars(target: &[char], cmp: &[char]) -> (r: bool)
    ensures
        r == (target@ == cmp@),
{
    chars_eq(target, cmp)
}

/// `search` occurs in `target` at position `start`.
pub open spec fn spec_occurs_at(target: Seq<char>, search: Seq<char>, start: int) -> bool {
    0 <= start && start + search.len() <= target.len() && target.subrange(
        start,
        start + search.len(),
    ) == search
}

/// `search` occurs somewhere in `target` (the empty sequence occurs everywhere).
pub open spec fn spec_contains_chars(target: Seq<char>, search: Seq<char>) -> bool {
    exists|start: int| spec_occurs_at(target, search, start)
}

fn contains_chars_nocheck(target: &[char], search: &[char], t_len: usize, s_len: usize) -> (r:
    bool)
    requires
        t_len == target@.len(),
        s_len == search@.len(),
        s_len <= t_len,
    ensures
        r == spec_contains_chars(target@, search@),
{
    let max_start_index: usize = t_len - s_len;
    let mut start_index: usize = 0;
    while start_index <= max_start_index
        invariant
            t_len == target@.len(),
            s_len == search@.len(),
            max_start_index == t_len - s_len,
            start_index <= max_start_index + 1,
            forall|k: int| 0 <= k < start_index ==> !spec_occurs_at(target@, search@, k),
        decreases max_start_index + 1 - start_index,
    {
        let mut move_one = false;
        let mut index: usize = 0;
        while index < s_len
            invariant
                t_len == target@.len(),
                s_len == search@.len(),
                start_index + s_len <= t_len,
                index <= s_len,
                move_one == !(forall|j: int|
                    0 <= j < index ==> target@[start_index + j] == search@[j]),
            decreases s_len - index,
        {
            if target[start_index + index] != search[index] {
                move_one = true;
            }
            index += 1;
        }
        if !move_one {
            assert(target@.subrange(start_index as int, start_index + s_len) =~= search@);
            assert(spec_occurs_at(target@, search@, start_index as int));
            return true;
        }
        let ghost j = choose|j: int| 0 <= j < s_len && target@[start_index + j] != search@[j];
        assert(target@.subrange(start_index as int, start_index + s_len)[j] != search@[j]);
        start_index += 1;
    }
    assert forall|k: int| !spec_occurs_at(target@, search@, k) by {
        if 0 <= k < start_index {
        }
    }
    false
}

/// Whether `search` occurs in `target`.
pub fn contains_chars(target: &[char], search: &[char]) -> (r: bool)
    ensures
        r == spec_contains_chars(target@, search@),
{
    let t_len = target.len();
    let s_len = search.len();
    if t_len < s_len {
        return false;
    }
    contains_chars_nocheck(target, search, t_len, s_len)
}

/// The elements in reverse order.
pub fn reversed<T: Copy>(v: &Vec<T>) -> (r: Vec<T>)
    ensures
        r@ == v@.reverse(),
{
    let mut r: Vec<T> = Vec::new();
    let mut i: usize = v.len();
    while i > 0
        invariant
            i <= v@.len(),
            r@ == v@.subrange(i as int, v@.len() as int).reverse(),
        decreases i,
    {
        i -= 1;
        r.push(v[i]);
        assert(r@ =~= v@.subrange(i as int, v@.len() as int).reverse());
    }
    assert(v@.subrange(0, v@.len() as int) =~= v@);
    r
}

} // verus!
