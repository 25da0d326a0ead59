//! The positions that an `an+b` argument of `:nth-child` and the like allows.
use crate::utils::{divide_isize, spec_abs, spec_divide, spec_trunc_div, spec_trunc_rem, RoundType};
use vstd::prelude::*;

verus! {

/// The argument of `:nth-child` and the like, as a pattern.
pub struct Nth;

/// The digits of a decimal integer: what follows an optional sign.
pub open spec fn spec_unsigned_part(s: Seq<char>) -> Seq<char> {
    if s.len() > 0 && (s[0] == '-' || s[0] == '+') {
        s.drop_first()
    } else {
        s
    }
}

/// At least one character, all of them decimal digits.
pub open spec fn spec_all_digits(d: Seq<char>) -> bool {
    d.len() > 0 && forall|i: int| 0 <= i < d.len() ==> crate::chars::spec_is_digit(#[trigger] d[i])
}

/// A decimal integer: an optional sign, then at least one digit.
pub open spec fn spec_is_number(s: Seq<char>) -> bool {
    spec_all_digits(spec_unsigned_part(s))
}

/// The value of a sequence of decimal digits.
pub open spec fn spec_digits_value(s: Seq<char>) -> int
    decreases s.len(),
{
    if s.len() == 0 {
        0
    } else {
        spec_digits_value(s.drop_last()) * 10 + (s.last() as int - '0' as int)
    }
}

/// The value of a decimal integer.
pub open spec fn spec_number_value(s: Seq<char>) -> int {
    if s.len() > 0 && s[0] == '-' {
        -spec_digits_value(s.drop_first())
    } else if s.len() > 0 && s[0] == '+' {
        spec_digits_value(s.drop_first())
    } else {
        spec_digits_value(s)
    }
}

/// A decimal integer whose value an `isize` holds (what `str::parse::<isize>`
/// accepts).
pub open spec fn spec_parses_isize(s: Seq<char>) -> bool {
    spec_is_number(s) && isize::MIN <= spec_number_value(s) <= isize::MAX
}

proof fn lemma_digits_nonneg(s: Seq<char>)
    requires
        forall|i: int| 0 <= i < s.len() ==> '0' <= #[trigger] s[i] <= '9',
    ensures
        spec_digits_value(s) >= 0,
        s.len() > 0 ==> spec_digits_value(s) >= spec_digits_value(s.drop_last()),
    decreases s.len(),
{
    if s.len() > 0 {
        lemma_digits_nonneg(s.drop_last());
    }
}

/// Reads a decimal integer; `None` when it is not one or does not fit an
/// `isize`.
pub fn parse_isize(s: &[char]) -> (r: Option<isize>)
    ensures
        r is Some <==> spec_parses_isize(s@),
        r matches Some(v) ==> v as int == spec_number_value(s@),
{
    let mut start: usize = 0;
    let mut negative = false;
    if s.len() > 0 && (s[0] == '-' || s[0] == '+') {
        negative = s[0] == '-';
        start = 1;
    }
    let ghost digits = s@.skip(start as int);
    assert(digits =~= spec_unsigned_part(s@));
    if start >= s.len() {
        return None;
    }
    // the value read so far, kept within 2^63 + 1
    let limit: u128 = (isize::MAX as u128) + 1;
    let mut value: u128 = 0;
    let mut i: usize = start;
    let mut overflow = false;
    while i < s.len()
        invariant
            start <= i <= s@.len(),
            digits == s@.skip(start as int),
            digits == spec_unsigned_part(s@),
            limit == isize::MAX + 1,
            forall|j: int| 0 <= j < i - start ==> crate::chars::spec_is_digit(#[trigger] digits[j]),
            !overflow ==> value == spec_digits_value(digits.take(i - start)),
            !overflow ==> value <= limit,
            overflow ==> spec_digits_value(digits.take(i - start)) > limit,
        decreases s.len() - i,
    {
        let c = s[i];
        assert(digits[i - start] == c);
        if !('0' <= c && c <= '9') {
            assert(!crate::chars::spec_is_digit(digits[i - start]));
            assert(!spec_is_number(s@));
            return None;
        }
        let ghost prev = digits.take(i - start);
        assert(digits.take(i - start + 1).drop_last() =~= prev);
        proof {
            lemma_digits_nonneg(digits.take(i - start + 1));
        }
        if !overflow {
            let d = (c as u32 - '0' as u32) as u128;
            let next = value * 10 + d;
            if next > limit {
                overflow = true;
            } else {
                value = next;
            }
        } else {
            proof {
                assert(spec_digits_value(digits.take(i - start + 1)) >= spec_digits_value(prev))
                    by (nonlinear_arith)
                    requires
                        spec_digits_value(digits.take(i - start + 1)) == spec_digits_value(prev)
                            * 10 + (digits[i - start] as int - '0' as int),
                        spec_digits_value(prev) >= 0,
                        '0' <= digits[i - start] <= '9',
                ;
            }
        }
        i += 1;
    }
    assert(digits.take(i - start) =~= digits);
    if overflow {
        return None;
    }
    if negative {
        if value > limit {
            None
        } else {
            Some((0 - (value as i128)) as isize)
        }
    } else {
        if value >= limit {
            None
        } else {
            Some(value as isize)
        }
    }
}

/// One position of the walk over `k`: the element number `k*n + index`
/// (counted from 1) as a 0-based position; `None` for 0; a negative number
/// wraps around as `usize` does, after the subtraction of 1.
pub open spec fn spec_nth_item(k: int, n: int, index: int) -> Option<int> {
    let cur = k * n + index;
    if cur >= 1 {
        Some(cur - 1)
    } else if cur == 0 {
        None
    } else {
        Some(cur + usize::MAX)
    }
}

/// The positions for `k` from `start` to `end`, in that order.
pub open spec fn spec_nth_items(start: int, end: int, n: int, index: int) -> Seq<int>
    decreases end - start + 1,
{
    if end < start {
        Seq::empty()
    } else {
        let prev = spec_nth_items(start, end - 1, n, index);
        match spec_nth_item(end, n, index) {
            Some(p) => prev.push(p),
            None => prev,
        }
    }
}

/// The positions allowed by `an+b` (`n` = a, `index` = b) among `total`
/// elements, as `Nth::get_allowed_indexs` computes them.
/// - without `n`, only `index` (counted from 1) when it lies in 1..=total;
/// - `n == 0`: the same;
/// - `n < 0`: none when `index <= 0`; only `index` when `index <= -n`;
///   otherwise the walk over `k` from `max(0, ceil((index - total) / -n))`
///   to `floor((index - 1) / -n)` (by `divide_isize`), reversed;
/// - `n > 0`: the walk over `k` from `max(0, ceil((1 - index) / n))` to
///   `floor((total - index) / n)` (by `divide_isize`).
pub open spec fn spec_allowed_indexs(n: Option<int>, index: Option<int>, total: int) -> Seq<int> {
    match n {
        Some(n) => {
            let index = match index {
                Some(i) => i,
                None => 0,
            };
            if n == 0 {
                if index > 0 && index <= total {
                    seq![index - 1]
                } else {
                    Seq::empty()
                }
            } else if n < 0 && index <= 0 {
                Seq::empty()
            } else if n < 0 && index <= -n {
                if index <= total {
                    seq![index - 1]
                } else {
                    Seq::empty()
                }
            } else {
                let start0 = if n < 0 {
                    spec_divide(index - total, -n, RoundType::Ceil)
                } else {
                    spec_divide(1 - index, n, RoundType::Ceil)
                };
                let end = if n < 0 {
                    spec_divide(index - 1, -n, RoundType::Floor)
                } else {
                    spec_divide(total - index, n, RoundType::Floor)
                };
                let start = if start0 < 0 {
                    0
                } else {
                    start0
                };
                let items = spec_nth_items(start, end, n, index);
                if n < 0 {
                    items.reverse()
                } else {
                    items
                }
            }
        },
        None => match index {
            Some(index) => if index <= 0 || index > total {
                Seq::empty()
            } else {
                seq![index - 1]
            },
            None => Seq::empty(),
        },
    }
}

/// The positions of a `Vec<usize>` as integers.
pub open spec fn usizes(v: Seq<usize>) -> Seq<int> {
    v.map_values(|x: usize| x as int)
}

proof fn lemma_floor_bound(a: int, b: int)
    requires
        b > 0,
    ensures
        spec_divide(a, b, RoundType::Floor) * b <= (if a >= 0 { a } else { 0 }),
{
    let ua = spec_abs(a);
    vstd::arithmetic::div_mod::lemma_fundamental_div_mod(ua, b);
    vstd::arithmetic::div_mod::lemma_mod_bound(ua, b);
    let q0 = ua / b;
    let r0 = ua % b;
    assert(q0 * b + r0 == ua) by (nonlinear_arith)
        requires
            ua == b * q0 + r0,
    ;
    vstd::arithmetic::div_mod::lemma_div_pos_is_pos(ua, b);
    let q = spec_divide(a, b, RoundType::Floor);
    if a >= 0 {
        assert(q == q0);
    } else {
        if q0 == 0 || r0 == 0 {
            assert(q == -q0);
            assert(-q0 * b == -(q0 * b)) by (nonlinear_arith);
        } else {
            assert(q == -q0 - 1);
            assert((-q0 - 1) * b == -(q0 * b) - b) by (nonlinear_arith);
        }
    }
}

impl Nth {
    /// The positions among `total` elements that `an+b` allows, given the
    /// step `n` and the offset `index` as decimal strings (see
    /// `spec_allowed_indexs`).
    pub fn get_allowed_indexs(n: &Option<String>, index: &Option<String>, total: usize) -> (r: Vec<
        usize,
    >)
        requires
            n matches Some(s) ==> spec_parses_isize(s@),
            index matches Some(s) ==> spec_parses_isize(s@),
            n is None ==> index is Some,
        ensures
            usizes(r@) == spec_allowed_indexs(
                match n {
                    Some(s) => Some(spec_number_value(s@)),
                    None => None,
                },
                match index {
                    Some(s) => Some(spec_number_value(s@)),
                    None => None,
                },
                total as int,
            ),
    {
        let nv: Option<isize> = match n {
            Some(s) => {
                let c = crate::chars::str_chars(s.as_str());
                parse_isize(c.as_slice())
            },
            None => None,
        };
        let iv: Option<isize> = match index {
            Some(s) => {
                let c = crate::chars::str_chars(s.as_str());
                parse_isize(c.as_slice())
            },
            None => None,
        };
        allowed_indexs(nv, iv, total)
    }
}

pub open spec fn opt_int(o: Option<isize>) -> Option<int> {
    match o {
        Some(v) => Some(v as int),
        None => None,
    }
}

/// `spec_allowed_indexs` on parsed numbers.
pub fn allowed_indexs(n: Option<isize>, index: Option<isize>, total: usize) -> (r: Vec<usize>)
    ensures
        usizes(r@) == spec_allowed_indexs(opt_int(n), opt_int(index), total as int),
{
    match n {
        Some(n) => {
            let index: isize = match index {
                Some(i) => i,
                None => 0,
            };
            let mut result: Vec<usize> = Vec::new();
            if n == 0 {
                if index > 0 && (index as u128) <= (total as u128) {
                    result.push((index - 1) as usize);
                    assert(usizes(result@) =~= seq![index - 1]);
                }
                assert(usizes(result@) =~= spec_allowed_indexs(
                    opt_int(Some(n)),
                    opt_int(Some(index)),
                    total as int,
                )) by {
                    if index > 0 && index <= total {
                    } else {
                        assert(usizes(result@) =~= Seq::empty());
                    }
                }
                return result;
            }
            let tot: i128 = total as i128;
            let nn: i128 = n as i128;
            let ii: i128 = index as i128;
            if n < 0 && index <= 0 {
                assert(usizes(result@) =~= Seq::empty());
                return result;
            }
            if n < 0 && ii <= -nn {
                if ii <= tot {
                    result.push((index - 1) as usize);
                    assert(usizes(result@) =~= seq![index - 1]);
                } else {
                    assert(usizes(result@) =~= Seq::empty());
                }
                return result;
            }
            // the bounds of the walk, computed where every term fits
            let (start0, end): (i128, i128) = if n < 0 {
                assert(ii > -nn);
                let a = divide_i128(ii - tot, -nn, RoundType::Ceil);
                let b = divide_i128(ii - 1, -nn, RoundType::Floor);
                (a, b)
            } else {
                let a = divide_i128(1 - ii, nn, RoundType::Ceil);
                let b = divide_i128(tot - ii, nn, RoundType::Floor);
                (a, b)
            };
            let start: i128 = if start0 < 0 { 0 } else { start0 };
            let ghost ab: int = if n < 0 { -n } else { n as int };
            let ghost bound: int = if n > 0 {
                if tot - ii >= 0 { tot - ii } else { 0 }
            } else {
                ii - 1
            };
            proof {
                if n < 0 {
                    lemma_floor_bound(ii - 1, -(nn as int));
                } else {
                    lemma_floor_bound(tot - ii, nn as int);
                }
            }
            let ghost items_all = spec_nth_items(start as int, end as int, n as int, index as int);
            if start <= end {
                assert(end <= bound) by (nonlinear_arith)
                    requires
                        end * ab <= bound,
                        ab >= 1,
                        end >= 0,
                ;
                let mut k: i128 = start;
                while k <= end
                    invariant
                        start <= k <= end + 1,
                        0 <= start,
                        ab == spec_abs(n as int),
                        ab >= 1,
                        end * ab <= bound,
                        bound == (if n > 0 {
                            if tot - ii >= 0 { tot - ii } else { 0 }
                        } else {
                            ii - 1
                        }),
                        n < 0 ==> ii - 1 >= 0,
                        end <= bound,
                        tot == total,
                        ii == index,
                        nn == n,
                        usizes(result@) == spec_nth_items(start as int, k - 1, n as int, index as int),
                    decreases end + 1 - k,
                {
                    assert(0 <= k * ab <= end * ab) by (nonlinear_arith)
                        requires
                            0 <= k <= end,
                            ab >= 1,
                    ;
                    assert(k * nn == (if n > 0 { k * ab } else { -(k * ab) })) by (nonlinear_arith)
                        requires
                            k >= 0,
                            ab == spec_abs(nn as int),
                            nn == n,
                    ;
                    let cur: i128 = k * nn + ii;
                    let ghost before = result@;
                    if cur >= 1 {
                        assert(cur - 1 <= usize::MAX);
                        result.push((cur - 1) as usize);
                    } else if cur < 0 {
                        assert(cur + usize::MAX >= 0);
                        result.push((cur + (usize::MAX as i128)) as usize);
                    }
                    assert(usizes(result@) =~= spec_nth_items(start as int, k as int, n as int, index as int)) by {
                        assert(spec_nth_items(start as int, k as int, n as int, index as int)
                            == (match spec_nth_item(k as int, n as int, index as int) {
                                Some(p) => spec_nth_items(start as int, k - 1, n as int, index as int).push(p),
                                None => spec_nth_items(start as int, k - 1, n as int, index as int),
                            }));
                    }
                    k += 1;
                }
            } else {
                assert(usizes(result@) =~= spec_nth_items(start as int, end as int, n as int, index as int));
            }
            if n < 0 {
                let ghost fwd = result@;
                result = crate::utils::reversed(&result);
                assert(usizes(result@) =~= usizes(fwd).reverse());
            }
            result
        },
        None => {
            let mut result: Vec<usize> = Vec::new();
            match index {
                Some(index) => {
                    if index <= 0 || (index as u128) > (total as u128) {
                        assert(usizes(result@) =~= Seq::empty());
                    } else {
                        result.push((index - 1) as usize);
                        assert(usizes(result@) =~= seq![index - 1]);
                    }
                },
                None => {
                    assert(usizes(result@) =~= Seq::empty());
                },
            }
            result
        },
    }
}

/// `divide_isize` on wider integers, for bounds that an `isize` may not hold.
fn divide_i128(a: i128, b: i128, round: RoundType) -> (r: i128)
    requires
        b > 0,
        -0x1_0000_0000_0000_0000_0000 < a < 0x1_0000_0000_0000_0000_0000,
        b < 0x1_0000_0000_0000_0000_0000,
    ensures
        r == spec_divide(a as int, b as int, round),
{
    let ua: u128 = if a >= 0 { a as u128 } else { (-a) as u128 };
    let ub: u128 = b as u128;
    let uq: u128 = ua / ub;
    let ur: u128 = ua % ub;
    proof {
        vstd::arithmetic::div_mod::lemma_div_is_ordered_by_denominator(ua as int, 1, ub as int);
        vstd::arithmetic::div_mod::lemma_div_pos_is_pos(ua as int, ub as int);
    }
    let q: i128 = if a >= 0 { uq as i128 } else { -(uq as i128) };
    let rem: i128 = if a >= 0 { ur as i128 } else { -(ur as i128) };
    proof {
        vstd::arithmetic::div_mod::lemma_mod_bound(ua as int, ub as int);
    }
    assert(q == spec_trunc_div(a as int, b as int));
    assert(rem == spec_trunc_rem(a as int, b as int));
    let mut res: i128 = q;
    if q != 0 && rem != 0 {
        match round {
            RoundType::Floor => {
                if res < 0 {
                    res -= 1;
                }
            },
            RoundType::Ceil => {
                if res > 0 {
                    res += 1;
                }
            },
            RoundType::Round => {
                let symbol: i128 = if res < 0 { -1 } else { 1 };
                let total = rem * 2 - symbol * b;
                if (total >= 0 && a > 0) || (total <= 0 && a < 0) {
                    res += symbol;
                }
            },
        }
    }
    res
}

} // verus!
