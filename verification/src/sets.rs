//! Element sets compared with other element sets: membership filters,
//! positions and unions.
use crate::dom::Document;
use crate::elements::{all_valid, merge, merge_exec, Elements};
use crate::matching::{descendants, descendants_exec, final_ok, final_ok_exec, vec_contains};
use crate::selector::Combinator;
use vstd::prelude::*;

verus! {

/// The first position at or after `start` where `s` holds `x`.
pub open spec fn index_from(s: Seq<usize>, x: usize, start: int) -> Option<int>
    decreases s.len() - start,
{
    if start < 0 || start >= s.len() {
        None
    } else if s[start] == x {
        Some(start)
    } else {
        index_from(s, x, start + 1)
    }
}

/// The nodes of `e` found in `s` (`keep_found`) or not found in it, each
/// looked for after the place where the one before was found.
pub open spec fn kept_in(e: Seq<usize>, s: Seq<usize>, start: int, keep_found: bool) -> Seq<usize>
    decreases e.len(),
{
    if e.len() == 0 {
        Seq::empty()
    } else {
        match index_from(s, e[0], start) {
            Some(i) => if keep_found {
                seq![e[0]] + kept_in(e.drop_first(), s, i + 1, keep_found)
            } else {
                kept_in(e.drop_first(), s, i + 1, keep_found)
            },
            None => if keep_found {
                kept_in(e.drop_first(), s, start, keep_found)
            } else {
                seq![e[0]] + kept_in(e.drop_first(), s, start, keep_found)
            },
        }
    }
}

/// Every node of `e` is found in `s`, each after the place where the one
/// before was found.
pub open spec fn all_in_from(e: Seq<usize>, s: Seq<usize>, start: int) -> bool
    decreases e.len(),
{
    if e.len() == 0 {
        true
    } else {
        match index_from(s, e[0], start) {
            Some(i) => all_in_from(e.drop_first(), s, i + 1),
            None => false,
        }
    }
}

/// The nodes of `e` with a descendant element in `s`.
pub open spec fn has_in_spec(d: &Document, e: Seq<usize>, s: Seq<usize>) -> Seq<usize> {
    e.filter(|x: usize| exists|k: int| 0 <= k < descendants(d, x as int).len() && s.contains(#[trigger] descendants(d, x as int)[k]))
}

/// How a slice of a list of `len` items starts: at `start` when given.
pub open spec fn slice_start(len: int, start: Option<usize>) -> int {
    match start {
        Some(s) => s as int,
        None => 0,
    }
}

/// Where a slice of a list of `len` items ends (see `SliceEnd`), no
/// farther than `len`.
pub open spec fn slice_end(len: int, end: SliceEnd) -> int {
    match end {
        SliceEnd::Unbounded => len,
        SliceEnd::Excluded(e) => if e < len {
            e as int
        } else {
            len
        },
        SliceEnd::Included(e) => if e + 1 < len {
            e + 1
        } else {
            len
        },
    }
}

/// The items of `s` that `slice` keeps: from the start to the end (see
/// `slice_start`, `slice_end`); none where the start lies past the list.
pub open spec fn slice_result(s: Seq<usize>, start: Option<usize>, end: SliceEnd) -> Seq<usize> {
    if slice_start(s.len() as int, start) < s.len() || start is None {
        s.subrange(slice_start(s.len() as int, start), slice_end(s.len() as int, end))
    } else {
        Seq::empty()
    }
}

/// The end of a range of positions.
#[derive(Clone, Copy, Debug)]
pub enum SliceEnd {
    /// to the end
    Unbounded,
    /// up to this position, left out
    Excluded(usize),
    /// up to this position, kept
    Included(usize),
}

/// The first position at or after `start` where `s` holds `x`.
fn index_of(s: &Vec<usize>, x: usize, start: usize) -> (r: Option<usize>)
    ensures
        r matches Some(k) ==> index_from(s@, x, start as int) == Some(k as int) && k < s@.len() && k < usize::MAX,
        r is None ==> index_from(s@, x, start as int) is None,
{
    let mut j = start;
    while j < s.len()
        invariant
            start <= j,
            index_from(s@, x, start as int) == index_from(s@, x, j as int),
        decreases s.len() - j,
    {
        if s[j] == x {
            return Some(j);
        }
        j += 1;
    }
    None
}

/// See `kept_in`.
fn kept_in_exec(e: &Vec<usize>, s: &Vec<usize>, keep_found: bool) -> (r: Vec<usize>)
    ensures
        r@ == kept_in(e@, s@, 0, keep_found),
{
    let mut r: Vec<usize> = Vec::new();
    let mut start: usize = 0;
    let mut i: usize = 0;
    assert(e@.skip(0) =~= e@);
    while i < e.len()
        invariant
            i <= e@.len(),
            r@ + kept_in(e@.skip(i as int), s@, start as int, keep_found) == kept_in(e@, s@, 0, keep_found),
        decreases e.len() - i,
    {
        let x = e[i];
        assert(e@.skip(i as int).drop_first() =~= e@.skip(i + 1));
        assert(e@.skip(i as int)[0] == x);
        match index_of(s, x, start) {
            Some(k) => {
                if keep_found {
                    r.push(x);
                    assert(r@ + kept_in(e@.skip(i + 1), s@, k + 1, keep_found) =~= r@.drop_last() + (seq![x]
                        + kept_in(e@.skip(i + 1), s@, k + 1, keep_found)));
                }
                start = k + 1;
            },
            None => {
                if !keep_found {
                    r.push(x);
                    assert(r@ + kept_in(e@.skip(i + 1), s@, start as int, keep_found) =~= r@.drop_last() + (seq![x]
                        + kept_in(e@.skip(i + 1), s@, start as int, keep_found)));
                }
            },
        }
        i += 1;
    }
    assert(e@.skip(i as int) =~= Seq::<usize>::empty());
    assert(r@ + Seq::<usize>::empty() =~= r@);
    r
}

impl Elements {
    /// The elements also in `search`, each looked for after the place where
    /// the one before was found (see `kept_in`).
    pub fn filter_in(&self, search: &Elements) -> (r: Elements)
        ensures
            r@ == kept_in(self@, search@, 0, true),
    {
        Elements { nodes: kept_in_exec(&self.nodes, &search.nodes, true) }
    }

    /// The elements not in `search`, each looked for after the place where
    /// the one before was found (see `kept_in`).
    pub fn not_in(&self, search: &Elements) -> (r: Elements)
        ensures
            r@ == kept_in(self@, search@, 0, false),
    {
        Elements { nodes: kept_in_exec(&self.nodes, &search.nodes, false) }
    }

    /// Some element is also in `search`.
    pub fn is_in(&self, search: &Elements) -> (r: bool)
        ensures
            r == (exists|i: int| 0 <= i < self@.len() && search@.contains(#[trigger] self@[i])),
    {
        let mut i: usize = 0;
        while i < self.nodes.len()
            invariant
                i <= self@.len(),
                forall|j: int| 0 <= j < i ==> !search@.contains(#[trigger] self@[j]),
            decreases self.nodes.len() - i,
        {
            if vec_contains(search.nodes.as_slice(), self.nodes[i]) {
                return true;
            }
            i += 1;
        }
        false
    }

    /// There are no more elements than in `search` and each is in it, in
    /// the same order (see `all_in_from`).
    pub fn is_all_in(&self, search: &Elements) -> (r: bool)
        ensures
            r == (self@.len() <= search@.len() && all_in_from(self@, search@, 0)),
    {
        if self.nodes.len() > search.nodes.len() {
            return false;
        }
        let mut start: usize = 0;
        let mut i: usize = 0;
        assert(self@.skip(0) =~= self@);
        while i < self.nodes.len()
            invariant
                i <= self@.len(),
                all_in_from(self@.skip(i as int), search@, start as int) == all_in_from(self@, search@, 0),
            decreases self.nodes.len() - i,
        {
            let x = self.nodes[i];
            assert(self@.skip(i as int).drop_first() =~= self@.skip(i + 1));
            assert(self@.skip(i as int)[0] == x);
            match index_of(&search.nodes, x, start) {
                Some(k) => {
                    start = k + 1;
                },
                None => {
                    return false;
                },
            }
            i += 1;
        }
        assert(self@.skip(i as int) =~= Seq::<usize>::empty());
        true
    }

    /// The elements with a descendant element in `search`.
    pub fn has_in(&self, d: &Document, search: &Elements) -> (r: Elements)
        requires
            d.wf(),
            all_valid(d, self@),
        ensures
            r@ == has_in_spec(d, self@, search@),
    {
        let ghost f = |x: usize|
            exists|k: int| 0 <= k < descendants(d, x as int).len() && search@.contains(#[trigger] descendants(d, x as int)[k]);
        let mut r: Vec<usize> = Vec::new();
        let mut i: usize = 0;
        assert(self@.take(0).filter(f) =~= Seq::<usize>::empty()) by {
            reveal(Seq::filter);
        }
        while i < self.nodes.len()
            invariant
                d.wf(),
                all_valid(d, self@),
                f == (|x: usize|
                    exists|k: int| 0 <= k < descendants(d, x as int).len() && search@.contains(#[trigger] descendants(d, x as int)[k])),
                i <= self@.len(),
                r@ == self@.take(i as int).filter(f),
            decreases self.nodes.len() - i,
        {
            let x = self.nodes[i];
            assert(d.valid(self@[i as int] as int));
            proof {
                assert(self@.take(i + 1).drop_last() =~= self@.take(i as int));
                reveal(Seq::filter);
            }
            let ds = descendants_exec(d, x);
            let mut found = false;
            let mut k: usize = 0;
            while k < ds.len()
                invariant
                    k <= ds@.len(),
                    found == (exists|j: int| 0 <= j < k && search@.contains(#[trigger] ds@[j])),
                decreases ds.len() - k,
            {
                if !found && vec_contains(search.nodes.as_slice(), ds[k]) {
                    found = true;
                }
                k += 1;
            }
            assert(found == f(x));
            if found {
                r.push(x);
            }
            i += 1;
        }
        assert(self@.take(i as int) =~= self@);
        Elements { nodes: r }
    }

    /// The element at `index` alone; none where there is no such element.
    pub fn eq(&self, index: usize) -> (r: Elements)
        ensures
            r@ == if index < self@.len() {
                seq![self@[index as int]]
            } else {
                Seq::empty()
            },
    {
        if index < self.nodes.len() {
            Elements { nodes: vec![self.nodes[index]] }
        } else {
            Elements::new()
        }
    }

    /// The first element alone; none where there is none.
    pub fn first(&self) -> (r: Elements)
        ensures
            r@ == if self@.len() > 0 {
                seq![self@[0]]
            } else {
                Seq::empty()
            },
    {
        self.eq(0)
    }

    /// The last element alone.
    pub fn last(&self) -> (r: Elements)
        requires
            self@.len() > 0,
        ensures
            r@ == seq![self@.last()],
    {
        self.eq(self.nodes.len() - 1)
    }

    /// The elements from `start` (the first when `None`) to `end`; none
    /// where `start` is past the last element.
    pub fn slice(&self, start: Option<usize>, end: SliceEnd) -> (r: Elements)
        requires
            end matches SliceEnd::Included(e) ==> e < usize::MAX,
            slice_start(self@.len() as int, start) < self@.len() ==> slice_start(self@.len() as int, start) <= slice_end(
                self@.len() as int,
                end,
            ),
        ensures
            r@ == slice_result(self@, start, end),
    {
        let total = self.nodes.len();
        let mut from: usize = 0;
        let mut to: usize = total;
        match start {
            Some(s) => {
                if s < to {
                    from = s;
                } else {
                    return Elements::new();
                }
            },
            None => {},
        }
        match end {
            SliceEnd::Unbounded => {},
            SliceEnd::Excluded(e) => {
                if e < to {
                    to = e;
                }
            },
            SliceEnd::Included(e) => {
                let e1 = e + 1;
                if e1 < to {
                    to = e1;
                }
            },
        }
        let mut r: Vec<usize> = Vec::with_capacity(to - from);
        let mut k = from;
        while k < to
            invariant
                from <= k <= to <= self@.len(),
                r@ == self@.subrange(from as int, k as int),
            decreases to - k,
        {
            r.push(self.nodes[k]);
            k += 1;
            assert(r@ =~= self@.subrange(from as int, k as int));
        }
        Elements { nodes: r }
    }

    /// The elements of both sets in document order, each once where the
    /// two sets are in document order (see `merge`).
    pub fn add(&self, d: &Document, eles: Elements) -> (r: Elements)
        requires
            d.wf(),
            all_valid(d, self@),
            all_valid(d, eles@),
        ensures
            r@ == merge(d, self@, eles@),
            all_valid(d, r@),
    {
        Elements { nodes: merge_exec(d, &self.nodes, &eles.nodes) }
    }

    /// `ele` is reached from one of the elements over `comb`: it is a
    /// descendant, child, next sibling or following sibling of one, or one
    /// of them (`Chain`).
    pub fn contains(&self, d: &Document, ele: usize, comb: &Combinator) -> (r: bool)
        requires
            d.wf(),
            d.valid(ele as int),
            comb.spec_reversible(),
        ensures
            r == final_ok(d, self@, ele as int, comb.spec_reverse()),
    {
        let rc = comb.reverse();
        final_ok_exec(d, self.nodes.as_slice(), ele, rc)
    }
}

} // verus!
