//! Visiting the nodes of a set with a function of the caller: filtering,
//! testing, mapping and walking in order.
use crate::elements::Elements;
use crate::texts::Texts;
use vstd::prelude::*;

verus! {

/// The items of `s` at the positions where `keep` holds, in order.
pub open spec fn kept(s: Seq<usize>, keep: Seq<bool>) -> Seq<usize>
    decreases s.len(),
{
    if s.len() == 0 {
        Seq::empty()
    } else {
        let r = kept(s.drop_last(), keep.take(s.len() - 1));
        if keep[s.len() - 1] {
            r.push(s.last())
        } else {
            r
        }
    }
}

/// Where the answers are `want`.
pub open spec fn marks(keep: Seq<bool>, want: bool) -> Seq<bool> {
    Seq::new(keep.len(), |k: int| keep[k] == want)
}

/// The answers that `handle` may give for the first `n` items: each is one
/// of the results its contract allows on the position and the item.
pub open spec fn answers<F: Fn(usize, usize) -> bool>(handle: F, s: Seq<usize>, keep: Seq<bool>, n: int) -> bool {
    &&& keep.len() == n
    &&& forall|k: int| 0 <= k < n ==> call_ensures(handle, (k as usize, s[k]), #[trigger] keep[k])
}

proof fn lemma_kept_push(s: Seq<usize>, keep: Seq<bool>, i: int, b: bool)
    requires
        0 <= i < s.len(),
        keep.len() == i,
    ensures
        kept(s.take(i + 1), keep.push(b)) == if b {
            kept(s.take(i), keep).push(s[i])
        } else {
            kept(s.take(i), keep)
        },
{
    assert(s.take(i + 1).drop_last() =~= s.take(i));
    assert(keep.push(b).take(i) =~= keep);
}

/// Keeps the items for which `handle` answers `want`: the caller's
/// function is asked about each item, in order.
fn keep_by<F: Fn(usize, usize) -> bool>(s: &Vec<usize>, handle: F, want: bool) -> (r: Vec<usize>)
    requires
        forall|k: int| 0 <= k < s@.len() ==> call_requires(handle, (k as usize, #[trigger] s@[k])),
    ensures
        exists|keep: Seq<bool>|
            answers(handle, s@, keep, s@.len() as int) && r@ == kept(
                s@,
                marks(keep, want),
            ),
{
    let mut r: Vec<usize> = Vec::new();
    let ghost mut keep: Seq<bool> = Seq::empty();
    let mut i: usize = 0;
    while i < s.len()
        invariant
            forall|k: int| 0 <= k < s@.len() ==> call_requires(handle, (k as usize, #[trigger] s@[k])),
            i <= s@.len(),
            answers(handle, s@, keep, i as int),
            r@ == kept(s@.take(i as int), marks(keep, want)),
        decreases s@.len() - i,
    {
        let x = s[i];
        let b = handle(i, x);
        proof {
            let w = marks(keep, want);
            lemma_kept_push(s@, w, i as int, b == want);
            assert(marks(keep.push(b), want) =~= w.push(b == want));
            keep = keep.push(b);
        }
        if b == want {
            r.push(x);
        }
        i += 1;
    }
    assert(s@.take(i as int) =~= s@);
    r
}

/// Whether `handle` answers `want` for some item: the caller's function is
/// asked about the items in order until it does.
fn any_by<F: Fn(usize, usize) -> bool>(s: &Vec<usize>, handle: F, want: bool) -> (r: bool)
    requires
        forall|k: int| 0 <= k < s@.len() ==> call_requires(handle, (k as usize, #[trigger] s@[k])),
    ensures
        r ==> exists|k: int| 0 <= k < s@.len() && call_ensures(handle, (k as usize, s@[k]), want),
        !r ==> forall|k: int| 0 <= k < s@.len() ==> call_ensures(handle, (k as usize, s@[k]), !want),
{
    let mut i: usize = 0;
    while i < s.len()
        invariant
            forall|k: int| 0 <= k < s@.len() ==> call_requires(handle, (k as usize, #[trigger] s@[k])),
            i <= s@.len(),
            forall|k: int| 0 <= k < i ==> call_ensures(handle, (k as usize, s@[k]), !want),
        decreases s@.len() - i,
    {
        let b = handle(i, s[i]);
        if b == want {
            return true;
        }
        i += 1;
    }
    false
}

impl Elements {
    /// The elements for which `handle` answers `true`, asked with each
    /// position and element in order.
    pub fn filter_by<F: Fn(usize, usize) -> bool>(&self, handle: F) -> (r: Elements)
        requires
            forall|k: int| 0 <= k < self@.len() ==> call_requires(handle, (k as usize, #[trigger] self@[k])),
        ensures
            exists|keep: Seq<bool>|
                answers(handle, self@, keep, self@.len() as int) && r@ == kept(
                    self@,
                    marks(keep, true),
                ),
    {
        proof {
            assert forall|k: int| 0 <= k < self.nodes@.len() implies call_requires(handle, (k as usize, #[trigger] self.nodes@[k])) by {
                assert(self@[k] == self.nodes@[k]);
            }
        }
        let v = keep_by(&self.nodes, handle, true);
        proof {
            let keep = choose|keep: Seq<bool>|
                answers(handle, self.nodes@, keep, self.nodes@.len() as int) && v@ == kept(self.nodes@, marks(keep, true));
            assert(answers(handle, self@, keep, self@.len() as int) && v@ == kept(self@, marks(keep, true)));
        }
        Elements { nodes: v }
    }

    /// The elements for which `handle` answers `false`.
    pub fn not_by<F: Fn(usize, usize) -> bool>(&self, handle: F) -> (r: Elements)
        requires
            forall|k: int| 0 <= k < self@.len() ==> call_requires(handle, (k as usize, #[trigger] self@[k])),
        ensures
            exists|keep: Seq<bool>|
                answers(handle, self@, keep, self@.len() as int) && r@ == kept(
                    self@,
                    marks(keep, false),
                ),
    {
        proof {
            assert forall|k: int| 0 <= k < self.nodes@.len() implies call_requires(handle, (k as usize, #[trigger] self.nodes@[k])) by {
                assert(self@[k] == self.nodes@[k]);
            }
        }
        let v = keep_by(&self.nodes, handle, false);
        proof {
            let keep = choose|keep: Seq<bool>|
                answers(handle, self.nodes@, keep, self.nodes@.len() as int) && v@ == kept(self.nodes@, marks(keep, false));
            assert(answers(handle, self@, keep, self@.len() as int) && v@ == kept(self@, marks(keep, false)));
        }
        Elements { nodes: v }
    }

    /// `handle` answers `true` for some element, asked in order until it
    /// does.
    pub fn is_by<F: Fn(usize, usize) -> bool>(&self, handle: F) -> (r: bool)
        requires
            forall|k: int| 0 <= k < self@.len() ==> call_requires(handle, (k as usize, #[trigger] self@[k])),
        ensures
            r ==> exists|k: int| 0 <= k < self@.len() && call_ensures(handle, (k as usize, self@[k]), true),
            !r ==> forall|k: int| 0 <= k < self@.len() ==> call_ensures(handle, (k as usize, self@[k]), false),
    {
        proof {
            assert forall|k: int| 0 <= k < self.nodes@.len() implies call_requires(handle, (k as usize, #[trigger] self.nodes@[k])) by {
                assert(self@[k] == self.nodes@[k]);
            }
        }
        let r = any_by(&self.nodes, handle, true);
        proof {
            if r {
                let k = choose|k: int| 0 <= k < self.nodes@.len() && call_ensures(handle, (k as usize, self.nodes@[k]), true);
                assert(self@[k] == self.nodes@[k]);
            } else {
                assert forall|k: int| 0 <= k < self@.len() implies call_ensures(handle, (k as usize, self@[k]), false) by {
                    assert(self@[k] == self.nodes@[k]);
                }
            }
        }
        r
    }

    /// `handle` answers `true` for every element, asked in order until it
    /// does not.
    pub fn is_all_by<F: Fn(usize, usize) -> bool>(&self, handle: F) -> (r: bool)
        requires
            forall|k: int| 0 <= k < self@.len() ==> call_requires(handle, (k as usize, #[trigger] self@[k])),
        ensures
            r ==> forall|k: int| 0 <= k < self@.len() ==> call_ensures(handle, (k as usize, self@[k]), true),
            !r ==> exists|k: int| 0 <= k < self@.len() && call_ensures(handle, (k as usize, self@[k]), false),
    {
        proof {
            assert forall|k: int| 0 <= k < self.nodes@.len() implies call_requires(handle, (k as usize, #[trigger] self.nodes@[k])) by {
                assert(self@[k] == self.nodes@[k]);
            }
        }
        let r = any_by(&self.nodes, handle, false);
        proof {
            if r {
                let k = choose|k: int| 0 <= k < self.nodes@.len() && call_ensures(handle, (k as usize, self.nodes@[k]), false);
                assert(self@[k] == self.nodes@[k]);
            } else {
                assert forall|k: int| 0 <= k < self@.len() implies call_ensures(handle, (k as usize, self@[k]), true) by {
                    assert(self@[k] == self.nodes@[k]);
                }
            }
        }
        !r
    }

    /// What `handle` gives for each position and element, in order.
    pub fn map<T, F: Fn(usize, usize) -> T>(&self, handle: F) -> (r: Vec<T>)
        requires
            forall|k: int| 0 <= k < self@.len() ==> call_requires(handle, (k as usize, #[trigger] self@[k])),
        ensures
            r@.len() == self@.len(),
            forall|k: int| 0 <= k < self@.len() ==> call_ensures(handle, (k as usize, self@[k]), #[trigger] r@[k]),
    {
        let mut r: Vec<T> = Vec::with_capacity(self.nodes.len());
        let mut i: usize = 0;
        while i < self.nodes.len()
            invariant
                forall|k: int| 0 <= k < self@.len() ==> call_requires(handle, (k as usize, #[trigger] self@[k])),
                i <= self@.len(),
                r@.len() == i,
                forall|k: int| 0 <= k < i ==> call_ensures(handle, (k as usize, self@[k]), #[trigger] r@[k]),
            decreases self@.len() - i,
        {
            let v = handle(i, self.nodes[i]);
            r.push(v);
            i += 1;
        }
        r
    }
}

impl Texts {
    /// The text nodes for which `handle` answers `true`, asked with each
    /// position and node in order.
    pub fn filter_by<F: Fn(usize, usize) -> bool>(&self, handle: F) -> (r: Texts)
        requires
            forall|k: int| 0 <= k < self@.len() ==> call_requires(handle, (k as usize, #[trigger] self@[k])),
        ensures
            exists|keep: Seq<bool>|
                answers(handle, self@, keep, self@.len() as int) && r@ == kept(
                    self@,
                    marks(keep, true),
                ),
    {
        proof {
            assert forall|k: int| 0 <= k < self.nodes@.len() implies call_requires(handle, (k as usize, #[trigger] self.nodes@[k])) by {
                assert(self@[k] == self.nodes@[k]);
            }
        }
        let v = keep_by(&self.nodes, handle, true);
        proof {
            let keep = choose|keep: Seq<bool>|
                answers(handle, self.nodes@, keep, self.nodes@.len() as int) && v@ == kept(self.nodes@, marks(keep, true));
            assert(answers(handle, self@, keep, self@.len() as int) && v@ == kept(self@, marks(keep, true)));
        }
        Texts { nodes: v }
    }
}

/// The answers `bs` were given, in order, by the states `fs` of the caller's
/// function, asked about the first items of `s` with their positions; all
/// were `true` but maybe the last.
pub open spec fn walked<F: FnMut(usize, usize) -> bool>(s: Seq<usize>, fs: Seq<F>, bs: Seq<bool>) -> bool {
    &&& fs.len() == bs.len() <= s.len()
    &&& forall|k: int| 0 <= k < bs.len() ==> call_ensures(#[trigger] fs[k], (k as usize, s[k]), bs[k])
    &&& forall|k: int| 0 <= k < bs.len() - 1 ==> #[trigger] bs[k]
}

/// Walks the items in order, asking `handle` about each with its position
/// until it answers `false`: the number of items it was asked about.
fn walk_by<F: FnMut(usize, usize) -> bool>(s: &Vec<usize>, handle: F) -> (r: usize)
    requires
        forall|f: F, k: usize, x: usize| call_requires(f, (k, x)),
    ensures
        exists|fs: Seq<F>, bs: Seq<bool>|
            #[trigger] walked(s@, fs, bs) && bs.len() == r && (r < s@.len() ==> r > 0 && !bs[r - 1]),
        r == 0 <==> s@.len() == 0,
{
    let mut handle = handle;
    let ghost mut fs: Seq<F> = Seq::empty();
    let ghost mut bs: Seq<bool> = Seq::empty();
    let mut i: usize = 0;
    while i < s.len()
        invariant
            forall|f: F, k: usize, x: usize| call_requires(f, (k, x)),
            i <= s@.len(),
            walked(s@, fs, bs),
            bs.len() == i,
            i > 0 ==> bs[i - 1],
        decreases s@.len() - i,
    {
        let ghost f0 = handle;
        let go = handle(i, s[i]);
        proof {
            fs = fs.push(f0);
            bs = bs.push(go);
            assert forall|k: int| 0 <= k < bs.len() implies call_ensures(#[trigger] fs[k], (k as usize, s@[k]), bs[k]) by {
                if k < i {
                }
            }
        }
        i += 1;
        if !go {
            assert(walked(s@, fs, bs));
            return i;
        }
    }
    assert(walked(s@, fs, bs));
    i
}

impl Elements {
    /// Asks `handle` about each element in order, with its position, until
    /// it answers `false`; the set itself comes back, unchanged.
    pub fn for_each<F: FnMut(usize, usize) -> bool>(&mut self, handle: F) -> (r: &mut Self)
        requires
            forall|f: F, k: usize, x: usize| call_requires(f, (k, x)),
        ensures
            *r == *old(self),
            *final(self) == *final(r),
            exists|fs: Seq<F>, bs: Seq<bool>|
                #[trigger] walked(old(self)@, fs, bs) && (bs.len() == old(self)@.len() || (bs.len() > 0
                    && !bs[bs.len() - 1])),
    {
        let n = walk_by(&self.nodes, handle);
        proof {
            let (fs, bs) = choose|fs: Seq<F>, bs: Seq<bool>|
                #[trigger] walked(self.nodes@, fs, bs) && bs.len() == n && (n < self.nodes@.len() ==> n > 0 && !bs[n - 1]);
            assert(walked(self@, fs, bs));
        }
        self
    }

    /// The same as `for_each`.
    pub fn each<F: FnMut(usize, usize) -> bool>(&mut self, handle: F) -> (r: &mut Self)
        requires
            forall|f: F, k: usize, x: usize| call_requires(f, (k, x)),
        ensures
            *r == *old(self),
            *final(self) == *final(r),
            exists|fs: Seq<F>, bs: Seq<bool>|
                #[trigger] walked(old(self)@, fs, bs) && (bs.len() == old(self)@.len() || (bs.len() > 0
                    && !bs[bs.len() - 1])),
    {
        self.for_each(handle)
    }
}

impl Texts {
    /// Asks `handle` about each text node in order, with its position, until
    /// it answers `false`; the set itself comes back, unchanged.
    pub fn for_each<F: FnMut(usize, usize) -> bool>(&mut self, handle: F) -> (r: &mut Self)
        requires
            forall|f: F, k: usize, x: usize| call_requires(f, (k, x)),
        ensures
            *r == *old(self),
            *final(self) == *final(r),
            exists|fs: Seq<F>, bs: Seq<bool>|
                #[trigger] walked(old(self)@, fs, bs) && (bs.len() == old(self)@.len() || (bs.len() > 0
                    && !bs[bs.len() - 1])),
    {
        let n = walk_by(&self.nodes, handle);
        proof {
            let (fs, bs) = choose|fs: Seq<F>, bs: Seq<bool>|
                #[trigger] walked(self.nodes@, fs, bs) && bs.len() == n && (n < self.nodes@.len() ==> n > 0 && !bs[n - 1]);
            assert(walked(self@, fs, bs));
        }
        self
    }

    /// The same as `for_each`.
    pub fn each<F: FnMut(usize, usize) -> bool>(&mut self, handle: F) -> (r: &mut Self)
        requires
            forall|f: F, k: usize, x: usize| call_requires(f, (k, x)),
        ensures
            *r == *old(self),
            *final(self) == *final(r),
            exists|fs: Seq<F>, bs: Seq<bool>|
                #[trigger] walked(old(self)@, fs, bs) && (bs.len() == old(self)@.len() || (bs.len() > 0
                    && !bs[bs.len() - 1])),
    {
        self.for_each(handle)
    }
}

} // verus!
