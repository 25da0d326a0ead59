//! The text nodes under elements with their depths, chosen by a function
//! of the caller.
use crate::dom::{Document, NodeKind};
use crate::elements::{all_valid, Elements};
use crate::html::is_content_tag;
use crate::texts::{raw_text_tag, texts_all, texts_among, Texts};
use crate::visit::{kept, marks};
use vstd::prelude::*;

verus! {

/// The text nodes found among the child nodes `cs` at depth `depth`, each
/// with the depth it was found at (the walk of `texts_among`).
pub open spec fn texts_among_at(d: &Document, cs: Seq<usize>, depth: nat, limit: nat, fuel: nat) -> Seq<(usize, nat)>
    decreases fuel, cs.len(),
{
    if cs.len() == 0 {
        Seq::empty()
    } else {
        let c = cs.last() as int;
        let before = texts_among_at(d, cs.drop_last(), depth, limit, fuel);
        before + if d.kind_of(c) == NodeKind::Text || d.kind_of(c) == NodeKind::Spaces {
            seq![(c as usize, depth)]
        } else if d.kind_of(c) == NodeKind::Tag {
            if raw_text_tag(d, c) {
                seq![(c as usize, depth)]
            } else if depth + 1 < limit && fuel > 0 {
                texts_among_at(d, d@[c].children, depth + 1, limit, (fuel - 1) as nat)
            } else {
                Seq::empty()
            }
        } else {
            Seq::empty()
        }
    }
}

/// The text nodes of node `x` with their depths (see `texts_of`); a node
/// without children that holds raw text is found at depth 0.
pub open spec fn texts_at(d: &Document, x: int, limit: nat) -> Seq<(usize, nat)> {
    let lim = if limit == 0 {
        usize::MAX as nat
    } else {
        limit
    };
    if d@[x].children.len() > 0 {
        texts_among_at(d, d@[x].children, 0, lim, d.fuel())
    } else if raw_text_tag(d, x) {
        seq![(x as usize, 0nat)]
    } else {
        Seq::empty()
    }
}

/// The text nodes with their depths of each node of `e`, joined in order.
pub open spec fn texts_all_at(d: &Document, e: Seq<usize>, limit: nat) -> Seq<(usize, nat)>
    decreases e.len(),
{
    if e.len() == 0 {
        Seq::empty()
    } else {
        texts_all_at(d, e.drop_last(), limit) + texts_at(d, e.last() as int, limit)
    }
}

/// Pairs of a node and a depth, the depth as a number.
pub open spec fn at_view(v: Seq<(usize, usize)>) -> Seq<(usize, nat)> {
    v.map_values(|p: (usize, usize)| (p.0, p.1 as nat))
}

/// The nodes of pairs of a node and a depth.
pub open spec fn at_nodes(v: Seq<(usize, nat)>) -> Seq<usize> {
    v.map_values(|p: (usize, nat)| p.0)
}

/// The answers that `handle` may give for each node found, asked with its
/// depth and the node.
pub open spec fn depth_answers<F: Fn(usize, usize) -> bool>(handle: F, cand: Seq<(usize, nat)>, keep: Seq<bool>) -> bool {
    &&& keep.len() == cand.len()
    &&& forall|k: int| 0 <= k < cand.len() ==> call_ensures(handle, (cand[k].1 as usize, cand[k].0), #[trigger] keep[k])
}

/// See `texts_among_at`.
fn texts_among_at_exec(d: &Document, cs: &Vec<usize>, depth: usize, limit: usize, fuel: usize) -> (r: Vec<(usize, usize)>)
    requires
        d.wf(),
        depth < limit,
        forall|k: int| 0 <= k < cs@.len() ==> d.valid(#[trigger] cs@[k] as int),
    ensures
        at_view(r@) == texts_among_at(d, cs@, depth as nat, limit as nat, fuel as nat),
        forall|k: int| 0 <= k < r@.len() ==> d.valid((#[trigger] r@[k]).0 as int) && r@[k].1 < limit,
    decreases fuel, cs@.len(),
{
    let mut r: Vec<(usize, usize)> = Vec::new();
    let mut i: usize = 0;
    assert(cs@.take(0) =~= Seq::<usize>::empty());
    assert(at_view(r@) =~= Seq::<(usize, nat)>::empty());
    while i < cs.len()
        invariant
            d.wf(),
            forall|k: int| 0 <= k < cs@.len() ==> d.valid(#[trigger] cs@[k] as int),
            depth < limit,
            i <= cs@.len(),
            at_view(r@) == texts_among_at(d, cs@.take(i as int), depth as nat, limit as nat, fuel as nat),
            forall|k: int| 0 <= k < r@.len() ==> d.valid((#[trigger] r@[k]).0 as int) && r@[k].1 < limit,
        decreases cs.len() - i,
    {
        let c = cs[i];
        assert(cs@.take(i + 1).drop_last() =~= cs@.take(i as int));
        assert(cs@.take(i + 1).last() == c);
        assert(d.valid(cs@[i as int] as int));
        assert(d@[c as int] == d.nodes@[c as int]@);
        let k = d.nodes[c].kind;
        let ghost before = r@;
        if k == NodeKind::Text || k == NodeKind::Spaces {
            r.push((c, depth));
            assert(at_view(r@) =~= at_view(before) + seq![(c, depth as nat)]);
        } else if k == NodeKind::Tag {
            let name = d.tag_names(c);
            if is_content_tag(name.as_slice()) {
                r.push((c, depth));
                assert(at_view(r@) =~= at_view(before) + seq![(c, depth as nat)]);
            } else if depth < limit - 1 && fuel > 0 {
                let kids = crate::elements::copy_ids(&d.nodes[c].children);
                assert forall|j: int| 0 <= j < kids@.len() implies d.valid(#[trigger] kids@[j] as int) by {
                    assert(d.nodes@[c as int].children@[j] == kids@[j]);
                }
                let mut more = texts_among_at_exec(d, &kids, depth + 1, limit, fuel - 1);
                let ghost m = more@;
                r.append(&mut more);
                assert(at_view(r@) =~= at_view(before) + at_view(m));
            } else {
                assert(at_view(r@) =~= at_view(before) + Seq::<(usize, nat)>::empty());
            }
        } else {
            assert(at_view(r@) =~= at_view(before) + Seq::<(usize, nat)>::empty());
        }
        assert(at_view(r@) =~= texts_among_at(d, cs@.take(i + 1), depth as nat, limit as nat, fuel as nat));
        i += 1;
    }
    assert(cs@.take(i as int) =~= cs@);
    r
}

impl Document {
    /// The text nodes of node `x` with their depths (see `texts_at`).
    pub fn texts_at(&self, x: usize, limit_depth: usize) -> (r: Vec<(usize, usize)>)
        requires
            self.wf(),
            self.valid(x as int),
        ensures
            at_view(r@) == texts_at(self, x as int, limit_depth as nat),
            forall|k: int| 0 <= k < r@.len() ==> self.valid((#[trigger] r@[k]).0 as int),
    {
        let lim = if limit_depth == 0 {
            usize::MAX
        } else {
            limit_depth
        };
        assert(self@[x as int] == self.nodes@[x as int]@);
        if self.nodes[x].children.len() > 0 {
            let kids = crate::elements::copy_ids(&self.nodes[x].children);
            assert forall|j: int| 0 <= j < kids@.len() implies self.valid(#[trigger] kids@[j] as int) by {
                assert(self.nodes@[x as int].children@[j] == kids@[j]);
            }
            texts_among_at_exec(self, &kids, 0, lim, self.nodes.len())
        } else {
            let name = self.tag_names(x);
            if is_content_tag(name.as_slice()) {
                let r = vec![(x, 0usize)];
                assert(at_view(r@) =~= seq![(x, 0nat)]);
                r
            } else {
                let r: Vec<(usize, usize)> = Vec::new();
                assert(at_view(r@) =~= Seq::<(usize, nat)>::empty());
                r
            }
        }
    }
}

impl Elements {
    /// The text nodes of the elements (see `texts_all_at`) for which
    /// `handle` answers `true`, asked with the depth each was found at and
    /// the node, in order.
    pub fn texts_by<F: Fn(usize, usize) -> bool>(&self, d: &Document, limit_depth: usize, handle: F) -> (r: Texts)
        requires
            d.wf(),
            all_valid(d, self@),
            forall|k: int|
                0 <= k < texts_all_at(d, self@, limit_depth as nat).len() ==> {
                    let p = #[trigger] texts_all_at(d, self@, limit_depth as nat)[k];
                    call_requires(handle, (p.1 as usize, p.0))
                },
        ensures
            exists|keep: Seq<bool>|
                #[trigger] depth_answers(handle, texts_all_at(d, self@, limit_depth as nat), keep) && r@ == kept(
                    at_nodes(texts_all_at(d, self@, limit_depth as nat)),
                    marks(keep, true),
                ),
    {
        let ghost cand_all = texts_all_at(d, self@, limit_depth as nat);
        // the candidates, with their depths
        let mut cand: Vec<(usize, usize)> = Vec::new();
        let mut i: usize = 0;
        assert(self@.take(0) =~= Seq::<usize>::empty());
        assert(at_view(cand@) =~= Seq::<(usize, nat)>::empty());
        while i < self.nodes.len()
            invariant
                d.wf(),
                all_valid(d, self@),
                i <= self@.len(),
                at_view(cand@) == texts_all_at(d, self@.take(i as int), limit_depth as nat),
            decreases self.nodes.len() - i,
        {
            assert(self@.take(i + 1).drop_last() =~= self@.take(i as int));
            assert(d.valid(self@[i as int] as int));
            let mut t = d.texts_at(self.nodes[i], limit_depth);
            let ghost before = cand@;
            let ghost tv = t@;
            cand.append(&mut t);
            assert(at_view(cand@) =~= at_view(before) + at_view(tv));
            i += 1;
        }
        assert(self@.take(i as int) =~= self@);
        assert(at_view(cand@) == cand_all);
        // the answers
        let mut r: Vec<usize> = Vec::new();
        let ghost mut keep: Seq<bool> = Seq::empty();
        let mut j: usize = 0;
        while j < cand.len()
            invariant
                at_view(cand@) == cand_all,
                forall|k: int|
                    0 <= k < cand_all.len() ==> {
                        let p = #[trigger] cand_all[k];
                        call_requires(handle, (p.1 as usize, p.0))
                    },
                j <= cand@.len(),
                keep.len() == j,
                forall|k: int| 0 <= k < j ==> call_ensures(handle, (cand_all[k].1 as usize, cand_all[k].0), #[trigger] keep[k]),
                r@ == kept(at_nodes(cand_all).take(j as int), marks(keep, true)),
            decreases cand@.len() - j,
        {
            let (x, depth) = cand[j];
            assert(cand_all[j as int] == (x, depth as nat));
            let b = handle(depth, x);
            proof {
                let ns = at_nodes(cand_all);
                let w = marks(keep, true);
                assert(ns.take(j + 1).drop_last() =~= ns.take(j as int));
                assert(ns.take(j + 1).last() == x);
                assert(marks(keep.push(b), true) =~= w.push(b == true));
                assert(w.push(b == true).take(j as int) =~= w);
                keep = keep.push(b);
            }
            if b {
                r.push(x);
            }
            j += 1;
        }
        assert(at_nodes(cand_all).take(j as int) =~= at_nodes(cand_all));
        assert(depth_answers(handle, cand_all, keep));
        Texts { nodes: r }
    }
}

proof fn lemma_among_nodes(d: &Document, cs: Seq<usize>, depth: nat, limit: nat, fuel: nat)
    ensures
        at_nodes(texts_among_at(d, cs, depth, limit, fuel)) == texts_among(d, cs, depth, limit, fuel),
    decreases fuel, cs.len(),
{
    if cs.len() > 0 {
        let c = cs.last() as int;
        lemma_among_nodes(d, cs.drop_last(), depth, limit, fuel);
        if d.kind_of(c) == NodeKind::Tag && !raw_text_tag(d, c) && depth + 1 < limit && fuel > 0 {
            lemma_among_nodes(d, d@[c].children, depth + 1, limit, (fuel - 1) as nat);
        }
        let a = texts_among_at(d, cs.drop_last(), depth, limit, fuel);
        let rest = texts_among_at(d, cs, depth, limit, fuel).skip(a.len() as int);
        assert(texts_among_at(d, cs, depth, limit, fuel) =~= a + rest);
        assert(at_nodes(a + rest) =~= at_nodes(a) + at_nodes(rest));
        assert(at_nodes(seq![(c as usize, depth)]) =~= seq![c as usize]);
        assert(at_nodes(Seq::<(usize, nat)>::empty()) =~= Seq::<usize>::empty());
    }
}

/// The text nodes found with their depths are the text nodes that `texts`
/// finds: asking `texts_by` with a function that always answers `true`
/// gives what `texts` gives.
pub proof fn law_texts_by_nodes(d: &Document, e: Seq<usize>, limit: nat)
    ensures
        at_nodes(texts_all_at(d, e, limit)) == texts_all(d, e, limit),
    decreases e.len(),
{
    if e.len() > 0 {
        law_texts_by_nodes(d, e.drop_last(), limit);
        let x = e.last() as int;
        let lim = if limit == 0 {
            usize::MAX as nat
        } else {
            limit
        };
        lemma_among_nodes(d, d@[x].children, 0, lim, d.fuel());
        let a = texts_all_at(d, e.drop_last(), limit);
        let b = texts_at(d, x, limit);
        assert(at_nodes(a + b) =~= at_nodes(a) + at_nodes(b));
        assert(at_nodes(seq![(x as usize, 0nat)]) =~= seq![x as usize]);
        assert(at_nodes(Seq::<(usize, nat)>::empty()) =~= Seq::<usize>::empty());
    }
}

/// Keeping every position keeps the whole sequence.
pub proof fn law_kept_all(s: Seq<usize>, keep: Seq<bool>)
    requires
        keep.len() == s.len(),
        forall|k: int| 0 <= k < keep.len() ==> #[trigger] keep[k],
    ensures
        kept(s, marks(keep, true)) == s,
    decreases s.len(),
{
    if s.len() > 0 {
        let n = s.len() - 1;
        law_kept_all(s.drop_last(), keep.take(n));
        assert(marks(keep, true).take(n) =~= marks(keep.take(n), true));
        assert(s.drop_last().push(s.last()) =~= s);
    } else {
        assert(s =~= Seq::<usize>::empty());
    }
}

/// What a walk with the caller's functions finds: the text nodes kept, the
/// questions put to the text function (node and depth) and those put to the
/// function that decides on going into an element (the element), in order.
pub struct WalkV {
    pub found: Seq<usize>,
    pub asked: Seq<(usize, nat)>,
    pub entered: Seq<usize>,
}

/// Two walks one after the other.
pub open spec fn walk_then(a: WalkV, b: WalkV) -> WalkV {
    WalkV { found: a.found + b.found, asked: a.asked + b.asked, entered: a.entered + b.entered }
}

/// The walk of `texts_among_at` where the text function answered `hs` and
/// the other `rs`, the answers of this walk from positions `h0` and `r0`
/// on: a text node (or an element holding raw text) is asked about and
/// kept on `true`; another element is asked about, while the next depth is
/// below `limit`, and gone into on `true`.
pub open spec fn walk_among(
    d: &Document,
    cs: Seq<usize>,
    depth: nat,
    limit: nat,
    fuel: nat,
    hs: Seq<bool>,
    rs: Seq<bool>,
    h0: int,
    r0: int,
) -> WalkV
    decreases fuel, cs.len(),
{
    if cs.len() == 0 {
        WalkV { found: Seq::empty(), asked: Seq::empty(), entered: Seq::empty() }
    } else {
        let c = cs.last();
        let w = walk_among(d, cs.drop_last(), depth, limit, fuel, hs, rs, h0, r0);
        let hi = h0 + w.asked.len();
        let ri = r0 + w.entered.len();
        let k = d.kind_of(c as int);
        if k == NodeKind::Text || k == NodeKind::Spaces || (k == NodeKind::Tag && raw_text_tag(d, c as int)) {
            WalkV {
                found: if hs[hi] {
                    w.found.push(c)
                } else {
                    w.found
                },
                asked: w.asked.push((c, depth)),
                entered: w.entered,
            }
        } else if k == NodeKind::Tag && depth + 1 < limit && fuel > 0 {
            if rs[ri] {
                let w2 = walk_among(d, d@[c as int].children, depth + 1, limit, (fuel - 1) as nat, hs, rs, hi, ri + 1);
                walk_then(WalkV { entered: w.entered.push(c), ..w }, w2)
            } else {
                WalkV { entered: w.entered.push(c), ..w }
            }
        } else {
            w
        }
    }
}

/// The walk under node `x` (see `texts_at`).
pub open spec fn walk_of(d: &Document, x: int, limit: nat, hs: Seq<bool>, rs: Seq<bool>, h0: int, r0: int) -> WalkV {
    let lim = if limit == 0 {
        usize::MAX as nat
    } else {
        limit
    };
    if d@[x].children.len() > 0 {
        walk_among(d, d@[x].children, 0, lim, d.fuel(), hs, rs, h0, r0)
    } else if raw_text_tag(d, x) {
        WalkV {
            found: if hs[h0] {
                seq![x as usize]
            } else {
                Seq::empty()
            },
            asked: seq![(x as usize, 0nat)],
            entered: Seq::empty(),
        }
    } else {
        WalkV { found: Seq::empty(), asked: Seq::empty(), entered: Seq::empty() }
    }
}

/// The walks under each node of `e`, one after the other.
pub open spec fn walk_all(d: &Document, e: Seq<usize>, limit: nat, hs: Seq<bool>, rs: Seq<bool>) -> WalkV
    decreases e.len(),
{
    if e.len() == 0 {
        WalkV { found: Seq::empty(), asked: Seq::empty(), entered: Seq::empty() }
    } else {
        let w = walk_all(d, e.drop_last(), limit, hs, rs);
        walk_then(w, walk_of(d, e.last() as int, limit, hs, rs, w.asked.len() as int, w.entered.len() as int))
    }
}

/// The answers `hs` and `rs` are ones the caller's functions may give to
/// the questions of the walk `w`, from positions `h0` and `r0` on.
pub open spec fn walk_answers<F: Fn(usize, usize) -> bool, G: Fn(usize) -> bool>(
    handle: F,
    rec: G,
    w: WalkV,
    hs: Seq<bool>,
    rs: Seq<bool>,
    h0: int,
    r0: int,
) -> bool {
    &&& forall|k: int| 0 <= k < w.asked.len() ==> call_ensures(handle, (w.asked[k].1 as usize, w.asked[k].0), #[trigger] hs[h0 + k])
    &&& forall|k: int| 0 <= k < w.entered.len() ==> call_ensures(rec, (w.entered[k],), #[trigger] rs[r0 + k])
}

/// A walk reads no answer past those of its own questions, so longer
/// answer lists give the same walk.
proof fn lemma_walk_prefix(
    d: &Document,
    cs: Seq<usize>,
    depth: nat,
    limit: nat,
    fuel: nat,
    hs: Seq<bool>,
    rs: Seq<bool>,
    hs2: Seq<bool>,
    rs2: Seq<bool>,
    h0: int,
    r0: int,
)
    requires
        0 <= h0,
        0 <= r0,
        hs.len() >= h0 + walk_among(d, cs, depth, limit, fuel, hs, rs, h0, r0).asked.len(),
        rs.len() >= r0 + walk_among(d, cs, depth, limit, fuel, hs, rs, h0, r0).entered.len(),
        hs2.take(hs.len() as int) == hs,
        rs2.take(rs.len() as int) == rs,
        hs2.len() >= hs.len(),
        rs2.len() >= rs.len(),
    ensures
        walk_among(d, cs, depth, limit, fuel, hs2, rs2, h0, r0) == walk_among(d, cs, depth, limit, fuel, hs, rs, h0, r0),
    decreases fuel, cs.len(),
{
    if cs.len() > 0 {
        let c = cs.last();
        let w = walk_among(d, cs.drop_last(), depth, limit, fuel, hs, rs, h0, r0);
        let hi = h0 + w.asked.len();
        let ri = r0 + w.entered.len();
        let k = d.kind_of(c as int);
        lemma_walk_prefix(d, cs.drop_last(), depth, limit, fuel, hs, rs, hs2, rs2, h0, r0);
        if k == NodeKind::Text || k == NodeKind::Spaces || (k == NodeKind::Tag && raw_text_tag(d, c as int)) {
            assert(hs2[hi] == hs.take(hs.len() as int)[hi]);
        } else if k == NodeKind::Tag && depth + 1 < limit && fuel > 0 {
            assert(rs2[ri] == rs.take(rs.len() as int)[ri]);
            if rs[ri] {
                lemma_walk_prefix(d, d@[c as int].children, depth + 1, limit, (fuel - 1) as nat, hs, rs, hs2, rs2, hi, ri + 1);
            }
        }
    }
}

/// See `walk_among`.
fn walk_among_exec<F: Fn(usize, usize) -> bool, G: Fn(usize) -> bool>(
    d: &Document,
    cs: &Vec<usize>,
    depth: usize,
    limit: usize,
    fuel: usize,
    handle: &F,
    rec: &G,
    Ghost(hs0): Ghost<Seq<bool>>,
    Ghost(rs0): Ghost<Seq<bool>>,
) -> (r: (Vec<usize>, Ghost<Seq<bool>>, Ghost<Seq<bool>>))
    requires
        d.wf(),
        depth < limit,
        forall|k: int| 0 <= k < cs@.len() ==> d.valid(#[trigger] cs@[k] as int),
        forall|dp: usize, x: usize| dp < limit && d.valid(x as int) ==> call_requires(*handle, (dp, x)),
        forall|x: usize| d.valid(x as int) ==> call_requires(*rec, (x,)),
    ensures
        ({
            let hs = r.1@;
            let rs = r.2@;
            let w = walk_among(d, cs@, depth as nat, limit as nat, fuel as nat, hs, rs, hs0.len() as int, rs0.len() as int);
            &&& hs.take(hs0.len() as int) == hs0
            &&& rs.take(rs0.len() as int) == rs0
            &&& hs.len() == hs0.len() + w.asked.len()
            &&& rs.len() == rs0.len() + w.entered.len()
            &&& r.0@ == w.found
            &&& walk_answers(*handle, *rec, w, hs, rs, hs0.len() as int, rs0.len() as int)
            &&& all_valid(d, r.0@)
        }),
    decreases fuel, cs@.len(),
{
    let ghost h0 = hs0.len() as int;
    let ghost r0 = rs0.len() as int;
    let ghost mut hs = hs0;
    let ghost mut rs = rs0;
    let mut found: Vec<usize> = Vec::new();
    let mut i: usize = 0;
    assert(cs@.take(0) =~= Seq::<usize>::empty());
    assert(hs.take(h0) =~= hs0);
    assert(rs.take(r0) =~= rs0);
    while i < cs.len()
        invariant
            d.wf(),
            depth < limit,
            forall|k: int| 0 <= k < cs@.len() ==> d.valid(#[trigger] cs@[k] as int),
            forall|dp: usize, x: usize| dp < limit && d.valid(x as int) ==> call_requires(*handle, (dp, x)),
            forall|x: usize| d.valid(x as int) ==> call_requires(*rec, (x,)),
            i <= cs@.len(),
            h0 == hs0.len(),
            r0 == rs0.len(),
            hs.take(h0) == hs0,
            rs.take(r0) == rs0,
            ({
                let w = walk_among(d, cs@.take(i as int), depth as nat, limit as nat, fuel as nat, hs, rs, h0, r0);
                &&& hs.len() == h0 + w.asked.len()
                &&& rs.len() == r0 + w.entered.len()
                &&& found@ == w.found
                &&& walk_answers(*handle, *rec, w, hs, rs, h0, r0)
            }),
            all_valid(d, found@),
        decreases cs.len() - i,
    {
        let c = cs[i];
        let ghost pre = cs@.take(i as int);
        let ghost cur = cs@.take(i + 1);
        assert(cur.drop_last() =~= pre);
        assert(cur.last() == c);
        assert(d.valid(cs@[i as int] as int));
        assert(d@[c as int] == d.nodes@[c as int]@);
        let ghost w = walk_among(d, pre, depth as nat, limit as nat, fuel as nat, hs, rs, h0, r0);
        let ghost hs_before = hs;
        let ghost rs_before = rs;
        let k = d.nodes[c].kind;
        let name = d.tag_names(c);
        let raw = k == NodeKind::Tag && is_content_tag(name.as_slice());
        if k == NodeKind::Text || k == NodeKind::Spaces || raw {
            let b = handle(depth, c);
            proof {
                hs = hs.push(b);
                assert(hs.take(hs_before.len() as int) =~= hs_before);
                assert(rs.take(rs.len() as int) =~= rs);
                lemma_walk_prefix(d, pre, depth as nat, limit as nat, fuel as nat, hs_before, rs, hs, rs, h0, r0);
                assert(hs.take(h0) =~= hs0) by {
                    assert(hs_before.take(h0) == hs0);
                }
            }
            if b {
                found.push(c);
            }
            proof {
                let w2 = walk_among(d, cur, depth as nat, limit as nat, fuel as nat, hs, rs, h0, r0);
                assert(hs[h0 + w.asked.len()] == b);
                assert(w2.asked == w.asked.push((c, depth as nat)));
                assert forall|j: int| 0 <= j < w2.asked.len() implies call_ensures(
                    *handle,
                    (w2.asked[j].1 as usize, w2.asked[j].0),
                    #[trigger] hs[h0 + j],
                ) by {
                    if j < w.asked.len() {
                        assert(hs[h0 + j] == hs_before[h0 + j]);
                    }
                }
            }
        } else if k == NodeKind::Tag && depth < limit - 1 && fuel > 0 {
            let go = rec(c);
            proof {
                rs = rs.push(go);
                assert(rs.take(rs_before.len() as int) =~= rs_before);
                assert(hs.take(hs.len() as int) =~= hs);
                lemma_walk_prefix(d, pre, depth as nat, limit as nat, fuel as nat, hs, rs_before, hs, rs, h0, r0);
                assert(rs.take(r0) =~= rs0) by {
                    assert(rs_before.take(r0) == rs0);
                }
                assert(rs[r0 + w.entered.len()] == go);
            }
            if go {
                let kids = crate::elements::copy_ids(&d.nodes[c].children);
                assert forall|j: int| 0 <= j < kids@.len() implies d.valid(#[trigger] kids@[j] as int) by {
                    assert(d.nodes@[c as int].children@[j] == kids@[j]);
                }
                let ghost hs_mid = hs;
                let ghost rs_mid = rs;
                let (mut more, Ghost(hs2), Ghost(rs2)) = walk_among_exec(
                    d,
                    &kids,
                    depth + 1,
                    limit,
                    fuel - 1,
                    handle,
                    rec,
                    Ghost(hs),
                    Ghost(rs),
                );
                proof {
                    hs = hs2;
                    rs = rs2;
                    lemma_walk_prefix(d, pre, depth as nat, limit as nat, fuel as nat, hs_mid, rs_mid, hs, rs, h0, r0);
                    assert(hs.take(h0) =~= hs0) by {
                        assert(hs.take(hs_mid.len() as int).take(h0) =~= hs.take(h0));
                        assert(hs_mid.take(h0) == hs0);
                    }
                    assert(rs.take(r0) =~= rs0) by {
                        assert(rs.take(rs_mid.len() as int).take(r0) =~= rs.take(r0));
                        assert(rs_mid.take(r0) == rs0);
                    }
                    assert(rs[r0 + w.entered.len()] == rs.take(rs_mid.len() as int)[r0 + w.entered.len()]);
                }
                let ghost mv = more@;
                found.append(&mut more);
                proof {
                    let w2 = walk_among(d, cur, depth as nat, limit as nat, fuel as nat, hs, rs, h0, r0);
                    let wk = walk_among(
                        d,
                        d@[c as int].children,
                        depth as nat + 1,
                        limit as nat,
                        (fuel - 1) as nat,
                        hs,
                        rs,
                        hs_mid.len() as int,
                        rs_mid.len() as int,
                    );
                    assert(kids@ == d@[c as int].children);
                    assert(w2 == walk_then(WalkV { entered: w.entered.push(c), ..w }, wk));
                    assert(found@ =~= w2.found);
                    assert forall|j: int| 0 <= j < w2.asked.len() implies call_ensures(
                        *handle,
                        (w2.asked[j].1 as usize, w2.asked[j].0),
                        #[trigger] hs[h0 + j],
                    ) by {
                        if j < w.asked.len() {
                            assert(hs[h0 + j] == hs.take(hs_mid.len() as int)[h0 + j]);
                        } else {
                            let t = j - w.asked.len();
                            assert(w2.asked[j] == wk.asked[t]);
                            assert(hs_mid.len() + t == h0 + j);
                        }
                    }
                    assert forall|j: int| 0 <= j < w2.entered.len() implies call_ensures(
                        *rec,
                        (w2.entered[j],),
                        #[trigger] rs[r0 + j],
                    ) by {
                        if j < w.entered.len() {
                            assert(rs[r0 + j] == rs.take(rs_mid.len() as int)[r0 + j]);
                            assert(rs_mid[r0 + j] == rs_before[r0 + j]);
                        } else if j == w.entered.len() {
                        } else {
                            let t = j - w.entered.len() - 1;
                            assert(w2.entered[j] == wk.entered[t]);
                            assert(rs_mid.len() + t == r0 + j);
                        }
                    }
                }
            } else {
                proof {
                    let w2 = walk_among(d, cur, depth as nat, limit as nat, fuel as nat, hs, rs, h0, r0);
                    assert(w2 == WalkV { entered: w.entered.push(c), ..w });
                    assert forall|j: int| 0 <= j < w2.entered.len() implies call_ensures(
                        *rec,
                        (w2.entered[j],),
                        #[trigger] rs[r0 + j],
                    ) by {
                        if j < w.entered.len() {
                            assert(rs[r0 + j] == rs_before[r0 + j]);
                        }
                    }
                }
            }
        } else {
            proof {
                let w2 = walk_among(d, cur, depth as nat, limit as nat, fuel as nat, hs, rs, h0, r0);
                assert(w2 == w);
            }
        }
        i += 1;
    }
    assert(cs@.take(i as int) =~= cs@);
    (found, Ghost(hs), Ghost(rs))
}

proof fn lemma_walk_of_prefix(
    d: &Document,
    x: int,
    limit: nat,
    hs: Seq<bool>,
    rs: Seq<bool>,
    hs2: Seq<bool>,
    rs2: Seq<bool>,
    h0: int,
    r0: int,
)
    requires
        0 <= h0,
        0 <= r0,
        hs.len() >= h0 + walk_of(d, x, limit, hs, rs, h0, r0).asked.len(),
        rs.len() >= r0 + walk_of(d, x, limit, hs, rs, h0, r0).entered.len(),
        hs2.take(hs.len() as int) == hs,
        rs2.take(rs.len() as int) == rs,
        hs2.len() >= hs.len(),
        rs2.len() >= rs.len(),
    ensures
        walk_of(d, x, limit, hs2, rs2, h0, r0) == walk_of(d, x, limit, hs, rs, h0, r0),
{
    let lim = if limit == 0 {
        usize::MAX as nat
    } else {
        limit
    };
    if d@[x].children.len() > 0 {
        lemma_walk_prefix(d, d@[x].children, 0, lim, d.fuel(), hs, rs, hs2, rs2, h0, r0);
    } else if raw_text_tag(d, x) {
        assert(hs2[h0] == hs.take(hs.len() as int)[h0]);
    }
}

proof fn lemma_walk_all_prefix(
    d: &Document,
    e: Seq<usize>,
    limit: nat,
    hs: Seq<bool>,
    rs: Seq<bool>,
    hs2: Seq<bool>,
    rs2: Seq<bool>,
)
    requires
        hs.len() >= walk_all(d, e, limit, hs, rs).asked.len(),
        rs.len() >= walk_all(d, e, limit, hs, rs).entered.len(),
        hs2.take(hs.len() as int) == hs,
        rs2.take(rs.len() as int) == rs,
        hs2.len() >= hs.len(),
        rs2.len() >= rs.len(),
    ensures
        walk_all(d, e, limit, hs2, rs2) == walk_all(d, e, limit, hs, rs),
    decreases e.len(),
{
    if e.len() > 0 {
        let w = walk_all(d, e.drop_last(), limit, hs, rs);
        lemma_walk_all_prefix(d, e.drop_last(), limit, hs, rs, hs2, rs2);
        lemma_walk_of_prefix(d, e.last() as int, limit, hs, rs, hs2, rs2, w.asked.len() as int, w.entered.len() as int);
    }
}

impl Elements {
    /// The text nodes of the elements found by a walk that asks `handle`
    /// about each text node (with its depth) and keeps those it answers
    /// `true` for, and asks `rec_handle` about each element it could go
    /// into and goes in only on `true` (see `walk_all`).
    pub fn texts_by_rec<F: Fn(usize, usize) -> bool, G: Fn(usize) -> bool>(
        &self,
        d: &Document,
        limit_depth: usize,
        handle: F,
        rec_handle: G,
    ) -> (r: Texts)
        requires
            d.wf(),
            all_valid(d, self@),
            forall|dp: usize, x: usize| d.valid(x as int) ==> call_requires(handle, (dp, x)),
            forall|x: usize| d.valid(x as int) ==> call_requires(rec_handle, (x,)),
        ensures
            exists|hs: Seq<bool>, rs: Seq<bool>|
                #[trigger] walk_answers(handle, rec_handle, walk_all(d, self@, limit_depth as nat, hs, rs), hs, rs, 0, 0)
                    && r@ == walk_all(d, self@, limit_depth as nat, hs, rs).found,
    {
        let ghost mut hs: Seq<bool> = Seq::empty();
        let ghost mut rs: Seq<bool> = Seq::empty();
        let lim = if limit_depth == 0 {
            usize::MAX
        } else {
            limit_depth
        };
        let mut found: Vec<usize> = Vec::new();
        let mut i: usize = 0;
        assert(self@.take(0) =~= Seq::<usize>::empty());
        while i < self.nodes.len()
            invariant
                d.wf(),
                all_valid(d, self@),
                lim >= 1,
                lim == (if limit_depth == 0 {
                    usize::MAX
                } else {
                    limit_depth
                }),
                forall|dp: usize, x: usize| d.valid(x as int) ==> call_requires(handle, (dp, x)),
                forall|x: usize| d.valid(x as int) ==> call_requires(rec_handle, (x,)),
                i <= self@.len(),
                ({
                    let w = walk_all(d, self@.take(i as int), limit_depth as nat, hs, rs);
                    &&& hs.len() == w.asked.len()
                    &&& rs.len() == w.entered.len()
                    &&& found@ == w.found
                    &&& walk_answers(handle, rec_handle, w, hs, rs, 0, 0)
                }),
            decreases self.nodes.len() - i,
        {
            let x = self.nodes[i];
            let ghost pre = self@.take(i as int);
            let ghost cur = self@.take(i + 1);
            assert(cur.drop_last() =~= pre);
            assert(cur.last() == x);
            assert(d.valid(self@[i as int] as int));
            assert(d@[x as int] == d.nodes@[x as int]@);
            let ghost w = walk_all(d, pre, limit_depth as nat, hs, rs);
            let ghost hs_before = hs;
            let ghost rs_before = rs;
            if d.nodes[x].children.len() > 0 {
                let kids = crate::elements::copy_ids(&d.nodes[x].children);
                assert forall|j: int| 0 <= j < kids@.len() implies d.valid(#[trigger] kids@[j] as int) by {
                    assert(d.nodes@[x as int].children@[j] == kids@[j]);
                }
                let (mut more, Ghost(hs2), Ghost(rs2)) = walk_among_exec(
                    d,
                    &kids,
                    0,
                    lim,
                    d.nodes.len(),
                    &handle,
                    &rec_handle,
                    Ghost(hs),
                    Ghost(rs),
                );
                proof {
                    hs = hs2;
                    rs = rs2;
                    lemma_walk_all_prefix(d, pre, limit_depth as nat, hs_before, rs_before, hs, rs);
                }
                let ghost mv = more@;
                found.append(&mut more);
                proof {
                    let wx = walk_of(d, x as int, limit_depth as nat, hs, rs, hs_before.len() as int, rs_before.len() as int);
                    let w2 = walk_all(d, cur, limit_depth as nat, hs, rs);
                    assert(kids@ == d@[x as int].children);
                    assert(w2 == walk_then(w, wx));
                    assert(found@ =~= w2.found);
                    assert forall|j: int| 0 <= j < w2.asked.len() implies call_ensures(
                        handle,
                        (w2.asked[j].1 as usize, w2.asked[j].0),
                        #[trigger] hs[0 + j],
                    ) by {
                        if j < w.asked.len() {
                            assert(hs[j] == hs.take(hs_before.len() as int)[j]);
                        } else {
                            let t = j - w.asked.len();
                            assert(w2.asked[j] == wx.asked[t]);
                            assert(hs_before.len() + t == j);
                        }
                    }
                    assert forall|j: int| 0 <= j < w2.entered.len() implies call_ensures(
                        rec_handle,
                        (w2.entered[j],),
                        #[trigger] rs[0 + j],
                    ) by {
                        if j < w.entered.len() {
                            assert(rs[j] == rs.take(rs_before.len() as int)[j]);
                        } else {
                            let t = j - w.entered.len();
                            assert(w2.entered[j] == wx.entered[t]);
                            assert(rs_before.len() + t == j);
                        }
                    }
                }
            } else {
                let name = d.tag_names(x);
                if is_content_tag(name.as_slice()) {
                    let b = handle(0, x);
                    proof {
                        hs = hs.push(b);
                        assert(hs.take(hs_before.len() as int) =~= hs_before);
                        assert(rs.take(rs.len() as int) =~= rs);
                        lemma_walk_all_prefix(d, pre, limit_depth as nat, hs_before, rs, hs, rs);
                    }
                    if b {
                        found.push(x);
                    }
                    proof {
                        let w2 = walk_all(d, cur, limit_depth as nat, hs, rs);
                        assert(hs[hs_before.len() as int] == b);
                        assert(found@ =~= w2.found);
                        assert forall|j: int| 0 <= j < w2.asked.len() implies call_ensures(
                            handle,
                            (w2.asked[j].1 as usize, w2.asked[j].0),
                            #[trigger] hs[0 + j],
                        ) by {
                            if j < w.asked.len() {
                                assert(hs[j] == hs_before[j]);
                            }
                        }
                        assert(rs.len() == w2.entered.len());
                    }
                } else {
                    proof {
                        let w2 = walk_all(d, cur, limit_depth as nat, hs, rs);
                        assert(w2.found =~= w.found);
                        assert(w2.asked =~= w.asked);
                        assert(w2.entered =~= w.entered);
                    }
                }
            }
            i += 1;
        }
        assert(self@.take(i as int) =~= self@);
        assert(walk_answers(handle, rec_handle, walk_all(d, self@, limit_depth as nat, hs, rs), hs, rs, 0, 0));
        Texts { nodes: found }
    }
}

} // verus!
