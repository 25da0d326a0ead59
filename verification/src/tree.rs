//! Positions in a tree, written as the list of child indexes from the root:
//! how two positions relate and in what order they come.
use std::cmp::Ordering;
use std::collections::VecDeque;
use vstd::prelude::*;

verus! {

/// How the node at one position relates to the node at another.
#[derive(PartialEq, Eq, Structural, Clone, Copy, Debug)]
pub enum ElementRelation {
    /// the first is an ancestor of the second
    Ancestor,
    /// the same position
    Equal,
    /// the first is a descendant of the second
    Descendant,
    /// neither contains the other
    Feauture,
}

/// The relation of position `a` to position `b`.
pub open spec fn spec_relation(a: Seq<usize>, b: Seq<usize>) -> ElementRelation {
    if a == b {
        ElementRelation::Equal
    } else if a.len() < b.len() && a == b.take(a.len() as int) {
        ElementRelation::Ancestor
    } else if b.len() < a.len() && b == a.take(b.len() as int) {
        ElementRelation::Descendant
    } else {
        ElementRelation::Feauture
    }
}

/// Positions in document order: the first index that differs decides, and
/// a position comes before the positions below it.
pub open spec fn index_order(a: Seq<usize>, b: Seq<usize>) -> Ordering
    decreases a.len(),
{
    if a.len() == 0 || b.len() == 0 {
        if a.len() < b.len() {
            Ordering::Less
        } else if a.len() == b.len() {
            Ordering::Equal
        } else {
            Ordering::Greater
        }
    } else if a[0] < b[0] {
        Ordering::Less
    } else if a[0] > b[0] {
        Ordering::Greater
    } else {
        index_order(a.drop_first(), b.drop_first())
    }
}

/// `a` comes strictly before `b`.
pub open spec fn index_before(a: Seq<usize>, b: Seq<usize>) -> bool {
    index_order(a, b) == Ordering::Less
}

/// How the node at position `a` relates to the node at position `b`.
pub fn relation_of(a: &VecDeque<usize>, b: &VecDeque<usize>) -> (r: ElementRelation)
    ensures
        r == spec_relation(a@, b@),
{
    let a_total = a.len();
    let b_total = b.len();
    let loop_total = if a_total > b_total {
        b_total
    } else {
        a_total
    };
    let mut equal_num: usize = 0;
    while equal_num < loop_total
        invariant
            loop_total <= a@.len(),
            loop_total <= b@.len(),
            a_total == a@.len(),
            b_total == b@.len(),
            loop_total == a_total || loop_total == b_total,
            equal_num <= loop_total,
            a@.take(equal_num as int) == b@.take(equal_num as int),
        ensures
            equal_num <= loop_total,
            a@.take(equal_num as int) == b@.take(equal_num as int),
            equal_num < loop_total ==> a@[equal_num as int] != b@[equal_num as int],
        decreases loop_total - equal_num,
    {
        if a[equal_num] != b[equal_num] {
            break;
        }
        assert(a@.take(equal_num + 1) =~= a@.take(equal_num as int).push(a@[equal_num as int]));
        assert(b@.take(equal_num + 1) =~= b@.take(equal_num as int).push(b@[equal_num as int]));
        equal_num += 1;
    }
    let a_left = a_total - equal_num;
    let b_left = b_total - equal_num;
    proof {
        if a_left == 0 && b_left == 0 {
            assert(a@ =~= a@.take(equal_num as int));
            assert(b@ =~= b@.take(equal_num as int));
        } else if a_left == 0 {
            assert(a@ =~= a@.take(equal_num as int));
            assert(a@ != b@);
        } else if b_left == 0 {
            assert(b@ =~= b@.take(equal_num as int));
            assert(a@ != b@);
        } else {
            // they differ at `equal_num`
            assert(a@[equal_num as int] != b@[equal_num as int]);
            assert(a@ != b@) by {
                if a@ == b@ {
                    assert(a@[equal_num as int] == b@[equal_num as int]);
                }
            }
            if a@.len() < b@.len() && a@ == b@.take(a@.len() as int) {
                assert(a@[equal_num as int] == b@.take(a@.len() as int)[equal_num as int]);
            }
            if b@.len() < a@.len() && b@ == a@.take(b@.len() as int) {
                assert(b@[equal_num as int] == a@.take(b@.len() as int)[equal_num as int]);
            }
        }
    }
    if a_left == 0 {
        if b_left == 0 {
            ElementRelation::Equal
        } else {
            ElementRelation::Ancestor
        }
    } else if b_left == 0 {
        ElementRelation::Descendant
    } else {
        ElementRelation::Feauture
    }
}

/// The sign of the document order of two positions: -1 before, 0 same, 1
/// after (see `index_order`).
pub open spec fn index_sign(a: Seq<usize>, b: Seq<usize>) -> int
    decreases a.len(),
{
    if a.len() == 0 || b.len() == 0 {
        if a.len() < b.len() {
            -1
        } else if a.len() == b.len() {
            0
        } else {
            1
        }
    } else if a[0] < b[0] {
        -1
    } else if a[0] > b[0] {
        1
    } else {
        index_sign(a.drop_first(), b.drop_first())
    }
}

fn compare_sign(a: &VecDeque<usize>, b: &VecDeque<usize>) -> (r: i8)
    ensures
        r as int == index_sign(a@, b@),
{
    let a_total = a.len();
    let b_total = b.len();
    let loop_total = if a_total > b_total {
        b_total
    } else {
        a_total
    };
    let mut i: usize = 0;
    assert(a@.skip(0) =~= a@ && b@.skip(0) =~= b@);
    while i < loop_total
        invariant
            loop_total <= a@.len(),
            loop_total <= b@.len(),
            a_total == a@.len(),
            b_total == b@.len(),
            loop_total == a_total || loop_total == b_total,
            i <= loop_total,
            index_sign(a@, b@) == index_sign(a@.skip(i as int), b@.skip(i as int)),
        decreases loop_total - i,
    {
        let x = a[i];
        let y = b[i];
        assert(a@.skip(i as int)[0] == x && b@.skip(i as int)[0] == y);
        if x < y {
            return -1;
        }
        if x > y {
            return 1;
        }
        assert(a@.skip(i as int).drop_first() =~= a@.skip(i + 1));
        assert(b@.skip(i as int).drop_first() =~= b@.skip(i + 1));
        i += 1;
    }
    if a_total < b_total {
        -1
    } else if a_total == b_total {
        0
    } else {
        1
    }
}

proof fn lemma_sign_order(a: Seq<usize>, b: Seq<usize>)
    ensures
        index_order(a, b) == (if index_sign(a, b) < 0 {
            Ordering::Less
        } else if index_sign(a, b) == 0 {
            Ordering::Equal
        } else {
            Ordering::Greater
        }),
        -1 <= index_sign(a, b) <= 1,
    decreases a.len(),
{
    if a.len() > 0 && b.len() > 0 && a[0] == b[0] {
        lemma_sign_order(a.drop_first(), b.drop_first());
    }
}

/// The order of two positions (see `index_order`).
pub fn compare_indexs(a: &VecDeque<usize>, b: &VecDeque<usize>) -> (r: Ordering)
    ensures
        r == index_order(a@, b@),
{
    let s = compare_sign(a, b);
    proof {
        lemma_sign_order(a@, b@);
    }
    if s < 0 {
        Ordering::Less
    } else if s == 0 {
        Ordering::Equal
    } else {
        Ordering::Greater
    }
}

/// Two positions are in the same order whichever is named first, reversed.
pub proof fn lemma_index_order_flip(a: Seq<usize>, b: Seq<usize>)
    ensures
        index_order(a, b) == Ordering::Less <==> index_order(b, a) == Ordering::Greater,
        index_order(a, b) == Ordering::Equal <==> index_order(b, a) == Ordering::Equal,
    decreases a.len(),
{
    if a.len() > 0 && b.len() > 0 && a[0] == b[0] {
        lemma_index_order_flip(a.drop_first(), b.drop_first());
    }
}

/// Only equal positions are in equal order.
pub proof fn lemma_index_order_equal(a: Seq<usize>, b: Seq<usize>)
    ensures
        index_order(a, b) == Ordering::Equal <==> a == b,
    decreases a.len(),
{
    if a.len() == 0 || b.len() == 0 {
        if a.len() == b.len() {
            assert(a =~= b);
        }
    } else if a[0] == b[0] {
        lemma_index_order_equal(a.drop_first(), b.drop_first());
        if a.drop_first() == b.drop_first() {
            assert(a =~= seq![a[0]] + a.drop_first());
            assert(b =~= seq![b[0]] + b.drop_first());
        }
        if a == b {
            assert(a.drop_first() =~= b.drop_first());
        }
    } else {
        assert(a != b);
    }
}

/// Of two different positions exactly one comes first.
pub proof fn lemma_before_total(a: Seq<usize>, b: Seq<usize>)
    ensures
        !index_before(a, b) && !index_before(b, a) ==> a == b,
        index_before(a, b) ==> !index_before(b, a),
{
    lemma_index_order_flip(a, b);
    lemma_index_order_equal(a, b);
}

/// Document order is transitive.
pub proof fn lemma_index_order_trans(a: Seq<usize>, b: Seq<usize>, c: Seq<usize>)
    requires
        index_before(a, b),
        index_before(b, c),
    ensures
        index_before(a, c),
    decreases a.len(),
{
    if a.len() > 0 && b.len() > 0 && c.len() > 0 && a[0] == b[0] && b[0] == c[0] {
        lemma_index_order_trans(a.drop_first(), b.drop_first(), c.drop_first());
    }
}


/// Position `a` comes strictly before position `b` in document order.
pub fn is_before(a: &VecDeque<usize>, b: &VecDeque<usize>) -> (r: bool)
    ensures
        r == index_before(a@, b@),
{
    let s = compare_sign(a, b);
    proof {
        lemma_sign_order(a@, b@);
    }
    s < 0
}

} // verus!
