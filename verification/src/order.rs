//! A total order on integer sequences, used as the universal sort key: every
//! key a merge list is sorted by (bucket names, timestamps paired with
//! identifiers, block offsets) is encoded as a `Seq<int>` and compared
//! lexicographically.

use vstd::prelude::*;

verus! {

/// Strict lexicographic order on integer sequences: a proper prefix comes
/// first, otherwise the first differing position decides.
pub open spec fn key_lt(a: Seq<int>, b: Seq<int>) -> bool
    decreases a.len(),
{
    if a.len() == 0 {
        b.len() > 0
    } else if b.len() == 0 {
        false
    } else if a[0] < b[0] {
        true
    } else if a[0] > b[0] {
        false
    } else {
        key_lt(a.drop_first(), b.drop_first())
    }
}

/// Exactly one of `key_lt(a, b)`, `a == b`, `key_lt(b, a)` holds.
pub proof fn lemma_key_lt_trichotomy(a: Seq<int>, b: Seq<int>)
    ensures
        key_lt(a, b) || key_lt(b, a) || a == b,
        key_lt(a, b) ==> !key_lt(b, a) && a != b,
        key_lt(b, a) ==> !key_lt(a, b) && a != b,
    decreases a.len(),
{
    if a.len() == 0 || b.len() == 0 {
        if a.len() == 0 && b.len() == 0 {
            assert(a =~= b);
        }
    } else if a[0] == b[0] {
        lemma_key_lt_trichotomy(a.drop_first(), b.drop_first());
        if a.drop_first() == b.drop_first() {
            assert forall|i: int| 0 <= i < a.len() implies a[i] == b[i] by {
                if i > 0 {
                    assert(a[i] == a.drop_first()[i - 1]);
                    assert(b[i] == b.drop_first()[i - 1]);
                }
            }
            assert(a =~= b);
        }
        if a == b {
            assert(a.drop_first() == b.drop_first());
        }
    }
}

/// `key_lt` is transitive.
pub proof fn lemma_key_lt_trans(a: Seq<int>, b: Seq<int>, c: Seq<int>)
    requires
        key_lt(a, b),
        key_lt(b, c),
    ensures
        key_lt(a, c),
    decreases a.len(),
{
    if a.len() > 0 && b.len() > 0 && c.len() > 0 && a[0] == b[0] && b[0] == c[0] {
        lemma_key_lt_trans(a.drop_first(), b.drop_first(), c.drop_first());
    }
}

/// Singleton sequences compare as their elements.
pub proof fn lemma_key_lt_single(x: int, y: int)
    ensures
        key_lt(seq![x], seq![y]) == (x < y),
{
    assert(seq![x].len() == 1 && seq![y].len() == 1);
    assert(seq![x][0] == x && seq![y][0] == y);
    if x == y {
        assert(seq![x].drop_first() =~= Seq::<int>::empty());
        assert(seq![y].drop_first() =~= Seq::<int>::empty());
        assert(!key_lt(Seq::<int>::empty(), Seq::<int>::empty()));
    }
}

/// Comparing concatenations whose first parts have one length: the first
/// parts decide, unless they are equal, in which case the tails decide.
pub proof fn lemma_key_lt_concat(p1: Seq<int>, p2: Seq<int>, t1: Seq<int>, t2: Seq<int>)
    requires
        p1.len() == p2.len(),
    ensures
        p1 == p2 ==> key_lt(p1 + t1, p2 + t2) == key_lt(t1, t2),
        p1 != p2 ==> key_lt(p1 + t1, p2 + t2) == key_lt(p1, p2),
    decreases p1.len(),
{
    if p1.len() == 0 {
        assert(p1 =~= p2);
        assert(p1 + t1 =~= t1);
        assert(p2 + t2 =~= t2);
    } else {
        assert((p1 + t1)[0] == p1[0]);
        assert((p2 + t2)[0] == p2[0]);
        assert((p1 + t1).len() > 0 && (p2 + t2).len() > 0);
        if p1[0] == p2[0] {
            assert((p1 + t1).drop_first() =~= p1.drop_first() + t1);
            assert((p2 + t2).drop_first() =~= p2.drop_first() + t2);
            lemma_key_lt_concat(p1.drop_first(), p2.drop_first(), t1, t2);
            if p1.drop_first() == p2.drop_first() {
                assert forall|i: int| 0 <= i < p1.len() implies p1[i] == p2[i] by {
                    if i > 0 {
                        assert(p1[i] == p1.drop_first()[i - 1]);
                        assert(p2[i] == p2.drop_first()[i - 1]);
                    }
                }
                assert(p1 =~= p2);
            }
            if p1 == p2 {
                assert(p1.drop_first() == p2.drop_first());
            }
        } else {
            assert(p1 != p2) by {
                if p1 == p2 {
                    assert(p1[0] == p2[0]);
                }
            }
        }
    }
}

} // verus!
