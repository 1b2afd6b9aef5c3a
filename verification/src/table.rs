//! The replicated table's merge discipline. A replica inserts a row by
//! merging it into what it already holds, so inserts are idempotent and
//! retries are safe; a read merges every row the replicas returned, and by
//! the merge laws the result does not depend on the order the replies came
//! back in.

use vstd::prelude::*;
use crate::crdt::CRDT;
use crate::crdt::merge_all;
use crate::crdt::lemma_merge_all_permutation;

verus! {

/// A replica's insert: merge the incoming row into the stored one, or store
/// it as the first copy. Inserting the same row again changes nothing, by
/// the merge's idempotence, so a timed-out insert may simply be retried.
pub fn insert_row<E: CRDT>(stored: Option<E>, incoming: E) -> (r: E)
    requires
        stored matches Some(s) ==> E::inv(s.deep_view()),
        E::inv(incoming.deep_view()),
    ensures
        stored matches Some(s) ==> r.deep_view() == E::merged(s.deep_view(), incoming.deep_view()),
        stored is None ==> r.deep_view() == incoming.deep_view(),
        E::inv(r.deep_view()),
{
    match stored {
        Some(mut s) => {
            let ghost sm = s.deep_view();
            s.merge(&incoming);
            proof {
                E::lemma_merged_inv(sm, incoming.deep_view());
            }
            s
        },
        None => incoming,
    }
}

/// A read's merge: fold every row the replicas returned into the first one.
/// `None` when no replica holds the row.
pub fn merge_received_rows<E: CRDT>(mut rows: Vec<E>) -> (r: Option<E>)
    requires
        forall|i: int| 0 <= i < rows.deep_view().len() ==> E::inv(#[trigger] rows.deep_view()[i]),
    ensures
        rows.deep_view().len() == 0 ==> r is None,
        rows.deep_view().len() > 0 ==> (r matches Some(e) && e.deep_view() == merge_all::<E>(
            rows.deep_view()[0],
            rows.deep_view().skip(1),
        )),
{
    let ghost all = rows.deep_view();
    if rows.len() == 0 {
        return None;
    }
    let mut acc = rows.remove(0);
    proof {
        assert(acc.deep_view() == all[0]);
        assert(rows.deep_view() =~= all.skip(1));
        assert(all.skip(1).take(0) =~= Seq::<E::V>::empty());
    }
    let mut i: usize = 0;
    while i < rows.len()
        invariant
            i <= rows.deep_view().len(),
            rows.deep_view() == all.skip(1),
            all.len() == 1 + rows.deep_view().len(),
            forall|j: int| 0 <= j < all.len() ==> E::inv(#[trigger] all[j]),
            acc.deep_view() == merge_all::<E>(all[0], all.skip(1).take(i as int)),
            E::inv(acc.deep_view()),
        decreases rows.deep_view().len() - i,
    {
        proof {
            assert(E::inv(rows.deep_view()[i as int])) by {
                assert(rows.deep_view()[i as int] == all[i + 1]);
            }
        }
        acc.merge(&rows[i]);
        proof {
            let pre = all.skip(1).take(i as int);
            let post = all.skip(1).take(i as int + 1);
            assert(post.drop_last() =~= pre);
            assert(post.last() == all.skip(1)[i as int]);
            assert(acc.deep_view() == merge_all::<E>(all[0], post));
            E::lemma_merged_inv(merge_all::<E>(all[0], pre), all.skip(1)[i as int]);
        }
        i = i + 1;
    }
    proof {
        assert(all.skip(1).take(i as int) =~= all.skip(1));
    }
    Some(acc)
}

/// Replies in any order converge to one row: merging the same collection of
/// replica rows, received in any two orders, gives the same row.
pub proof fn lemma_received_order_irrelevant<E: CRDT>(first: E::V, s1: Seq<E::V>, s2: Seq<E::V>)
    requires
        s1.to_multiset() == s2.to_multiset(),
    ensures
        merge_all::<E>(first, s1) == merge_all::<E>(first, s2),
{
    lemma_merge_all_permutation::<E>(first, s1, s2);
}

} // verus!
