//! Sorted association lists merged key by key: the shape shared by the
//! last-writer-wins map, an object's version list and a version's block list.
//! Entries carry a totally ordered key; merging two sorted lists keeps every
//! key of either side and combines the entries that collide. The merge is
//! proved commutative and associative by showing that a sorted, duplicate-free
//! list is determined by the finite map it denotes, and that the merge of the
//! maps is a pointwise join.

use vstd::prelude::*;
use crate::order::key_lt;
use crate::order::lemma_key_lt_trichotomy;
use crate::order::lemma_key_lt_trans;

verus! {

/// An entry model of a merge list: a sort key, an entry-level invariant, and
/// the join applied when two entries carry the same key.
pub trait MergeModel: Sized {
    /// The sort key, encoded as an integer sequence compared lexicographically.
    spec fn mkey(self) -> Seq<int>;

    /// Internal consistency of one entry.
    spec fn einv(self) -> bool;

    /// The join of two entries with the same key.
    spec fn combined(self, other: Self) -> Self;

    proof fn lemma_combined_comm(a: Self, b: Self)
        requires
            a.mkey() == b.mkey(),
        ensures
            a.combined(b) == b.combined(a),
    ;

    proof fn lemma_combined_assoc(a: Self, b: Self, c: Self)
        requires
            a.mkey() == b.mkey(),
            b.mkey() == c.mkey(),
        ensures
            a.combined(b).combined(c) == a.combined(b.combined(c)),
    ;

    proof fn lemma_combined_idem(a: Self)
        requires
            a.einv(),
        ensures
            a.combined(a) == a,
    ;

    proof fn lemma_combined_props(a: Self, b: Self)
        requires
            a.mkey() == b.mkey(),
        ensures
            a.combined(b).mkey() == a.mkey(),
            a.einv() && b.einv() ==> a.combined(b).einv(),
    ;
}

/// Keys strictly ascend: sorted, and no key occurs twice.
pub open spec fn sorted_unique<E: MergeModel>(s: Seq<E>) -> bool {
    forall|i: int, j: int| 0 <= i < j < s.len() ==> key_lt(#[trigger] s[i].mkey(), #[trigger] s[j].mkey())
}

/// Every entry satisfies its invariant.
pub open spec fn entries_inv<E: MergeModel>(s: Seq<E>) -> bool {
    forall|i: int| 0 <= i < s.len() ==> (#[trigger] s[i]).einv()
}

/// A well-formed merge list.
pub open spec fn list_inv<E: MergeModel>(s: Seq<E>) -> bool {
    sorted_unique(s) && entries_inv(s)
}

/// Some entry of `s` carries the key `k`.
pub open spec fn has_key<E: MergeModel>(s: Seq<E>, k: Seq<int>) -> bool {
    exists|i: int| 0 <= i < s.len() && (#[trigger] s[i]).mkey() == k
}

/// The merge of two sorted lists: a two-pointer walk that keeps every key of
/// either side in order and joins the entries whose keys collide.
pub open spec fn smerge<E: MergeModel>(a: Seq<E>, b: Seq<E>) -> Seq<E>
    decreases a.len() + b.len(),
{
    if a.len() == 0 {
        b
    } else if b.len() == 0 {
        a
    } else if key_lt(a[0].mkey(), b[0].mkey()) {
        seq![a[0]] + smerge(a.drop_first(), b)
    } else if key_lt(b[0].mkey(), a[0].mkey()) {
        seq![b[0]] + smerge(a, b.drop_first())
    } else {
        seq![a[0].combined(b[0])] + smerge(a.drop_first(), b.drop_first())
    }
}

/// The finite map a list denotes, from key to entry. On a sorted,
/// duplicate-free list this is the obvious reading; the head wins if a key
/// were ever repeated.
pub open spec fn kmap<E: MergeModel>(s: Seq<E>) -> Map<Seq<int>, E>
    decreases s.len(),
{
    if s.len() == 0 {
        Map::empty()
    } else {
        kmap(s.drop_first()).insert(s[0].mkey(), s[0])
    }
}

/// Every value of the map sits under its own key.
pub open spec fn map_keyed<E: MergeModel>(m: Map<Seq<int>, E>) -> bool {
    forall|k: Seq<int>| m.dom().contains(k) ==> (#[trigger] m[k]).mkey() == k
}

/// Pointwise join of two maps: the union of the domains, entries under a
/// shared key combined.
pub open spec fn mcombine<E: MergeModel>(m1: Map<Seq<int>, E>, m2: Map<Seq<int>, E>) -> Map<
    Seq<int>,
    E,
> {
    Map::new(
        |k: Seq<int>| m1.dom().contains(k) || m2.dom().contains(k),
        |k: Seq<int>|
            if m1.dom().contains(k) && m2.dom().contains(k) {
                m1[k].combined(m2[k])
            } else if m1.dom().contains(k) {
                m1[k]
            } else {
                m2[k]
            },
    )
}

/// What `kmap` denotes: its domain is the key set, its values are entries of
/// the list, and on a sorted list the head is the minimum and indexes back to
/// itself.
pub proof fn lemma_kmap_props<E: MergeModel>(s: Seq<E>)
    ensures
        map_keyed(kmap(s)),
        forall|k: Seq<int>| #[trigger] kmap(s).dom().contains(k) <==> has_key(s, k),
        s.len() > 0 ==> kmap(s)[s[0].mkey()] == s[0],
        forall|k: Seq<int>| kmap(s).dom().contains(k) ==> (#[trigger] kmap(s)[k]).einv() || !entries_inv(s),
    decreases s.len(),
{
    if s.len() > 0 {
        lemma_kmap_props(s.drop_first());
        assert forall|k: Seq<int>| #[trigger] kmap(s).dom().contains(k) implies has_key(s, k) by {
            if k == s[0].mkey() {
                assert(s[0].mkey() == k);
            } else {
                assert(has_key(s.drop_first(), k));
                let i = choose|i: int| 0 <= i < s.drop_first().len() && s.drop_first()[i].mkey() == k;
                assert(s[i + 1].mkey() == k);
            }
        }
        assert forall|k: Seq<int>| has_key(s, k) implies #[trigger] kmap(s).dom().contains(k) by {
            let i = choose|i: int| 0 <= i < s.len() && s[i].mkey() == k;
            if i > 0 {
                assert(s.drop_first()[i - 1].mkey() == k);
                assert(has_key(s.drop_first(), k));
            }
        }
        assert forall|k: Seq<int>| kmap(s).dom().contains(k) && entries_inv(s) implies (
        #[trigger] kmap(s)[k]).einv() by {
            if k == s[0].mkey() {
            } else {
                assert(entries_inv(s.drop_first())) by {
                    assert forall|i: int| 0 <= i < s.drop_first().len() implies (#[trigger] s.drop_first()[i]).einv() by {
                        assert(s.drop_first()[i] == s[i + 1]);
                    }
                }
            }
        }
    }
}

/// On a sorted list, the head key is strictly below every key of the tail,
/// and the tail is itself sorted.
pub proof fn lemma_sorted_head<E: MergeModel>(s: Seq<E>)
    requires
        sorted_unique(s),
        s.len() > 0,
    ensures
        sorted_unique(s.drop_first()),
        forall|k: Seq<int>| has_key(s.drop_first(), k) ==> key_lt(s[0].mkey(), k),
        !has_key(s.drop_first(), s[0].mkey()),
{
    assert forall|i: int, j: int| 0 <= i < j < s.drop_first().len() implies key_lt(
        #[trigger] s.drop_first()[i].mkey(),
        #[trigger] s.drop_first()[j].mkey(),
    ) by {
        assert(s.drop_first()[i] == s[i + 1]);
        assert(s.drop_first()[j] == s[j + 1]);
    }
    assert forall|k: Seq<int>| has_key(s.drop_first(), k) implies key_lt(s[0].mkey(), k) by {
        let i = choose|i: int| 0 <= i < s.drop_first().len() && s.drop_first()[i].mkey() == k;
        assert(s.drop_first()[i] == s[i + 1]);
        assert(key_lt(s[0].mkey(), s[i + 1].mkey()));
    }
    if has_key(s.drop_first(), s[0].mkey()) {
        lemma_key_lt_trichotomy(s[0].mkey(), s[0].mkey());
    }
}

/// A key of one sorted list that is below the head of another sorted list is
/// absent from the other list.
pub proof fn lemma_below_head_absent<E: MergeModel>(b: Seq<E>, k: Seq<int>)
    requires
        sorted_unique(b),
        b.len() > 0,
        key_lt(k, b[0].mkey()),
    ensures
        !has_key(b, k),
{
    if has_key(b, k) {
        let i = choose|i: int| 0 <= i < b.len() && b[i].mkey() == k;
        if i == 0 {
            lemma_key_lt_trichotomy(k, b[0].mkey());
        } else {
            lemma_key_lt_trans(k, b[0].mkey(), b[i].mkey());
            lemma_key_lt_trichotomy(k, k);
        }
    }
}

/// The merge of two sorted lists is sorted, keeps exactly the keys of both
/// sides, preserves the entry invariants, and denotes the pointwise join of
/// the two maps.
pub proof fn lemma_smerge_props<E: MergeModel>(a: Seq<E>, b: Seq<E>)
    requires
        sorted_unique(a),
        sorted_unique(b),
    ensures
        sorted_unique(smerge(a, b)),
        entries_inv(a) && entries_inv(b) ==> entries_inv(smerge(a, b)),
        forall|k: Seq<int>| has_key(smerge(a, b), k) <==> has_key(a, k) || has_key(b, k),
        kmap(smerge(a, b)) == mcombine(kmap(a), kmap(b)),
    decreases a.len() + b.len(),
{
    lemma_kmap_props(a);
    lemma_kmap_props(b);
    lemma_kmap_props(smerge(a, b));
    if a.len() == 0 {
        assert(kmap(smerge(a, b)) =~= mcombine(kmap(a), kmap(b)));
    } else if b.len() == 0 {
        assert(kmap(smerge(a, b)) =~= mcombine(kmap(a), kmap(b)));
    } else {
        let ka = a[0].mkey();
        let kb = b[0].mkey();
        lemma_sorted_head(a);
        lemma_sorted_head(b);
        lemma_kmap_props(a.drop_first());
        lemma_kmap_props(b.drop_first());
        if key_lt(ka, kb) {
            let m = smerge(a.drop_first(), b);
            let r = smerge(a, b);
            lemma_smerge_props(a.drop_first(), b);
            lemma_kmap_props(m);
            assert(r == seq![a[0]] + m);
            assert(r[0] == a[0]);
            assert(r.drop_first() =~= m);
            // the head key is below every key that survives in the tail
            assert forall|k: Seq<int>| has_key(m, k) implies key_lt(ka, k) by {
                if has_key(a.drop_first(), k) {
                } else {
                    assert(has_key(b, k));
                    let i = choose|i: int| 0 <= i < b.len() && b[i].mkey() == k;
                    if i == 0 {
                    } else {
                        assert(key_lt(kb, b[i].mkey()));
                        lemma_key_lt_trans(ka, kb, k);
                    }
                }
            }
            assert forall|i: int, j: int| 0 <= i < j < r.len() implies key_lt(
                #[trigger] r[i].mkey(),
                #[trigger] r[j].mkey(),
            ) by {
                if i == 0 {
                    assert(r[j] == m[j - 1]);
                    assert(has_key(m, m[j - 1].mkey()));
                } else {
                    assert(r[i] == m[i - 1]);
                    assert(r[j] == m[j - 1]);
                }
            }
            if entries_inv(a) && entries_inv(b) {
                assert(entries_inv(a.drop_first())) by {
                    assert forall|i: int| 0 <= i < a.drop_first().len() implies (#[trigger] a.drop_first()[i]).einv() by {
                        assert(a.drop_first()[i] == a[i + 1]);
                    }
                }
                assert forall|i: int| 0 <= i < r.len() implies (#[trigger] r[i]).einv() by {
                    if i > 0 {
                        assert(r[i] == m[i - 1]);
                    }
                }
            }
            assert forall|k: Seq<int>| has_key(r, k) implies has_key(a, k) || has_key(b, k) by {
                let i = choose|i: int| 0 <= i < r.len() && r[i].mkey() == k;
                if i == 0 {
                } else {
                    assert(m[i - 1].mkey() == k);
                    assert(has_key(m, k));
                    if has_key(a.drop_first(), k) {
                        let j = choose|j: int| 0 <= j < a.drop_first().len() && a.drop_first()[j].mkey() == k;
                        assert(a[j + 1].mkey() == k);
                    }
                }
            }
            assert forall|k: Seq<int>| has_key(a, k) || has_key(b, k) implies has_key(r, k) by {
                if k == ka {
                    assert(r[0].mkey() == k);
                } else if has_key(a, k) {
                    let i = choose|i: int| 0 <= i < a.len() && a[i].mkey() == k;
                    assert(a.drop_first()[i - 1].mkey() == k);
                    assert(has_key(a.drop_first(), k));
                    assert(has_key(m, k));
                    let j = choose|j: int| 0 <= j < m.len() && m[j].mkey() == k;
                    assert(r[j + 1].mkey() == k);
                } else {
                    assert(has_key(m, k));
                    let j = choose|j: int| 0 <= j < m.len() && m[j].mkey() == k;
                    assert(r[j + 1].mkey() == k);
                }
            }
            // map equality
            assert(kmap(r) == kmap(m).insert(ka, a[0])) by {
                assert(kmap(r) == kmap(r.drop_first()).insert(r[0].mkey(), r[0]));
            }
            lemma_below_head_absent(b, ka);
            assert(kmap(r) =~= mcombine(kmap(a), kmap(b))) by {
                assert(kmap(a) == kmap(a.drop_first()).insert(ka, a[0]));
                assert(!kmap(b).dom().contains(ka));
                assert(!kmap(a.drop_first()).dom().contains(ka));
            }
        } else if key_lt(kb, ka) {
            let m = smerge(a, b.drop_first());
            let r = smerge(a, b);
            lemma_smerge_props(a, b.drop_first());
            lemma_kmap_props(m);
            assert(r == seq![b[0]] + m);
            assert(r[0] == b[0]);
            assert(r.drop_first() =~= m);
            assert forall|k: Seq<int>| has_key(m, k) implies key_lt(kb, k) by {
                if has_key(b.drop_first(), k) {
                } else {
                    assert(has_key(a, k));
                    let i = choose|i: int| 0 <= i < a.len() && a[i].mkey() == k;
                    if i == 0 {
                    } else {
                        assert(key_lt(ka, a[i].mkey()));
                        lemma_key_lt_trans(kb, ka, k);
                    }
                }
            }
            assert forall|i: int, j: int| 0 <= i < j < r.len() implies key_lt(
                #[trigger] r[i].mkey(),
                #[trigger] r[j].mkey(),
            ) by {
                if i == 0 {
                    assert(r[j] == m[j - 1]);
                    assert(has_key(m, m[j - 1].mkey()));
                } else {
                    assert(r[i] == m[i - 1]);
                    assert(r[j] == m[j - 1]);
                }
            }
            if entries_inv(a) && entries_inv(b) {
                assert(entries_inv(b.drop_first())) by {
                    assert forall|i: int| 0 <= i < b.drop_first().len() implies (#[trigger] b.drop_first()[i]).einv() by {
                        assert(b.drop_first()[i] == b[i + 1]);
                    }
                }
                assert forall|i: int| 0 <= i < r.len() implies (#[trigger] r[i]).einv() by {
                    if i > 0 {
                        assert(r[i] == m[i - 1]);
                    }
                }
            }
            assert forall|k: Seq<int>| has_key(r, k) implies has_key(a, k) || has_key(b, k) by {
                let i = choose|i: int| 0 <= i < r.len() && r[i].mkey() == k;
                if i == 0 {
                } else {
                    assert(m[i - 1].mkey() == k);
                    assert(has_key(m, k));
                    if has_key(b.drop_first(), k) {
                        let j = choose|j: int| 0 <= j < b.drop_first().len() && b.drop_first()[j].mkey() == k;
                        assert(b[j + 1].mkey() == k);
                    }
                }
            }
            assert forall|k: Seq<int>| has_key(a, k) || has_key(b, k) implies has_key(r, k) by {
                if k == kb {
                    assert(r[0].mkey() == k);
                } else if has_key(b, k) {
                    let i = choose|i: int| 0 <= i < b.len() && b[i].mkey() == k;
                    assert(b.drop_first()[i - 1].mkey() == k);
                    assert(has_key(b.drop_first(), k));
                    assert(has_key(m, k));
                    let j = choose|j: int| 0 <= j < m.len() && m[j].mkey() == k;
                    assert(r[j + 1].mkey() == k);
                } else {
                    assert(has_key(m, k));
                    let j = choose|j: int| 0 <= j < m.len() && m[j].mkey() == k;
                    assert(r[j + 1].mkey() == k);
                }
            }
            assert(kmap(r) == kmap(m).insert(kb, b[0])) by {
                assert(kmap(r) == kmap(r.drop_first()).insert(r[0].mkey(), r[0]));
            }
            lemma_below_head_absent(a, kb);
            assert(kmap(r) =~= mcombine(kmap(a), kmap(b))) by {
                assert(kmap(b) == kmap(b.drop_first()).insert(kb, b[0]));
                assert(!kmap(a).dom().contains(kb));
                assert(!kmap(b.drop_first()).dom().contains(kb));
            }
        } else {
            lemma_key_lt_trichotomy(ka, kb);
            assert(ka == kb);
            let c = a[0].combined(b[0]);
            E::lemma_combined_props(a[0], b[0]);
            let m = smerge(a.drop_first(), b.drop_first());
            let r = smerge(a, b);
            lemma_smerge_props(a.drop_first(), b.drop_first());
            lemma_kmap_props(m);
            assert(r == seq![c] + m);
            assert(r[0] == c);
            assert(r.drop_first() =~= m);
            assert forall|k: Seq<int>| has_key(m, k) implies key_lt(ka, k) by {
                if has_key(a.drop_first(), k) {
                } else {
                    assert(has_key(b.drop_first(), k));
                }
            }
            assert forall|i: int, j: int| 0 <= i < j < r.len() implies key_lt(
                #[trigger] r[i].mkey(),
                #[trigger] r[j].mkey(),
            ) by {
                if i == 0 {
                    assert(r[j] == m[j - 1]);
                    assert(has_key(m, m[j - 1].mkey()));
                } else {
                    assert(r[i] == m[i - 1]);
                    assert(r[j] == m[j - 1]);
                }
            }
            if entries_inv(a) && entries_inv(b) {
                assert(entries_inv(a.drop_first()) && entries_inv(b.drop_first())) by {
                    assert forall|i: int| 0 <= i < a.drop_first().len() implies (#[trigger] a.drop_first()[i]).einv() by {
                        assert(a.drop_first()[i] == a[i + 1]);
                    }
                    assert forall|i: int| 0 <= i < b.drop_first().len() implies (#[trigger] b.drop_first()[i]).einv() by {
                        assert(b.drop_first()[i] == b[i + 1]);
                    }
                }
                assert forall|i: int| 0 <= i < r.len() implies (#[trigger] r[i]).einv() by {
                    if i > 0 {
                        assert(r[i] == m[i - 1]);
                    }
                }
            }
            assert forall|k: Seq<int>| has_key(r, k) implies has_key(a, k) || has_key(b, k) by {
                let i = choose|i: int| 0 <= i < r.len() && r[i].mkey() == k;
                if i == 0 {
                    assert(a[0].mkey() == k);
                } else {
                    assert(m[i - 1].mkey() == k);
                    assert(has_key(m, k));
                    if has_key(a.drop_first(), k) {
                        let j = choose|j: int| 0 <= j < a.drop_first().len() && a.drop_first()[j].mkey() == k;
                        assert(a[j + 1].mkey() == k);
                    } else {
                        let j = choose|j: int| 0 <= j < b.drop_first().len() && b.drop_first()[j].mkey() == k;
                        assert(b[j + 1].mkey() == k);
                    }
                }
            }
            assert forall|k: Seq<int>| has_key(a, k) || has_key(b, k) implies has_key(r, k) by {
                if k == ka {
                    assert(r[0].mkey() == k);
                } else {
                    if has_key(a, k) {
                        let i = choose|i: int| 0 <= i < a.len() && a[i].mkey() == k;
                        assert(a.drop_first()[i - 1].mkey() == k);
                        assert(has_key(a.drop_first(), k));
                    } else {
                        let i = choose|i: int| 0 <= i < b.len() && b[i].mkey() == k;
                        assert(b.drop_first()[i - 1].mkey() == k);
                        assert(has_key(b.drop_first(), k));
                    }
                    assert(has_key(m, k));
                    let j = choose|j: int| 0 <= j < m.len() && m[j].mkey() == k;
                    assert(r[j + 1].mkey() == k);
                }
            }
            assert(kmap(r) == kmap(m).insert(ka, c)) by {
                assert(kmap(r) == kmap(r.drop_first()).insert(r[0].mkey(), r[0]));
            }
            assert(kmap(r) =~= mcombine(kmap(a), kmap(b))) by {
                assert(kmap(a) == kmap(a.drop_first()).insert(ka, a[0]));
                assert(kmap(b) == kmap(b.drop_first()).insert(kb, b[0]));
                assert(!kmap(a.drop_first()).dom().contains(ka));
                assert(!kmap(b.drop_first()).dom().contains(kb));
            }
        }
    }
}

/// The pointwise join of maps is commutative, associative on keyed maps, and
/// idempotent on maps of consistent entries.
pub proof fn lemma_mcombine_comm<E: MergeModel>(m1: Map<Seq<int>, E>, m2: Map<Seq<int>, E>)
    requires
        map_keyed(m1),
        map_keyed(m2),
    ensures
        mcombine(m1, m2) == mcombine(m2, m1),
{
    assert forall|k: Seq<int>| #[trigger] mcombine(m1, m2).dom().contains(k) implies mcombine(
        m1,
        m2,
    )[k] == mcombine(m2, m1)[k] by {
        if m1.dom().contains(k) && m2.dom().contains(k) {
            E::lemma_combined_comm(m1[k], m2[k]);
        }
    }
    assert(mcombine(m1, m2) =~= mcombine(m2, m1));
}

pub proof fn lemma_mcombine_assoc<E: MergeModel>(
    m1: Map<Seq<int>, E>,
    m2: Map<Seq<int>, E>,
    m3: Map<Seq<int>, E>,
)
    requires
        map_keyed(m1),
        map_keyed(m2),
        map_keyed(m3),
    ensures
        mcombine(mcombine(m1, m2), m3) == mcombine(m1, mcombine(m2, m3)),
{
    assert forall|k: Seq<int>| #[trigger] mcombine(mcombine(m1, m2), m3).dom().contains(k) implies
        mcombine(mcombine(m1, m2), m3)[k] == mcombine(m1, mcombine(m2, m3))[k] by {
        if m1.dom().contains(k) && m2.dom().contains(k) && m3.dom().contains(k) {
            E::lemma_combined_assoc(m1[k], m2[k], m3[k]);
        }
    }
    assert(mcombine(mcombine(m1, m2), m3) =~= mcombine(m1, mcombine(m2, m3)));
}

pub proof fn lemma_mcombine_idem<E: MergeModel>(m: Map<Seq<int>, E>)
    requires
        forall|k: Seq<int>| m.dom().contains(k) ==> (#[trigger] m[k]).einv(),
    ensures
        mcombine(m, m) == m,
{
    assert forall|k: Seq<int>| #[trigger] mcombine(m, m).dom().contains(k) implies mcombine(m, m)[k]
        == m[k] by {
        E::lemma_combined_idem(m[k]);
    }
    assert(mcombine(m, m) =~= m);
}

/// A sorted, duplicate-free list is determined by the map it denotes.
pub proof fn lemma_kmap_canonical<E: MergeModel>(s1: Seq<E>, s2: Seq<E>)
    requires
        sorted_unique(s1),
        sorted_unique(s2),
        kmap(s1) == kmap(s2),
    ensures
        s1 == s2,
    decreases s1.len(),
{
    lemma_kmap_props(s1);
    lemma_kmap_props(s2);
    if s1.len() == 0 {
        if s2.len() > 0 {
            assert(has_key(s2, s2[0].mkey()));
            assert(kmap(s1).dom().contains(s2[0].mkey()));
        }
        assert(s1 =~= s2);
    } else {
        assert(has_key(s1, s1[0].mkey())) by {
            assert(s1[0].mkey() == s1[0].mkey());
        }
        assert(kmap(s2).dom().contains(s1[0].mkey()));
        assert(has_key(s2, s1[0].mkey()));
        assert(s2.len() > 0);
        assert(has_key(s2, s2[0].mkey())) by {
            assert(s2[0].mkey() == s2[0].mkey());
        }
        assert(kmap(s1).dom().contains(s2[0].mkey()));
        assert(has_key(s1, s2[0].mkey()));
        lemma_sorted_head(s1);
        lemma_sorted_head(s2);
        // both heads carry the minimum key, so they agree
        let k1 = s1[0].mkey();
        let k2 = s2[0].mkey();
        assert(k1 == k2) by {
            let i = choose|i: int| 0 <= i < s2.len() && s2[i].mkey() == k1;
            if i > 0 {
                assert(s2.drop_first()[i - 1] == s2[i]);
                assert(has_key(s2.drop_first(), k1));
                assert(key_lt(k2, k1));
                assert(has_key(s1, k2));
                let j = choose|j: int| 0 <= j < s1.len() && s1[j].mkey() == k2;
                if j > 0 {
                    assert(s1.drop_first()[j - 1] == s1[j]);
                    assert(has_key(s1.drop_first(), k2));
                    assert(key_lt(k1, k2));
                    lemma_key_lt_trans(k1, k2, k1);
                    lemma_key_lt_trichotomy(k1, k1);
                } else {
                    lemma_key_lt_trichotomy(k1, k2);
                }
            }
        }
        assert(s1[0] == kmap(s1)[k1]);
        assert(s2[0] == kmap(s2)[k2]);
        assert(s1[0] == s2[0]);
        assert(kmap(s1.drop_first()) =~= kmap(s1).remove(k1)) by {
            lemma_kmap_props(s1.drop_first());
            assert(kmap(s1) == kmap(s1.drop_first()).insert(k1, s1[0]));
            assert(!kmap(s1.drop_first()).dom().contains(k1));
        }
        assert(kmap(s2.drop_first()) =~= kmap(s2).remove(k2)) by {
            lemma_kmap_props(s2.drop_first());
            assert(kmap(s2) == kmap(s2.drop_first()).insert(k2, s2[0]));
            assert(!kmap(s2.drop_first()).dom().contains(k2));
        }
        lemma_kmap_canonical(s1.drop_first(), s2.drop_first());
        assert forall|i: int| 0 <= i < s1.len() implies s1[i] == s2[i] by {
            if i > 0 {
                assert(s1.drop_first()[i - 1] == s2.drop_first()[i - 1]);
            }
        }
        assert(s1.len() == s2.len());
        assert(s1 =~= s2);
    }
}

/// The sorted merge is commutative.
pub proof fn lemma_smerge_comm<E: MergeModel>(a: Seq<E>, b: Seq<E>)
    requires
        sorted_unique(a),
        sorted_unique(b),
    ensures
        smerge(a, b) == smerge(b, a),
{
    lemma_smerge_props(a, b);
    lemma_smerge_props(b, a);
    lemma_kmap_props(a);
    lemma_kmap_props(b);
    lemma_mcombine_comm(kmap(a), kmap(b));
    lemma_kmap_canonical(smerge(a, b), smerge(b, a));
}

/// The sorted merge is associative.
pub proof fn lemma_smerge_assoc<E: MergeModel>(a: Seq<E>, b: Seq<E>, c: Seq<E>)
    requires
        sorted_unique(a),
        sorted_unique(b),
        sorted_unique(c),
    ensures
        smerge(smerge(a, b), c) == smerge(a, smerge(b, c)),
{
    lemma_smerge_props(a, b);
    lemma_smerge_props(b, c);
    lemma_smerge_props(smerge(a, b), c);
    lemma_smerge_props(a, smerge(b, c));
    lemma_kmap_props(a);
    lemma_kmap_props(b);
    lemma_kmap_props(c);
    lemma_mcombine_assoc(kmap(a), kmap(b), kmap(c));
    lemma_kmap_canonical(smerge(smerge(a, b), c), smerge(a, smerge(b, c)));
}

/// The sorted merge is idempotent on well-formed lists.
pub proof fn lemma_smerge_idem<E: MergeModel>(a: Seq<E>)
    requires
        list_inv(a),
    ensures
        smerge(a, a) == a,
{
    lemma_smerge_props(a, a);
    lemma_kmap_props(a);
    lemma_mcombine_idem(kmap(a));
    lemma_kmap_canonical(smerge(a, a), a);
}

/// A sorted list restricted to its well-formed reading: a malformed list
/// denotes the empty map, so a merge defined over `norm` is total.
pub open spec fn norm<E: MergeModel>(s: Seq<E>) -> Seq<E> {
    if list_inv(s) {
        s
    } else {
        Seq::empty()
    }
}

/// Any normalised list is well-formed.
pub proof fn lemma_norm_inv<E: MergeModel>(s: Seq<E>)
    ensures
        list_inv(norm(s)),
{
    if !list_inv(s) {
        assert(list_inv(Seq::<E>::empty()));
    }
}

/// An executable entry of a merge list: comparison by key, the join of two
/// entries under one key, and copying, each tied to the entry's model.
pub trait MergeItem: DeepView + Sized where Self::V: MergeModel {
    /// Three-way comparison of the sort keys: negative, zero or positive as
    /// this entry's key is below, equal to or above the other's.
    fn mcmp(&self, other: &Self) -> (o: i8)
        ensures
            o == -1 || o == 0 || o == 1,
            o == -1 ==> key_lt(self.deep_view().mkey(), other.deep_view().mkey()),
            o == 0 ==> self.deep_view().mkey() == other.deep_view().mkey(),
            o == 1 ==> key_lt(other.deep_view().mkey(), self.deep_view().mkey()),
    ;

    /// Join another entry carrying the same key into this one.
    fn combine(&mut self, other: &Self)
        requires
            old(self).deep_view().mkey() == other.deep_view().mkey(),
            old(self).deep_view().einv(),
            other.deep_view().einv(),
        ensures
            final(self).deep_view() == old(self).deep_view().combined(other.deep_view()),
    ;

    /// A copy with the same model.
    fn dup(&self) -> (r: Self)
        ensures
            r.deep_view() == self.deep_view(),
    ;
}

/// Merge the sorted list `b` into the sorted list `a`.
pub fn merge_lists<E: MergeItem>(a: &mut Vec<E>, b: &Vec<E>) where E::V: MergeModel
    requires
        list_inv(old(a).deep_view()),
        list_inv(b.deep_view()),
    ensures
        final(a).deep_view() == smerge(old(a).deep_view(), b.deep_view()),
        list_inv(final(a).deep_view()),
{
    let ghost sa = a.deep_view();
    let ghost sb = b.deep_view();
    let mut out: Vec<E> = Vec::new();
    let mut i: usize = 0;
    let mut j: usize = 0;
    proof {
        assert(sa.skip(0) =~= sa);
        assert(sb.skip(0) =~= sb);
        assert(out.deep_view() + smerge(sa.skip(0), sb.skip(0)) =~= smerge(sa, sb));
    }
    while i < a.len() || j < b.len()
        invariant
            i <= a.len(),
            j <= b.len(),
            a.deep_view() == sa,
            b.deep_view() == sb,
            list_inv(sa),
            list_inv(sb),
            out.deep_view() + smerge(sa.skip(i as int), sb.skip(j as int)) == smerge(sa, sb),
        decreases a.len() - i + b.len() - j,
    {
        let ghost ra = sa.skip(i as int);
        let ghost rb = sb.skip(j as int);
        proof {
            assert(ra.len() == sa.len() - i);
            assert(rb.len() == sb.len() - j);
            if i < sa.len() {
                assert(ra[0] == sa[i as int]);
                assert(ra.drop_first() =~= sa.skip(i as int + 1));
                assert(a@[i as int].deep_view() == sa[i as int]);
                assert(sa[i as int].einv());
            }
            if j < sb.len() {
                assert(rb[0] == sb[j as int]);
                assert(rb.drop_first() =~= sb.skip(j as int + 1));
                assert(b@[j as int].deep_view() == sb[j as int]);
                assert(sb[j as int].einv());
            }
        }
        if i < a.len() && j < b.len() {
            let o = a[i].mcmp(&b[j]);
            if o < 0 {
                let e = a[i].dup();
                out.push(e);
                proof {
                    assert(out.deep_view() =~= out.deep_view().drop_last().push(sa[i as int]));
                    assert(smerge(ra, rb) == seq![ra[0]] + smerge(ra.drop_first(), rb));
                    assert(out.deep_view() + smerge(sa.skip(i as int + 1), sb.skip(j as int))
                        =~= smerge(sa, sb));
                }
                i = i + 1;
            } else if o > 0 {
                let e = b[j].dup();
                out.push(e);
                proof {
                    assert(key_lt(rb[0].mkey(), ra[0].mkey()));
                    lemma_key_lt_trichotomy(ra[0].mkey(), rb[0].mkey());
                    assert(out.deep_view() =~= out.deep_view().drop_last().push(sb[j as int]));
                    assert(smerge(ra, rb) == seq![rb[0]] + smerge(ra, rb.drop_first()));
                    assert(out.deep_view() + smerge(sa.skip(i as int), sb.skip(j as int + 1))
                        =~= smerge(sa, sb));
                }
                j = j + 1;
            } else {
                let mut e = a[i].dup();
                e.combine(&b[j]);
                out.push(e);
                proof {
                    assert(ra[0].mkey() == rb[0].mkey());
                    lemma_key_lt_trichotomy(ra[0].mkey(), rb[0].mkey());
                    assert(out.deep_view() =~= out.deep_view().drop_last().push(
                        sa[i as int].combined(sb[j as int]),
                    ));
                    assert(smerge(ra, rb) == seq![ra[0].combined(rb[0])] + smerge(
                        ra.drop_first(),
                        rb.drop_first(),
                    ));
                    assert(out.deep_view() + smerge(sa.skip(i as int + 1), sb.skip(j as int + 1))
                        =~= smerge(sa, sb));
                }
                i = i + 1;
                j = j + 1;
            }
        } else if i < a.len() {
            let e = a[i].dup();
            out.push(e);
            proof {
                assert(rb =~= Seq::<E::V>::empty());
                assert(smerge(ra, rb) == ra);
                assert(out.deep_view() =~= out.deep_view().drop_last().push(sa[i as int]));
                assert(ra =~= seq![ra[0]] + ra.drop_first());
                assert(smerge(sa.skip(i as int + 1), rb) == sa.skip(i as int + 1));
                assert(out.deep_view() + smerge(sa.skip(i as int + 1), sb.skip(j as int)) =~= smerge(
                    sa,
                    sb,
                ));
            }
            i = i + 1;
        } else {
            let e = b[j].dup();
            out.push(e);
            proof {
                assert(ra =~= Seq::<E::V>::empty());
                assert(smerge(ra, rb) == rb);
                assert(out.deep_view() =~= out.deep_view().drop_last().push(sb[j as int]));
                assert(rb =~= seq![rb[0]] + rb.drop_first());
                assert(smerge(ra, sb.skip(j as int + 1)) == sb.skip(j as int + 1));
                assert(out.deep_view() + smerge(sa.skip(i as int), sb.skip(j as int + 1)) =~= smerge(
                    sa,
                    sb,
                ));
            }
            j = j + 1;
        }
    }
    proof {
        assert(sa.skip(i as int) =~= Seq::<E::V>::empty());
        assert(sb.skip(j as int) =~= Seq::<E::V>::empty());
        assert(out.deep_view() =~= smerge(sa, sb));
        lemma_smerge_props(sa, sb);
    }
    *a = out;
}

} // verus!
