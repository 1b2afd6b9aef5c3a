//! A last-writer-wins map: a vector of `(key, timestamp, value)` entries,
//! unique and sorted by key. Merge is per key: the younger entry wins, a
//! timestamp tie merges the values. Built on the sorted merge list, so the
//! map inherits its commutativity, associativity and idempotence.

use vstd::prelude::*;
use crate::crdt::CRDT;
use crate::crdt::str_code;
use crate::crdt::str_less;
use crate::crdt::lemma_str_code_injective;
use crate::data::now_msec;
use crate::merge_list::MergeModel;
use crate::merge_list::MergeItem;
use crate::merge_list::merge_lists;
use crate::merge_list::list_inv;
use crate::merge_list::sorted_unique;
use crate::merge_list::has_key;
use crate::merge_list::kmap;
use crate::merge_list::smerge;
use crate::merge_list::norm;
use crate::merge_list::lemma_norm_inv;
use crate::merge_list::lemma_smerge_props;
use crate::merge_list::lemma_smerge_comm;
use crate::merge_list::lemma_smerge_assoc;
use crate::merge_list::lemma_smerge_idem;
use crate::order::key_lt;
use crate::order::lemma_key_lt_trichotomy;

verus! {

/// A type usable as the key of a merge list: its model encodes to the
/// universal integer-sequence sort key, injectively, and values can be
/// compared and copied.
pub trait TableKey: DeepView + Sized {
    /// The sort key a key model encodes to.
    spec fn key_code(m: Self::V) -> Seq<int>;

    /// Key models with the same encoding are equal.
    proof fn lemma_key_code_injective(a: Self::V, b: Self::V)
        requires
            Self::key_code(a) == Self::key_code(b),
        ensures
            a == b,
    ;

    /// Three-way comparison in the order of the encodings.
    fn kcmp(&self, other: &Self) -> (o: i8)
        ensures
            o == -1 || o == 0 || o == 1,
            o == -1 ==> key_lt(Self::key_code(self.deep_view()), Self::key_code(other.deep_view())),
            o == 0 ==> Self::key_code(self.deep_view()) == Self::key_code(other.deep_view()),
            o == 1 ==> key_lt(Self::key_code(other.deep_view()), Self::key_code(self.deep_view())),
    ;

    /// A copy with the same model.
    fn kdup(&self) -> (r: Self)
        ensures
            r.deep_view() == self.deep_view(),
    ;
}

impl TableKey for String {
    open spec fn key_code(m: Seq<char>) -> Seq<int> {
        str_code(m)
    }

    proof fn lemma_key_code_injective(a: Seq<char>, b: Seq<char>) {
        lemma_str_code_injective(a, b);
    }

    fn kcmp(&self, other: &Self) -> (o: i8) {
        if str_less(self.as_str(), other.as_str()) {
            -1
        } else if str_less(other.as_str(), self.as_str()) {
            1
        } else {
            proof {
                lemma_key_lt_trichotomy(str_code(self@), str_code(other@));
            }
            0
        }
    }

    fn kdup(&self) -> (r: Self) {
        self.clone()
    }
}

/// One entry of a last-writer-wins map.
pub struct MapEntry<K, V> {
    pub k: K,
    pub ts: u64,
    pub v: V,
}

/// The model of a map entry.
pub ghost struct MapEntryModel<K: DeepView, V: DeepView> {
    pub k: K::V,
    pub ts: int,
    pub v: V::V,
}

impl<K: DeepView, V: DeepView> DeepView for MapEntry<K, V> {
    type V = MapEntryModel<K, V>;

    open spec fn deep_view(&self) -> MapEntryModel<K, V> {
        MapEntryModel { k: self.k.deep_view(), ts: self.ts as int, v: self.v.deep_view() }
    }
}

impl<K: TableKey, V: CRDT> MergeModel for MapEntryModel<K, V> {
    open spec fn mkey(self) -> Seq<int> {
        K::key_code(self.k)
    }

    open spec fn einv(self) -> bool {
        V::inv(self.v) && 0 <= self.ts <= u64::MAX
    }

    open spec fn combined(self, other: Self) -> Self {
        if other.ts > self.ts {
            other
        } else if self.ts > other.ts {
            self
        } else {
            MapEntryModel { k: self.k, ts: self.ts, v: V::merged(self.v, other.v) }
        }
    }

    proof fn lemma_combined_comm(a: Self, b: Self) {
        K::lemma_key_code_injective(a.k, b.k);
        if a.ts == b.ts {
            V::lemma_merged_comm(a.v, b.v);
        }
    }

    proof fn lemma_combined_assoc(a: Self, b: Self, c: Self) {
        K::lemma_key_code_injective(a.k, b.k);
        K::lemma_key_code_injective(b.k, c.k);
        if a.ts == b.ts && b.ts == c.ts {
            V::lemma_merged_assoc(a.v, b.v, c.v);
        }
    }

    proof fn lemma_combined_idem(a: Self) {
        V::lemma_merged_idem(a.v);
    }

    proof fn lemma_combined_props(a: Self, b: Self) {
        K::lemma_key_code_injective(a.k, b.k);
        if a.ts == b.ts && V::inv(a.v) && V::inv(b.v) {
            V::lemma_merged_inv(a.v, b.v);
        }
    }
}

impl<K: TableKey, V: CRDT> MergeItem for MapEntry<K, V> {
    fn mcmp(&self, other: &Self) -> (o: i8) {
        self.k.kcmp(&other.k)
    }

    fn combine(&mut self, other: &Self) {
        proof {
            K::lemma_key_code_injective(self.k.deep_view(), other.k.deep_view());
        }
        if other.ts > self.ts {
            self.ts = other.ts;
            self.v = other.v.dup();
            self.k = other.k.kdup();
        } else if other.ts == self.ts {
            self.v.merge(&other.v);
        }
    }

    fn dup(&self) -> (r: Self) {
        MapEntry { k: self.k.kdup(), ts: self.ts, v: self.v.dup() }
    }
}

/// A last-writer-wins map from `K` to `V`.
pub struct LWWMap<K, V> {
    vals: Vec<MapEntry<K, V>>,
}

impl<K: DeepView, V: DeepView> DeepView for LWWMap<K, V> {
    type V = Seq<MapEntryModel<K, V>>;

    closed spec fn deep_view(&self) -> Seq<MapEntryModel<K, V>> {
        self.vals.deep_view()
    }
}

impl<K: TableKey, V: CRDT> CRDT for LWWMap<K, V> {
    open spec fn inv(m: Seq<MapEntryModel<K, V>>) -> bool {
        list_inv(m)
    }

    open spec fn merged(a: Seq<MapEntryModel<K, V>>, b: Seq<MapEntryModel<K, V>>) -> Seq<
        MapEntryModel<K, V>,
    > {
        smerge(norm(a), norm(b))
    }

    proof fn lemma_merged_comm(a: Self::V, b: Self::V) {
        lemma_norm_inv(a);
        lemma_norm_inv(b);
        lemma_smerge_comm(norm(a), norm(b));
    }

    proof fn lemma_merged_assoc(a: Self::V, b: Self::V, c: Self::V) {
        lemma_norm_inv(a);
        lemma_norm_inv(b);
        lemma_norm_inv(c);
        lemma_smerge_props(norm(a), norm(b));
        lemma_smerge_props(norm(b), norm(c));
        assert(norm(smerge(norm(a), norm(b))) == smerge(norm(a), norm(b)));
        assert(norm(smerge(norm(b), norm(c))) == smerge(norm(b), norm(c)));
        lemma_smerge_assoc(norm(a), norm(b), norm(c));
    }

    proof fn lemma_merged_idem(a: Self::V) {
        lemma_smerge_idem(a);
    }

    proof fn lemma_merged_inv(a: Self::V, b: Self::V) {
        lemma_smerge_props(norm(a), norm(b));
    }

    fn merge(&mut self, other: &Self) {
        merge_lists(&mut self.vals, &other.vals);
    }

    fn dup(&self) -> (r: Self) {
        let mut vals: Vec<MapEntry<K, V>> = Vec::new();
        let mut i: usize = 0;
        while i < self.vals.len()
            invariant
                i <= self.vals.len(),
                vals@.len() == i,
                forall|j: int| 0 <= j < i ==> (#[trigger] vals@[j]).deep_view()
                    == self.vals@[j].deep_view(),
            decreases self.vals.len() - i,
        {
            vals.push(self.vals[i].dup());
            i = i + 1;
        }
        proof {
            assert(vals.deep_view() =~= self.vals.deep_view());
        }
        LWWMap { vals }
    }
}

/// The value a model holds under a key encoding, if any.
pub open spec fn map_value_at<K: TableKey, V: CRDT>(
    s: Seq<MapEntryModel<K, V>>,
    kc: Seq<int>,
) -> V::V {
    kmap(s)[kc].v
}

/// On a sorted list, the entry found at an index is the one the denoted map
/// holds under that entry's key.
pub proof fn lemma_kmap_index<E: MergeModel>(s: Seq<E>, i: int)
    requires
        sorted_unique(s),
        0 <= i < s.len(),
    ensures
        kmap(s).dom().contains(s[i].mkey()),
        kmap(s)[s[i].mkey()] == s[i],
    decreases s.len(),
{
    crate::merge_list::lemma_kmap_props(s);
    if i > 0 {
        crate::merge_list::lemma_sorted_head(s);
        lemma_kmap_index(s.drop_first(), i - 1);
        assert(s.drop_first()[i - 1] == s[i]);
        assert(s[i].mkey() != s[0].mkey()) by {
            assert(key_lt(s[0].mkey(), s[i].mkey()));
            lemma_key_lt_trichotomy(s[0].mkey(), s[i].mkey());
        }
        assert(kmap(s) == kmap(s.drop_first()).insert(s[0].mkey(), s[0]));
    }
}

impl<K: TableKey, V: CRDT> LWWMap<K, V> {
    /// The empty map.
    pub fn new() -> (r: Self)
        ensures
            r.deep_view() == Seq::<MapEntryModel<K, V>>::empty(),
            Self::inv(r.deep_view()),
    {
        let r = LWWMap { vals: Vec::new() };
        proof {
            assert(r.deep_view() =~= Seq::<MapEntryModel<K, V>>::empty());
        }
        r
    }

    /// A one-entry map rebuilt from stored fields.
    pub fn migrate_from_raw_item(k: K, ts: u64, v: V) -> (r: Self)
        requires
            V::inv(v.deep_view()),
        ensures
            r.deep_view() == seq![
                MapEntryModel::<K, V> { k: k.deep_view(), ts: ts as int, v: v.deep_view() },
            ],
            Self::inv(r.deep_view()),
    {
        let mut vals: Vec<MapEntry<K, V>> = Vec::new();
        vals.push(MapEntry { k, ts, v });
        let r = LWWMap { vals };
        proof {
            assert(r.deep_view() =~= seq![
                MapEntryModel::<K, V> { k: k.deep_view(), ts: ts as int, v: v.deep_view() },
            ]);
        }
        r
    }

    /// Move the entries out, leaving this map empty.
    pub fn take_and_clear(&mut self) -> (r: Self)
        ensures
            r.deep_view() == old(self).deep_view(),
            final(self).deep_view() == Seq::<MapEntryModel<K, V>>::empty(),
    {
        let mut vals: Vec<MapEntry<K, V>> = Vec::new();
        proof {
            assert(vals.deep_view() =~= Seq::<MapEntryModel<K, V>>::empty());
        }
        core::mem::swap(&mut vals, &mut self.vals);
        LWWMap { vals }
    }

    /// Remove all entries.
    pub fn clear(&mut self)
        ensures
            final(self).deep_view() == Seq::<MapEntryModel<K, V>>::empty(),
    {
        self.vals.clear();
        proof {
            assert(self.deep_view() =~= Seq::<MapEntryModel<K, V>>::empty());
        }
    }

    /// The mutator row that sets `k` to `new_v`: a one-entry map whose
    /// timestamp is the wall clock, bumped past any timestamp `k` already
    /// carries here, so that merging the row in wins over the current entry.
    pub fn update_mutator(&self, k: K, new_v: V) -> (r: Self)
        requires
            Self::inv(self.deep_view()),
            V::inv(new_v.deep_view()),
            forall|i: int| 0 <= i < self.deep_view().len() ==> (#[trigger] self.deep_view()[i]).ts
                < u64::MAX,
        ensures
            Self::inv(r.deep_view()),
            r.deep_view().len() == 1,
            r.deep_view()[0].k == k.deep_view(),
            r.deep_view()[0].v == new_v.deep_view(),
            forall|i: int|
                0 <= i < self.deep_view().len() && (#[trigger] self.deep_view()[i]).mkey()
                    == K::key_code(k.deep_view()) ==> r.deep_view()[0].ts
                    > self.deep_view()[i].ts,
    {
        let clock = now_msec();
        let mut i: usize = 0;
        let mut found_ts: u64 = 0;
        let mut found: bool = false;
        while i < self.vals.len() && !found
            invariant
                i <= self.vals.len(),
                Self::inv(self.deep_view()),
                self.deep_view().len() == self.vals.deep_view().len(),
                forall|j: int| 0 <= j < self.deep_view().len() ==> (
                #[trigger] self.deep_view()[j]).ts < u64::MAX,
                found ==> exists|j: int|
                    0 <= j < i && (#[trigger] self.deep_view()[j]).mkey() == K::key_code(
                        k.deep_view(),
                    ) && found_ts == self.deep_view()[j].ts,
                !found ==> forall|j: int|
                    0 <= j < i ==> (#[trigger] self.deep_view()[j]).mkey() != K::key_code(
                        k.deep_view(),
                    ),
            decreases self.vals.len() - i,
        {
            let o = self.vals[i].k.kcmp(&k);
            proof {
                assert(self.deep_view()[i as int].mkey() == K::key_code(
                    self.vals@[i as int].k.deep_view(),
                ));
            }
            if o == 0 {
                found = true;
                found_ts = self.vals[i].ts;
                proof {
                    assert(self.deep_view()[i as int].mkey() == K::key_code(k.deep_view()));
                    assert(found_ts == self.deep_view()[i as int].ts);
                }
                i = i + 1;
                continue;
            }
            proof {
                if o == -1 {
                    lemma_key_lt_trichotomy(
                        self.deep_view()[i as int].mkey(),
                        K::key_code(k.deep_view()),
                    );
                } else {
                    lemma_key_lt_trichotomy(
                        K::key_code(k.deep_view()),
                        self.deep_view()[i as int].mkey(),
                    );
                }
            }
            i = i + 1;
        }
        let new_ts: u64 = if found {
            proof {
                let w = choose|w: int|
                    0 <= w < i && (#[trigger] self.deep_view()[w]).mkey() == K::key_code(
                        k.deep_view(),
                    ) && found_ts == self.deep_view()[w].ts;
                assert(self.deep_view()[w].ts < u64::MAX);
            }
            let bumped = found_ts + 1;
            if clock > bumped {
                clock
            } else {
                bumped
            }
        } else {
            clock
        };
        let mut vals: Vec<MapEntry<K, V>> = Vec::new();
        vals.push(MapEntry { k, ts: new_ts, v: new_v });
        let r = LWWMap { vals };
        proof {
            assert(r.deep_view() =~= seq![
                MapEntryModel::<K, V> {
                    k: k.deep_view(),
                    ts: new_ts as int,
                    v: new_v.deep_view(),
                },
            ]);
            assert forall|j: int|
                0 <= j < self.deep_view().len() && (#[trigger] self.deep_view()[j]).mkey()
                    == K::key_code(k.deep_view()) implies r.deep_view()[0].ts
                > self.deep_view()[j].ts by {
                if found {
                    let w = choose|w: int|
                        0 <= w < i && (#[trigger] self.deep_view()[w]).mkey() == K::key_code(
                            k.deep_view(),
                        ) && found_ts == self.deep_view()[w].ts;
                    if w != j {
                        if w < j {
                            assert(key_lt(self.deep_view()[w].mkey(), self.deep_view()[j].mkey()));
                        } else {
                            assert(key_lt(self.deep_view()[j].mkey(), self.deep_view()[w].mkey()));
                        }
                        lemma_key_lt_trichotomy(
                            self.deep_view()[j].mkey(),
                            self.deep_view()[w].mkey(),
                        );
                    }
                }
            }
        }
        r
    }

    /// Look the key up, returning a reference to its value.
    pub fn get(&self, k: &K) -> (r: Option<&V>)
        requires
            Self::inv(self.deep_view()),
        ensures
            match r {
                Some(v) => has_key(self.deep_view(), K::key_code(k.deep_view()))
                    && v.deep_view() == map_value_at::<K, V>(
                    self.deep_view(),
                    K::key_code(k.deep_view()),
                ),
                None => !has_key(self.deep_view(), K::key_code(k.deep_view())),
            },
    {
        let ghost kc = K::key_code(k.deep_view());
        let mut i: usize = 0;
        while i < self.vals.len()
            invariant
                i <= self.vals.len(),
                Self::inv(self.deep_view()),
                self.deep_view().len() == self.vals.deep_view().len(),
                kc == K::key_code(k.deep_view()),
                forall|j: int| 0 <= j < i ==> (#[trigger] self.deep_view()[j]).mkey() != kc,
            decreases self.vals.len() - i,
        {
            let o = self.vals[i].k.kcmp(k);
            proof {
                assert(self.deep_view()[i as int].mkey() == K::key_code(
                    self.vals@[i as int].k.deep_view(),
                ));
            }
            if o == 0 {
                proof {
                    assert(self.deep_view()[i as int].mkey() == kc);
                    lemma_kmap_index(self.deep_view(), i as int);
                }
                return Some(&self.vals[i].v);
            }
            proof {
                if o == -1 {
                    lemma_key_lt_trichotomy(self.deep_view()[i as int].mkey(), kc);
                } else {
                    lemma_key_lt_trichotomy(kc, self.deep_view()[i as int].mkey());
                }
            }
            i = i + 1;
        }
        proof {
            if has_key(self.deep_view(), kc) {
                let j = choose|j: int|
                    0 <= j < self.deep_view().len() && (#[trigger] self.deep_view()[j]).mkey()
                        == kc;
                assert(self.deep_view()[j].mkey() != kc);
            }
        }
        None
    }

    /// The entries, in key order.
    pub fn items(&self) -> (r: &Vec<MapEntry<K, V>>)
        ensures
            r.deep_view() == self.deep_view(),
    {
        &self.vals
    }
}

} // verus!
