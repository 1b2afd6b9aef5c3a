//! The API key table: an access key with its secret, a human-readable name,
//! a deletion tombstone and the set of buckets it may read or write. All
//! mutable fields are CRDTs; deletion dominates, forcing the authorized
//! bucket set empty in every merge that sees the tombstone.

use vstd::prelude::*;
use crate::crdt::CRDT;
use crate::crdt::LWW;
use crate::crdt::Bool;
use crate::crdt::LwwModel;
use crate::crdt::str_max;
use crate::crdt::str_code;
use crate::crdt::lemma_str_max_comm;
use crate::crdt::lemma_str_max_assoc;
use crate::data::gen_key_id;
use crate::data::gen_secret_key;
use crate::lww_map::LWWMap;
use crate::lww_map::MapEntryModel;
use crate::lww_map::TableKey;
use crate::lww_map::map_value_at;
use crate::merge_list::MergeModel;
use crate::merge_list::has_key;
use crate::merge_list::kmap;
use crate::merge_list::mcombine;
use crate::merge_list::list_inv;
use crate::merge_list::lemma_kmap_props;
use crate::merge_list::lemma_smerge_props;

verus! {

/// What a key may do in one bucket.
#[derive(Clone, Copy, Debug, PartialEq, Eq, Structural)]
pub struct PermissionSet {
    pub allow_read: bool,
    pub allow_write: bool,
}

impl DeepView for PermissionSet {
    type V = PermissionSet;

    open spec fn deep_view(&self) -> PermissionSet {
        *self
    }
}

/// Strict order on permission sets: read then write, `false` below `true`.
pub open spec fn ps_lt(a: PermissionSet, b: PermissionSet) -> bool {
    (!a.allow_read && b.allow_read) || (a.allow_read == b.allow_read && !a.allow_write
        && b.allow_write)
}

impl CRDT for PermissionSet {
    open spec fn inv(m: PermissionSet) -> bool {
        true
    }

    open spec fn merged(a: PermissionSet, b: PermissionSet) -> PermissionSet {
        if ps_lt(a, b) {
            b
        } else {
            a
        }
    }

    proof fn lemma_merged_comm(a: PermissionSet, b: PermissionSet) {
    }

    proof fn lemma_merged_assoc(a: PermissionSet, b: PermissionSet, c: PermissionSet) {
    }

    proof fn lemma_merged_idem(a: PermissionSet) {
    }

    proof fn lemma_merged_inv(a: PermissionSet, b: PermissionSet) {
    }

    fn merge(&mut self, other: &Self) {
        if (!self.allow_read && other.allow_read) || (self.allow_read == other.allow_read
            && !self.allow_write && other.allow_write) {
            *self = *other;
        }
    }

    fn dup(&self) -> (r: Self) {
        *self
    }
}

/// The model of a [`Key`].
pub ghost struct KeyModel {
    pub key_id: Seq<char>,
    pub secret_key: Seq<char>,
    pub name: LwwModel<Seq<char>>,
    pub deleted: bool,
    pub authorized_buckets: Seq<MapEntryModel<String, PermissionSet>>,
}

/// An API access key.
pub struct Key {
    /// Primary key: immutable, opaque identifier.
    pub key_id: String,
    /// Associated secret; immutable.
    pub secret_key: String,
    /// Human-readable name.
    pub name: LWW<String>,
    /// Deletion tombstone; monotone.
    pub deleted: Bool,
    /// Buckets this key may act on. Deletion forces this empty.
    pub authorized_buckets: LWWMap<String, PermissionSet>,
}

impl DeepView for Key {
    type V = KeyModel;

    open spec fn deep_view(&self) -> KeyModel {
        KeyModel {
            key_id: self.key_id.deep_view(),
            secret_key: self.secret_key.deep_view(),
            name: self.name.deep_view(),
            deleted: self.deleted.deep_view(),
            authorized_buckets: self.authorized_buckets.deep_view(),
        }
    }
}

// Rows are merged only under one sort key, so the identity fields of the two
// sides agree; merging them as maxima keeps the operation total and
// commutative without changing any reachable state.
impl CRDT for Key {
    open spec fn inv(m: KeyModel) -> bool {
        &&& list_inv(m.authorized_buckets)
        &&& (m.deleted ==> m.authorized_buckets.len() == 0)
    }

    open spec fn merged(a: KeyModel, b: KeyModel) -> KeyModel {
        KeyModel {
            key_id: str_max(a.key_id, b.key_id),
            secret_key: str_max(a.secret_key, b.secret_key),
            name: <LWW<String> as CRDT>::merged(a.name, b.name),
            deleted: a.deleted || b.deleted,
            authorized_buckets: if a.deleted || b.deleted {
                Seq::empty()
            } else {
                <LWWMap<String, PermissionSet> as CRDT>::merged(
                    a.authorized_buckets,
                    b.authorized_buckets,
                )
            },
        }
    }

    proof fn lemma_merged_comm(a: KeyModel, b: KeyModel) {
        lemma_str_max_comm(a.key_id, b.key_id);
        lemma_str_max_comm(a.secret_key, b.secret_key);
        <LWW<String> as CRDT>::lemma_merged_comm(a.name, b.name);
        <LWWMap<String, PermissionSet> as CRDT>::lemma_merged_comm(
            a.authorized_buckets,
            b.authorized_buckets,
        );
    }

    proof fn lemma_merged_assoc(a: KeyModel, b: KeyModel, c: KeyModel) {
        lemma_str_max_assoc(a.key_id, b.key_id, c.key_id);
        lemma_str_max_assoc(a.secret_key, b.secret_key, c.secret_key);
        <LWW<String> as CRDT>::lemma_merged_assoc(a.name, b.name, c.name);
        <LWWMap<String, PermissionSet> as CRDT>::lemma_merged_assoc(
            a.authorized_buckets,
            b.authorized_buckets,
            c.authorized_buckets,
        );
        if a.deleted || b.deleted || c.deleted {
            assert(Self::merged(Self::merged(a, b), c).authorized_buckets =~= Seq::<
                MapEntryModel<String, PermissionSet>,
            >::empty());
            assert(Self::merged(a, Self::merged(b, c)).authorized_buckets =~= Seq::<
                MapEntryModel<String, PermissionSet>,
            >::empty());
        } else {
            assert(list_inv(Seq::<MapEntryModel<String, PermissionSet>>::empty()));
        }
    }

    proof fn lemma_merged_idem(a: KeyModel) {
        <LWW<String> as CRDT>::lemma_merged_idem(a.name);
        <LWWMap<String, PermissionSet> as CRDT>::lemma_merged_idem(a.authorized_buckets);
        if a.deleted {
            assert(Self::merged(a, a).authorized_buckets =~= a.authorized_buckets);
        }
    }

    proof fn lemma_merged_inv(a: KeyModel, b: KeyModel) {
        <LWWMap<String, PermissionSet> as CRDT>::lemma_merged_inv(
            a.authorized_buckets,
            b.authorized_buckets,
        );
        assert(list_inv(Seq::<MapEntryModel<String, PermissionSet>>::empty()));
    }

    fn merge(&mut self, other: &Self) {
        self.key_id.merge(&other.key_id);
        self.secret_key.merge(&other.secret_key);
        self.name.merge(&other.name);
        self.deleted.merge(&other.deleted);

        if self.deleted.get() {
            self.authorized_buckets.clear();
            return;
        }

        self.authorized_buckets.merge(&other.authorized_buckets);
    }

    fn dup(&self) -> (r: Self) {
        Key {
            key_id: self.key_id.clone(),
            secret_key: self.secret_key.clone(),
            name: self.name.dup(),
            deleted: self.deleted.dup(),
            authorized_buckets: self.authorized_buckets.dup(),
        }
    }
}

/// Deletion dominates: once a side of a merge carries the tombstone, the
/// result carries it too and its authorized bucket set is empty — and stays
/// so under every further merge.
pub proof fn lemma_deleted_dominates(a: KeyModel, b: KeyModel)
    ensures
        a.deleted ==> Key::merged(a, b).deleted,
        b.deleted ==> Key::merged(a, b).deleted,
        (a.deleted || b.deleted) ==> Key::merged(a, b).authorized_buckets == Seq::<
            MapEntryModel<String, PermissionSet>,
        >::empty(),
{
}

impl Key {
    /// A fresh key: a random identifier with the `GK` prefix, a random
    /// secret, the given name, not deleted, no bucket grants.
    pub fn new(name: String) -> (r: Self)
        ensures
            Key::inv(r.deep_view()),
            r.deep_view().key_id.len() == 26,
            r.deep_view().key_id[0] == 'G',
            r.deep_view().key_id[1] == 'K',
            r.deep_view().secret_key.len() == 64,
            r.deep_view().name.v == name.deep_view(),
            !r.deep_view().deleted,
            r.deep_view().authorized_buckets.len() == 0,
    {
        let key_id = gen_key_id();
        let secret_key = gen_secret_key();
        Key {
            key_id,
            secret_key,
            name: LWW::new(name),
            deleted: Bool::new(false),
            authorized_buckets: LWWMap::new(),
        }
    }

    /// The tombstone for `key_id`: deleted, with every other field blank.
    pub fn delete(key_id: String) -> (r: Self)
        ensures
            Key::inv(r.deep_view()),
            r.deep_view().key_id == key_id.deep_view(),
            r.deep_view().secret_key.len() == 0,
            r.deep_view().name.v.len() == 0,
            r.deep_view().deleted,
            r.deep_view().authorized_buckets.len() == 0,
    {
        proof {
            reveal_strlit("");
        }
        Key {
            key_id,
            secret_key: String::from_str(""),
            name: LWW::new(String::from_str("")),
            deleted: Bool::new(true),
            authorized_buckets: LWWMap::new(),
        }
    }

    /// Whether this key may read `bucket`.
    pub fn allow_read(&self, bucket: &str) -> (r: bool)
        requires
            Key::inv(self.deep_view()),
        ensures
            r == (has_key(self.deep_view().authorized_buckets, str_code(bucket@))
                && map_value_at::<String, PermissionSet>(
                self.deep_view().authorized_buckets,
                str_code(bucket@),
            ).allow_read),
    {
        let b = String::from_str(bucket);
        match self.authorized_buckets.get(&b) {
            Some(x) => x.allow_read,
            None => false,
        }
    }

    /// Whether this key may write `bucket`.
    pub fn allow_write(&self, bucket: &str) -> (r: bool)
        requires
            Key::inv(self.deep_view()),
        ensures
            r == (has_key(self.deep_view().authorized_buckets, str_code(bucket@))
                && map_value_at::<String, PermissionSet>(
                self.deep_view().authorized_buckets,
                str_code(bucket@),
            ).allow_write),
    {
        let b = String::from_str(bucket);
        match self.authorized_buckets.get(&b) {
            Some(x) => x.allow_write,
            None => false,
        }
    }

    /// The partition key of the key table: every key shares one partition.
    pub fn partition_key(&self) -> (r: &EmptyKey)
        ensures
            *r == EmptyKey,
    {
        &EmptyKey
    }

    /// The sort key: the key identifier.
    pub fn sort_key(&self) -> (r: &String)
        ensures
            r.deep_view() == self.deep_view().key_id,
    {
        &self.key_id
    }
}

/// The partition key of tables whose rows all share one partition.
#[derive(Clone, Copy, Debug, PartialEq, Eq, Structural)]
pub struct EmptyKey;

/// Row filter on the deletion flag.
#[derive(Clone, Copy, Debug, PartialEq, Eq, Structural)]
pub enum DeletedFilter {
    Any,
    Deleted,
    NotDeleted,
}

impl DeletedFilter {
    /// What the filter keeps, given a row's deletion flag.
    pub open spec fn spec_apply(self, deleted: bool) -> bool {
        match self {
            DeletedFilter::Any => true,
            DeletedFilter::Deleted => deleted,
            DeletedFilter::NotDeleted => !deleted,
        }
    }

    pub fn apply(&self, deleted: bool) -> (r: bool)
        ensures
            r == self.spec_apply(deleted),
    {
        match self {
            DeletedFilter::Any => true,
            DeletedFilter::Deleted => deleted,
            DeletedFilter::NotDeleted => !deleted,
        }
    }
}

/// One bucket grant in the previous key schema.
pub struct OldBucketPermission {
    pub bucket: String,
    pub timestamp: u64,
    pub allow_read: bool,
    pub allow_write: bool,
}

/// A key as the previous schema stored it: plain fields, one timestamp per
/// grant.
pub struct OldKey {
    pub key_id: String,
    pub secret_key: String,
    pub name: String,
    pub name_timestamp: u64,
    pub deleted: bool,
    pub authorized_buckets: Vec<OldBucketPermission>,
}

/// The map entry one grant of the previous schema carries.
pub open spec fn grant_entry(g: OldBucketPermission) -> MapEntryModel<String, PermissionSet> {
    MapEntryModel {
        k: g.bucket@,
        ts: g.timestamp as int,
        v: PermissionSet { allow_read: g.allow_read, allow_write: g.allow_write },
    }
}

/// Whether one of the first `n` grants names the bucket encoded as `kc`.
pub open spec fn has_grant(gs: Seq<OldBucketPermission>, n: int, kc: Seq<int>) -> bool {
    exists|j: int| 0 <= j < n && str_code((#[trigger] gs[j]).bucket@) == kc
}

/// The entry the migration leaves under the bucket encoded as `kc` after the
/// first `n` grants: each grant joins into what the earlier ones left, so on
/// a repeated bucket the higher timestamp wins and a timestamp tie merges
/// the permission sets.
pub open spec fn migrated_grant(
    gs: Seq<OldBucketPermission>,
    n: nat,
    kc: Seq<int>,
) -> MapEntryModel<String, PermissionSet>
    decreases n,
{
    if n == 0 {
        arbitrary()
    } else if str_code(gs[n - 1].bucket@) == kc {
        if has_grant(gs, n - 1, kc) {
            migrated_grant(gs, (n - 1) as nat, kc).combined(grant_entry(gs[n - 1]))
        } else {
            grant_entry(gs[n - 1])
        }
    } else {
        migrated_grant(gs, (n - 1) as nat, kc)
    }
}

/// The schema of the key table: its filter and its migration from the
/// previous schema.
pub struct KeyTable;

impl KeyTable {
    /// Whether a row passes a deletion filter.
    pub fn matches_filter(entry: &Key, filter: &DeletedFilter) -> (r: bool)
        ensures
            r == filter.spec_apply(entry.deep_view().deleted),
    {
        filter.apply(entry.deleted.get())
    }

    /// Lift a key of the previous schema into the current one: the name
    /// keeps its stored timestamp, and every bucket grant is merged in as a
    /// one-entry map, so each bucket ends up holding its grant — on a
    /// repeated bucket, the one the join of the grants leaves.
    pub fn migrate_key(old: OldKey) -> (r: Key)
        ensures
            r.deep_view().key_id == old.key_id.deep_view(),
            r.deep_view().secret_key == old.secret_key.deep_view(),
            r.deep_view().name == (LwwModel {
                ts: old.name_timestamp as int,
                v: old.name.deep_view(),
            }),
            r.deep_view().deleted == old.deleted,
            list_inv(r.deep_view().authorized_buckets),
            forall|i: int| 0 <= i < old.authorized_buckets@.len() ==> has_key(
                r.deep_view().authorized_buckets,
                str_code((#[trigger] old.authorized_buckets@[i]).bucket@),
            ),
            forall|i: int| 0 <= i < old.authorized_buckets@.len() ==> kmap(
                r.deep_view().authorized_buckets,
            )[str_code((#[trigger] old.authorized_buckets@[i]).bucket@)] == migrated_grant(
                old.authorized_buckets@,
                old.authorized_buckets@.len(),
                str_code(old.authorized_buckets@[i].bucket@),
            ),
            forall|kc: Seq<int>| #[trigger] has_key(r.deep_view().authorized_buckets, kc)
                ==> has_grant(old.authorized_buckets@, old.authorized_buckets@.len() as int, kc),
            !old.deleted ==> Key::inv(r.deep_view()),
    {
        let OldKey { key_id, secret_key, name, name_timestamp, deleted, authorized_buckets } = old;
        let mut new = Key {
            key_id,
            secret_key,
            name: LWW::migrate_from_raw(name_timestamp, name),
            deleted: Bool::new(deleted),
            authorized_buckets: LWWMap::new(),
        };
        let mut i: usize = 0;
        while i < authorized_buckets.len()
            invariant
                i <= authorized_buckets.len(),
                list_inv(new.deep_view().authorized_buckets),
                new.deep_view().key_id == old.key_id.deep_view(),
                new.deep_view().secret_key == old.secret_key.deep_view(),
                new.deep_view().name == (LwwModel {
                    ts: old.name_timestamp as int,
                    v: old.name.deep_view(),
                }),
                new.deep_view().deleted == old.deleted,
                authorized_buckets@ == old.authorized_buckets@,
                forall|j: int| 0 <= j < i ==> has_key(
                    new.deep_view().authorized_buckets,
                    str_code((#[trigger] authorized_buckets@[j]).bucket@),
                ),
                forall|j: int| 0 <= j < i ==> kmap(new.deep_view().authorized_buckets)[str_code(
                    (#[trigger] authorized_buckets@[j]).bucket@,
                )] == migrated_grant(
                    authorized_buckets@,
                    i as nat,
                    str_code(authorized_buckets@[j].bucket@),
                ),
                forall|kc: Seq<int>| #[trigger] has_key(new.deep_view().authorized_buckets, kc)
                    ==> has_grant(authorized_buckets@, i as int, kc),
            decreases authorized_buckets.len() - i,
        {
            let ab = &authorized_buckets[i];
            let it = LWWMap::migrate_from_raw_item(
                ab.bucket.clone(),
                ab.timestamp,
                PermissionSet { allow_read: ab.allow_read, allow_write: ab.allow_write },
            );
            let ghost gs = authorized_buckets@;
            let ghost before = new.deep_view().authorized_buckets;
            let ghost item = it.deep_view();
            let ghost e = grant_entry(gs[i as int]);
            let ghost kci = str_code(gs[i as int].bucket@);
            new.authorized_buckets.merge(&it);
            proof {
                let after = new.deep_view().authorized_buckets;
                assert(item[0] == e);
                assert(e.mkey() == kci);
                assert(item.drop_first() =~= Seq::<MapEntryModel<String, PermissionSet>>::empty());
                assert(kmap(item) == kmap(item.drop_first()).insert(e.mkey(), e));
                assert(kmap(item) =~= Map::empty().insert(kci, e));
                lemma_smerge_props(before, item);
                lemma_kmap_props(before);
                lemma_kmap_props(item);
                lemma_kmap_props(after);
                assert(kmap(after) == mcombine(kmap(before), kmap(item)));
                assert(has_key(item, kci));
                assert(has_key(after, kci));
                // what the merged map holds, grant by grant
                assert forall|j: int| 0 <= j < i + 1 implies has_key(
                    after,
                    str_code((#[trigger] gs[j]).bucket@),
                ) by {
                    if j < i {
                        assert(has_key(before, str_code(gs[j].bucket@)));
                    }
                }
                assert forall|j: int| 0 <= j < i + 1 implies kmap(after)[str_code(
                    (#[trigger] gs[j]).bucket@,
                )] == migrated_grant(gs, (i + 1) as nat, str_code(gs[j].bucket@)) by {
                    let kc = str_code(gs[j].bucket@);
                    if kc == kci {
                        if has_grant(gs, i as int, kc) {
                            let w = choose|w: int|
                                0 <= w < i && str_code((#[trigger] gs[w]).bucket@) == kc;
                            assert(has_key(before, kc));
                            assert(kmap(before)[kc] == migrated_grant(gs, i as nat, kc));
                            assert(kmap(after)[kc] == kmap(before)[kc].combined(e));
                        } else {
                            assert(!has_key(before, kc));
                            assert(kmap(after)[kc] == e);
                        }
                    } else {
                        assert(j < i);
                        assert(has_key(before, kc));
                        assert(!kmap(item).dom().contains(kc));
                        assert(kmap(after)[kc] == kmap(before)[kc]);
                        assert(migrated_grant(gs, (i + 1) as nat, kc) == migrated_grant(
                            gs,
                            i as nat,
                            kc,
                        ));
                    }
                }
                assert forall|kc: Seq<int>| #[trigger] has_key(after, kc) implies has_grant(
                    gs,
                    i as int + 1,
                    kc,
                ) by {
                    if has_key(before, kc) {
                        let w = choose|w: int|
                            0 <= w < i && str_code((#[trigger] gs[w]).bucket@) == kc;
                        assert(str_code(gs[w].bucket@) == kc);
                    } else {
                        assert(has_key(item, kc));
                        assert(kmap(item).dom().contains(kc));
                        assert(kc == kci);
                        assert(str_code(gs[i as int].bucket@) == kc);
                    }
                }
            }
            i = i + 1;
        }
        new
    }
}

} // verus!
