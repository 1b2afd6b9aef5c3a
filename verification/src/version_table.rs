//! The version table: one row per object version, keyed by the version's
//! identifier, holding the ordered list of `(offset, hash)` blocks that make
//! up the payload. The block list only grows: merge is set union, kept sorted
//! by offset, so a reader that merges any set of replicas sees every block
//! acknowledged so far.

use vstd::prelude::*;
use crate::crdt::CRDT;
use crate::crdt::str_max;
use crate::crdt::lemma_str_max_comm;
use crate::crdt::lemma_str_max_assoc;
use crate::data::UUID;
use crate::merge_list::MergeModel;
use crate::merge_list::MergeItem;
use crate::merge_list::merge_lists;
use crate::merge_list::list_inv;
use crate::merge_list::norm;
use crate::merge_list::lemma_norm_inv;
use crate::merge_list::smerge;
use crate::merge_list::lemma_smerge_props;
use crate::merge_list::lemma_smerge_comm;
use crate::merge_list::lemma_smerge_assoc;
use crate::merge_list::lemma_smerge_idem;
use crate::object_table::bytes_code;
use crate::object_table::bytes_cmp;
use crate::object_table::lemma_bytes_code_injective;
use crate::order::key_lt;
use crate::order::lemma_key_lt_single;
use crate::order::lemma_key_lt_concat;
use crate::order::lemma_key_lt_trichotomy;

verus! {

/// One block of a version's payload: where it starts, and its content hash.
pub struct VersionBlock {
    pub offset: u64,
    pub hash: crate::data::Hash,
}

/// The model of a [`VersionBlock`].
pub ghost struct VersionBlockModel {
    pub offset: int,
    pub hash: Seq<u8>,
}

impl DeepView for VersionBlock {
    type V = VersionBlockModel;

    open spec fn deep_view(&self) -> VersionBlockModel {
        VersionBlockModel { offset: self.offset as int, hash: self.hash@ }
    }
}

impl MergeModel for VersionBlockModel {
    open spec fn mkey(self) -> Seq<int> {
        seq![self.offset] + bytes_code(self.hash)
    }

    open spec fn einv(self) -> bool {
        true
    }

    open spec fn combined(self, other: Self) -> Self {
        self
    }

    proof fn lemma_combined_comm(a: Self, b: Self) {
        lemma_vblock_key_injective(a, b);
    }

    proof fn lemma_combined_assoc(a: Self, b: Self, c: Self) {
    }

    proof fn lemma_combined_idem(a: Self) {
    }

    proof fn lemma_combined_props(a: Self, b: Self) {
    }
}

/// Blocks with the same sort key are equal: the key carries the whole entry.
pub proof fn lemma_vblock_key_injective(a: VersionBlockModel, b: VersionBlockModel)
    requires
        a.mkey() == b.mkey(),
    ensures
        a == b,
{
    let ka = a.mkey();
    let kb = b.mkey();
    assert(ka[0] == a.offset && kb[0] == b.offset);
    assert(bytes_code(a.hash) =~= ka.subrange(1, ka.len() as int)) by {
        assert forall|i: int| 0 <= i < bytes_code(a.hash).len() implies bytes_code(a.hash)[i]
            == ka[1 + i] by {}
    }
    assert(bytes_code(b.hash) =~= kb.subrange(1, kb.len() as int)) by {
        assert forall|i: int| 0 <= i < bytes_code(b.hash).len() implies bytes_code(b.hash)[i]
            == kb[1 + i] by {}
    }
    lemma_bytes_code_injective(a.hash, b.hash);
}

impl MergeItem for VersionBlock {
    fn mcmp(&self, other: &Self) -> (o: i8) {
        let ghost va = self.deep_view();
        let ghost vb = other.deep_view();
        proof {
            lemma_key_lt_concat(
                seq![va.offset],
                seq![vb.offset],
                bytes_code(va.hash),
                bytes_code(vb.hash),
            );
            lemma_key_lt_concat(
                seq![vb.offset],
                seq![va.offset],
                bytes_code(vb.hash),
                bytes_code(va.hash),
            );
            lemma_key_lt_single(va.offset, vb.offset);
            lemma_key_lt_single(vb.offset, va.offset);
            if self.offset != other.offset {
                assert(seq![va.offset][0] != seq![vb.offset][0]);
            } else {
                assert(seq![va.offset] =~= seq![vb.offset]);
            }
        }
        if self.offset < other.offset {
            return -1;
        }
        if self.offset > other.offset {
            return 1;
        }
        let o = bytes_cmp(self.hash.bytes.as_slice(), other.hash.bytes.as_slice());
        proof {
            if o == 0 {
                assert(bytes_code(va.hash) =~= bytes_code(vb.hash));
                assert(va.mkey() =~= vb.mkey());
            }
        }
        o
    }

    fn combine(&mut self, other: &Self) {
    }

    fn dup(&self) -> (r: Self) {
        VersionBlock { offset: self.offset, hash: self.hash }
    }
}

/// The model of a [`Version`].
pub ghost struct VersionModel {
    pub version: Seq<u8>,
    pub deleted: bool,
    pub blocks: Seq<VersionBlockModel>,
    pub bucket: Seq<char>,
    pub key: Seq<char>,
}

/// One version's block list, with the object name denormalized for recovery.
pub struct Version {
    /// Partition key: the version identifier.
    pub version: UUID,
    /// Tombstone; monotone.
    pub deleted: bool,
    /// The payload's blocks, ascending by offset; append-only under merge.
    pub blocks: Vec<VersionBlock>,
    /// The bucket of the object this version belongs to.
    pub bucket: String,
    /// The key of the object this version belongs to.
    pub key: String,
}

/// The larger of two byte strings, in the order of their codes.
pub open spec fn bytes_max(a: Seq<u8>, b: Seq<u8>) -> Seq<u8> {
    if key_lt(bytes_code(a), bytes_code(b)) {
        b
    } else {
        a
    }
}

pub proof fn lemma_bytes_max_comm(a: Seq<u8>, b: Seq<u8>)
    ensures
        bytes_max(a, b) == bytes_max(b, a),
{
    lemma_key_lt_trichotomy(bytes_code(a), bytes_code(b));
    if !key_lt(bytes_code(a), bytes_code(b)) && !key_lt(bytes_code(b), bytes_code(a)) {
        lemma_bytes_code_injective(a, b);
    }
}

pub proof fn lemma_bytes_max_assoc(a: Seq<u8>, b: Seq<u8>, c: Seq<u8>)
    ensures
        bytes_max(bytes_max(a, b), c) == bytes_max(a, bytes_max(b, c)),
{
    lemma_key_lt_trichotomy(bytes_code(a), bytes_code(b));
    lemma_key_lt_trichotomy(bytes_code(b), bytes_code(c));
    lemma_key_lt_trichotomy(bytes_code(a), bytes_code(c));
    if key_lt(bytes_code(a), bytes_code(b)) && key_lt(bytes_code(b), bytes_code(c)) {
        crate::order::lemma_key_lt_trans(bytes_code(a), bytes_code(b), bytes_code(c));
    }
    if key_lt(bytes_code(c), bytes_code(b)) && key_lt(bytes_code(b), bytes_code(a)) {
        crate::order::lemma_key_lt_trans(bytes_code(c), bytes_code(b), bytes_code(a));
    }
    if !key_lt(bytes_code(a), bytes_code(b)) && !key_lt(bytes_code(b), bytes_code(a)) {
        lemma_bytes_code_injective(a, b);
    }
    if !key_lt(bytes_code(b), bytes_code(c)) && !key_lt(bytes_code(c), bytes_code(b)) {
        lemma_bytes_code_injective(b, c);
    }
    if !key_lt(bytes_code(a), bytes_code(c)) && !key_lt(bytes_code(c), bytes_code(a)) {
        lemma_bytes_code_injective(a, c);
    }
}

impl DeepView for Version {
    type V = VersionModel;

    open spec fn deep_view(&self) -> VersionModel {
        VersionModel {
            version: self.version@,
            deleted: self.deleted,
            blocks: self.blocks.deep_view(),
            bucket: self.bucket.deep_view(),
            key: self.key.deep_view(),
        }
    }
}

// Rows are merged only under one partition key, so the identity fields of
// the two sides agree; merging them as maxima keeps the operation total and
// commutative without changing any reachable state.
impl CRDT for Version {
    open spec fn inv(m: VersionModel) -> bool {
        list_inv(m.blocks)
    }

    open spec fn merged(a: VersionModel, b: VersionModel) -> VersionModel {
        VersionModel {
            version: bytes_max(a.version, b.version),
            deleted: a.deleted || b.deleted,
            blocks: smerge(norm(a.blocks), norm(b.blocks)),
            bucket: str_max(a.bucket, b.bucket),
            key: str_max(a.key, b.key),
        }
    }

    proof fn lemma_merged_comm(a: VersionModel, b: VersionModel) {
        lemma_bytes_max_comm(a.version, b.version);
        lemma_str_max_comm(a.bucket, b.bucket);
        lemma_str_max_comm(a.key, b.key);
        lemma_norm_inv(a.blocks);
        lemma_norm_inv(b.blocks);
        lemma_smerge_comm(norm(a.blocks), norm(b.blocks));
    }

    proof fn lemma_merged_assoc(a: VersionModel, b: VersionModel, c: VersionModel) {
        lemma_bytes_max_assoc(a.version, b.version, c.version);
        lemma_str_max_assoc(a.bucket, b.bucket, c.bucket);
        lemma_str_max_assoc(a.key, b.key, c.key);
        lemma_norm_inv(a.blocks);
        lemma_norm_inv(b.blocks);
        lemma_norm_inv(c.blocks);
        lemma_smerge_props(norm(a.blocks), norm(b.blocks));
        lemma_smerge_props(norm(b.blocks), norm(c.blocks));
        assert(norm(smerge(norm(a.blocks), norm(b.blocks))) == smerge(
            norm(a.blocks),
            norm(b.blocks),
        ));
        assert(norm(smerge(norm(b.blocks), norm(c.blocks))) == smerge(
            norm(b.blocks),
            norm(c.blocks),
        ));
        lemma_smerge_assoc(norm(a.blocks), norm(b.blocks), norm(c.blocks));
    }

    proof fn lemma_merged_idem(a: VersionModel) {
        lemma_smerge_idem(a.blocks);
    }

    proof fn lemma_merged_inv(a: VersionModel, b: VersionModel) {
        lemma_norm_inv(a.blocks);
        lemma_norm_inv(b.blocks);
        lemma_smerge_props(norm(a.blocks), norm(b.blocks));
    }

    fn merge(&mut self, other: &Self) {
        let mut version = self.version.bytes;
        let o = bytes_cmp(self.version.bytes.as_slice(), other.version.bytes.as_slice());
        if o == -1 {
            version = other.version.bytes;
        }
        proof {
            if o == 0 {
                assert(bytes_code(self.version@) =~= bytes_code(other.version@));
                lemma_bytes_code_injective(self.version@, other.version@);
            }
            if o == 1 {
                crate::order::lemma_key_lt_trichotomy(
                    bytes_code(self.version@),
                    bytes_code(other.version@),
                );
            }
        }
        self.version = UUID { bytes: version };
        self.deleted = self.deleted || other.deleted;
        self.bucket.merge(&other.bucket);
        self.key.merge(&other.key);
        merge_lists(&mut self.blocks, &other.blocks);
    }

    fn dup(&self) -> (r: Self) {
        let mut blocks: Vec<VersionBlock> = Vec::new();
        let mut i: usize = 0;
        while i < self.blocks.len()
            invariant
                i <= self.blocks.len(),
                blocks@.len() == i,
                forall|j: int| 0 <= j < i ==> (#[trigger] blocks@[j]).deep_view()
                    == self.blocks@[j].deep_view(),
            decreases self.blocks.len() - i,
        {
            blocks.push(self.blocks[i].dup());
            i = i + 1;
        }
        proof {
            assert(blocks.deep_view() =~= self.blocks.deep_view());
        }
        Version {
            version: self.version,
            deleted: self.deleted,
            blocks,
            bucket: self.bucket.clone(),
            key: self.key.clone(),
        }
    }
}

impl Version {
    /// A fresh, empty version row for one object version.
    pub fn new(version: UUID, bucket: String, key: String) -> (r: Self)
        ensures
            Version::inv(r.deep_view()),
            r.deep_view().version == version@,
            !r.deep_view().deleted,
            r.deep_view().blocks.len() == 0,
            r.deep_view().bucket == bucket.deep_view(),
            r.deep_view().key == key.deep_view(),
    {
        let r = Version { version, deleted: false, blocks: Vec::new(), bucket, key };
        proof {
            assert(r.deep_view().blocks =~= Seq::<VersionBlockModel>::empty());
        }
        r
    }

    /// The row that appends one block: this version's identity carrying the
    /// single `(offset, hash)` entry. Merging it into the stored row unions
    /// the block in.
    pub fn with_block(&self, offset: u64, hash: &crate::data::Hash) -> (r: Version)
        requires
            self.deep_view().blocks.len() == 0,
        ensures
            Version::inv(r.deep_view()),
            r.deep_view() == (VersionModel {
                blocks: seq![VersionBlockModel { offset: offset as int, hash: hash@ }],
                ..self.deep_view()
            }),
    {
        let mut row = self.dup();
        row.blocks.push(VersionBlock { offset, hash: *hash });
        proof {
            assert(row.deep_view().blocks =~= seq![
                VersionBlockModel { offset: offset as int, hash: hash@ },
            ]);
        }
        row
    }

    /// The partition key: the version identifier.
    pub fn partition_key(&self) -> (r: &UUID)
        ensures
            r@ == self.deep_view().version,
    {
        &self.version
    }
}

} // verus!
