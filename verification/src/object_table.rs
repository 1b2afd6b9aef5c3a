//! The object table: an object is identified by `(bucket, key)` and holds the
//! versions ever written to that name, sorted by timestamp then identifier.
//! Merge unions the version lists; versions under the same identifier are
//! joined by a deterministic record order in which a completed version
//! dominates an incomplete one, so completeness is monotone, and a delete
//! marker dominates only completed versions, so it cannot erase an in-flight
//! write.

use vstd::prelude::*;
use crate::crdt::CRDT;
use crate::crdt::str_code;
use crate::crdt::str_max;
use crate::crdt::str_less;
use crate::crdt::lemma_str_code_injective;
use crate::crdt::lemma_str_max_comm;
use crate::crdt::lemma_str_max_assoc;
use crate::data::UUID;
use crate::merge_list::MergeModel;
use crate::merge_list::MergeItem;
use crate::merge_list::merge_lists;
use crate::merge_list::list_inv;
use crate::merge_list::norm;
use crate::merge_list::lemma_norm_inv;
use crate::merge_list::smerge;
use crate::merge_list::lemma_smerge_props;
use crate::merge_list::lemma_smerge_comm;
use crate::merge_list::lemma_smerge_assoc;
use crate::merge_list::lemma_smerge_idem;
use crate::order::key_lt;
use crate::order::lemma_key_lt_trichotomy;
use crate::order::lemma_key_lt_trans;

verus! {

/// Where one version's payload lives.
pub enum ObjectVersionData {
    /// A tombstone: the name was deleted by this version.
    DeleteMarker,
    /// The whole payload, embedded in the metadata row.
    Inline(Vec<u8>),
    /// The payload is a chain of blocks rooted at this content hash.
    FirstBlock(crate::data::Hash),
}

/// The model of [`ObjectVersionData`].
pub ghost enum DataModel {
    DeleteMarker,
    Inline(Seq<u8>),
    FirstBlock(Seq<u8>),
}

impl DeepView for ObjectVersionData {
    type V = DataModel;

    open spec fn deep_view(&self) -> DataModel {
        match self {
            ObjectVersionData::DeleteMarker => DataModel::DeleteMarker,
            ObjectVersionData::Inline(b) => DataModel::Inline(b.deep_view()),
            ObjectVersionData::FirstBlock(h) => DataModel::FirstBlock(h@),
        }
    }
}

/// One write of an object.
pub struct ObjectVersion {
    /// Identity of this version within its object.
    pub uuid: UUID,
    /// Milliseconds at write start; fixed for the version's lifetime.
    pub timestamp: u64,
    /// Declared content type.
    pub mime_type: String,
    /// Total byte count; meaningful once the version is complete.
    pub size: u64,
    /// Monotone: set once the payload is fully stored, never cleared.
    pub is_complete: bool,
    /// The payload location.
    pub data: ObjectVersionData,
}

/// The model of an [`ObjectVersion`].
pub ghost struct ObjectVersionModel {
    pub uuid: Seq<u8>,
    pub timestamp: int,
    pub mime_type: Seq<char>,
    pub size: int,
    pub is_complete: bool,
    pub data: DataModel,
}

impl DeepView for ObjectVersion {
    type V = ObjectVersionModel;

    open spec fn deep_view(&self) -> ObjectVersionModel {
        ObjectVersionModel {
            uuid: self.uuid@,
            timestamp: self.timestamp as int,
            mime_type: self.mime_type.deep_view(),
            size: self.size as int,
            is_complete: self.is_complete,
            data: self.data.deep_view(),
        }
    }
}

/// Bytes read as the integer sequence their lexicographic order uses.
pub open spec fn bytes_code(b: Seq<u8>) -> Seq<int> {
    b.map(|i: int, x: u8| x as int)
}

/// Byte strings with the same code are equal.
pub proof fn lemma_bytes_code_injective(a: Seq<u8>, b: Seq<u8>)
    requires
        bytes_code(a) == bytes_code(b),
    ensures
        a == b,
{
    assert(a.len() == bytes_code(a).len());
    assert(b.len() == bytes_code(b).len());
    assert forall|i: int| 0 <= i < a.len() implies a[i] == b[i] by {
        assert(bytes_code(a)[i] == a[i] as int);
        assert(bytes_code(b)[i] == b[i] as int);
    }
    assert(a =~= b);
}

/// The payload bytes a data value carries: the inline body, the root hash,
/// or nothing for a tombstone.
pub open spec fn data_payload(d: DataModel) -> Seq<u8> {
    match d {
        DataModel::DeleteMarker => Seq::empty(),
        DataModel::Inline(b) => b,
        DataModel::FirstBlock(h) => h,
    }
}

/// The rank of a payload location in the version record order. Completeness
/// decides which lattice applies: on completed versions the delete marker is
/// top, so a delete erases a finished write; on incomplete versions the
/// marker is bottom, so a racing delete cannot erase an upload in progress.
pub open spec fn data_rank(complete: bool, d: DataModel) -> int {
    if complete {
        match d {
            DataModel::FirstBlock(_) => 0,
            DataModel::Inline(_) => 1,
            DataModel::DeleteMarker => 2,
        }
    } else {
        match d {
            DataModel::DeleteMarker => 0,
            DataModel::FirstBlock(_) => 1,
            DataModel::Inline(_) => 2,
        }
    }
}

/// The whole version record, encoded for the total order that decides a
/// merge: completeness first, so a completed version dominates, then the
/// payload rank under that completeness, the size, the identity fields and
/// the payload itself.
pub open spec fn venc(m: ObjectVersionModel) -> Seq<int> {
    seq![
        if m.is_complete { 1int } else { 0int },
        data_rank(m.is_complete, m.data),
        m.size,
        m.timestamp,
        m.uuid.len() as int,
    ] + bytes_code(m.uuid) + seq![data_payload(m.data).len() as int] + bytes_code(
        data_payload(m.data),
    ) + str_code(m.mime_type)
}

/// Version records with the same encoding are equal.
pub proof fn lemma_venc_injective(a: ObjectVersionModel, b: ObjectVersionModel)
    requires
        venc(a) == venc(b),
    ensures
        a == b,
{
    let ea = venc(a);
    let eb = venc(b);
    assert(ea[0] == eb[0] && ea[1] == eb[1] && ea[2] == eb[2] && ea[3] == eb[3] && ea[4] == eb[4]);
    assert(a.is_complete == b.is_complete);
    assert(a.size == b.size && a.timestamp == b.timestamp);
    let ua = bytes_code(a.uuid);
    let ub = bytes_code(b.uuid);
    assert(ua.len() == ub.len());
    assert(ua =~= ea.subrange(5, 5 + ua.len() as int)) by {
        assert forall|i: int| 0 <= i < ua.len() implies ua[i] == ea[5 + i] by {}
    }
    assert(ub =~= eb.subrange(5, 5 + ub.len() as int)) by {
        assert forall|i: int| 0 <= i < ub.len() implies ub[i] == eb[5 + i] by {}
    }
    lemma_bytes_code_injective(a.uuid, b.uuid);
    let n = 5 + ua.len() as int;
    let pa = bytes_code(data_payload(a.data));
    let pb = bytes_code(data_payload(b.data));
    assert(ea[n] == eb[n]);
    assert(pa.len() == pb.len());
    assert(pa =~= ea.subrange(n + 1, n + 1 + pa.len() as int)) by {
        assert forall|i: int| 0 <= i < pa.len() implies pa[i] == ea[n + 1 + i] by {}
    }
    assert(pb =~= eb.subrange(n + 1, n + 1 + pb.len() as int)) by {
        assert forall|i: int| 0 <= i < pb.len() implies pb[i] == eb[n + 1 + i] by {}
    }
    lemma_bytes_code_injective(data_payload(a.data), data_payload(b.data));
    assert(a.data == b.data) by {
        assert(data_rank(a.is_complete, a.data) == data_rank(b.is_complete, b.data));
    }
    let p = n + 1 + pa.len() as int;
    let ma = str_code(a.mime_type);
    let mb = str_code(b.mime_type);
    assert(ea.len() == p + ma.len());
    assert(eb.len() == p + mb.len());
    assert(ma =~= ea.subrange(p, ea.len() as int)) by {
        assert forall|i: int| 0 <= i < ma.len() implies ma[i] == ea[p + i] by {}
    }
    assert(mb =~= eb.subrange(p, eb.len() as int)) by {
        assert forall|i: int| 0 <= i < mb.len() implies mb[i] == eb[p + i] by {}
    }
    lemma_str_code_injective(a.mime_type, b.mime_type);
}

impl MergeModel for ObjectVersionModel {
    open spec fn mkey(self) -> Seq<int> {
        seq![self.timestamp] + bytes_code(self.uuid)
    }

    open spec fn einv(self) -> bool {
        true
    }

    open spec fn combined(self, other: Self) -> Self {
        if key_lt(venc(self), venc(other)) {
            other
        } else {
            self
        }
    }

    proof fn lemma_combined_comm(a: Self, b: Self) {
        lemma_key_lt_trichotomy(venc(a), venc(b));
        if !key_lt(venc(a), venc(b)) && !key_lt(venc(b), venc(a)) {
            lemma_venc_injective(a, b);
        }
    }

    proof fn lemma_combined_assoc(a: Self, b: Self, c: Self) {
        lemma_key_lt_trichotomy(venc(a), venc(b));
        lemma_key_lt_trichotomy(venc(b), venc(c));
        lemma_key_lt_trichotomy(venc(a), venc(c));
        if key_lt(venc(a), venc(b)) && key_lt(venc(b), venc(c)) {
            lemma_key_lt_trans(venc(a), venc(b), venc(c));
        }
        if key_lt(venc(c), venc(b)) && key_lt(venc(b), venc(a)) {
            lemma_key_lt_trans(venc(c), venc(b), venc(a));
        }
        if !key_lt(venc(a), venc(b)) && !key_lt(venc(b), venc(a)) {
            lemma_venc_injective(a, b);
        }
        if !key_lt(venc(b), venc(c)) && !key_lt(venc(c), venc(b)) {
            lemma_venc_injective(b, c);
        }
        if !key_lt(venc(a), venc(c)) && !key_lt(venc(c), venc(a)) {
            lemma_venc_injective(a, c);
        }
    }

    proof fn lemma_combined_idem(a: Self) {
    }

    proof fn lemma_combined_props(a: Self, b: Self) {
    }
}

/// Completeness survives every join of two version records: the record order
/// puts completeness first, so the winner is complete whenever a side is.
pub proof fn lemma_completeness_monotone(a: ObjectVersionModel, b: ObjectVersionModel)
    ensures
        a.combined(b).is_complete == (a.is_complete || b.is_complete),
{
    if a.is_complete != b.is_complete {
        assert(venc(a)[0] != venc(b)[0]);
    }
}


/// The encoding suffix after the completeness bit.
pub open spec fn venc_rank(m: ObjectVersionModel) -> Seq<int> {
    seq![data_rank(m.is_complete, m.data)] + venc_size(m)
}

/// ... after the payload rank.
pub open spec fn venc_size(m: ObjectVersionModel) -> Seq<int> {
    seq![m.size] + venc_ts(m)
}

/// ... after the size.
pub open spec fn venc_ts(m: ObjectVersionModel) -> Seq<int> {
    seq![m.timestamp] + venc_ulen(m)
}

/// ... after the timestamp.
pub open spec fn venc_ulen(m: ObjectVersionModel) -> Seq<int> {
    seq![m.uuid.len() as int] + venc_uuid(m)
}

/// ... after the identifier length.
pub open spec fn venc_uuid(m: ObjectVersionModel) -> Seq<int> {
    bytes_code(m.uuid) + venc_plen(m)
}

/// ... after the identifier bytes.
pub open spec fn venc_plen(m: ObjectVersionModel) -> Seq<int> {
    seq![data_payload(m.data).len() as int] + venc_payload(m)
}

/// ... after the payload length.
pub open spec fn venc_payload(m: ObjectVersionModel) -> Seq<int> {
    bytes_code(data_payload(m.data)) + str_code(m.mime_type)
}

/// The encoding is the completeness bit followed by the suffixes.
pub proof fn lemma_venc_unfold(m: ObjectVersionModel)
    ensures
        venc(m) == seq![if m.is_complete { 1int } else { 0int }] + venc_rank(m),
{
    assert(venc(m) =~= seq![if m.is_complete { 1int } else { 0int }] + venc_rank(m));
}

/// Three-way comparison of equally long byte strings, in the order of their
/// codes.
pub fn bytes_cmp(a: &[u8], b: &[u8]) -> (o: i8)
    requires
        a@.len() == b@.len(),
    ensures
        o == -1 || o == 0 || o == 1,
        o == -1 ==> key_lt(bytes_code(a@), bytes_code(b@)),
        o == 0 ==> a@ == b@,
        o == 1 ==> key_lt(bytes_code(b@), bytes_code(a@)),
{
    let n = a.len();
    let mut i: usize = 0;
    proof {
        assert(bytes_code(a@).skip(0) =~= bytes_code(a@));
        assert(bytes_code(b@).skip(0) =~= bytes_code(b@));
    }
    while i < n
        invariant
            i <= n,
            n == a@.len(),
            n == b@.len(),
            forall|j: int| 0 <= j < i ==> a@[j] == b@[j],
            key_lt(bytes_code(a@), bytes_code(b@)) == key_lt(
                bytes_code(a@).skip(i as int),
                bytes_code(b@).skip(i as int),
            ),
            key_lt(bytes_code(b@), bytes_code(a@)) == key_lt(
                bytes_code(b@).skip(i as int),
                bytes_code(a@).skip(i as int),
            ),
        decreases n - i,
    {
        let ca = a[i];
        let cb = b[i];
        proof {
            let ta = bytes_code(a@).skip(i as int);
            let tb = bytes_code(b@).skip(i as int);
            assert(ta.len() == a@.len() - i);
            assert(tb.len() == b@.len() - i);
            assert(ta[0] == ca as int);
            assert(tb[0] == cb as int);
            assert(ta.drop_first() =~= bytes_code(a@).skip(i as int + 1));
            assert(tb.drop_first() =~= bytes_code(b@).skip(i as int + 1));
        }
        if ca < cb {
            return -1;
        }
        if ca > cb {
            return 1;
        }
        i = i + 1;
    }
    proof {
        assert(a@ =~= b@);
        assert(bytes_code(a@).skip(n as int).len() == 0);
    }
    0
}

/// The payload rank of a data value, as executable code.
pub fn rank_of(complete: bool, d: &ObjectVersionData) -> (r: u64)
    ensures
        r as int == data_rank(complete, d.deep_view()),
{
    if complete {
        match d {
            ObjectVersionData::FirstBlock(_) => 0,
            ObjectVersionData::Inline(_) => 1,
            ObjectVersionData::DeleteMarker => 2,
        }
    } else {
        match d {
            ObjectVersionData::DeleteMarker => 0,
            ObjectVersionData::FirstBlock(_) => 1,
            ObjectVersionData::Inline(_) => 2,
        }
    }
}

/// Whether `a` is below `b` in the version record order.
pub fn version_lt(a: &ObjectVersion, b: &ObjectVersion) -> (r: bool)
    ensures
        r == key_lt(venc(a.deep_view()), venc(b.deep_view())),
{
    let ghost va = a.deep_view();
    let ghost vb = b.deep_view();
    proof {
        lemma_venc_unfold(va);
        lemma_venc_unfold(vb);
    }
    // completeness dominates
    let ca: u64 = if a.is_complete { 1 } else { 0 };
    let cb: u64 = if b.is_complete { 1 } else { 0 };
    proof {
        crate::order::lemma_key_lt_concat(
            seq![ca as int],
            seq![cb as int],
            venc_rank(va),
            venc_rank(vb),
        );
        crate::order::lemma_key_lt_single(ca as int, cb as int);
        if ca != cb {
            assert(seq![ca as int][0] != seq![cb as int][0]);
        } else {
            assert(seq![ca as int] =~= seq![cb as int]);
        }
    }
    if ca != cb {
        return ca < cb;
    }
    // then the payload rank under that completeness
    let ra = rank_of(a.is_complete, &a.data);
    let rb = rank_of(b.is_complete, &b.data);
    proof {
        crate::order::lemma_key_lt_concat(
            seq![ra as int],
            seq![rb as int],
            venc_size(va),
            venc_size(vb),
        );
        crate::order::lemma_key_lt_single(ra as int, rb as int);
        if ra != rb {
            assert(seq![ra as int][0] != seq![rb as int][0]);
        } else {
            assert(seq![ra as int] =~= seq![rb as int]);
        }
    }
    if ra != rb {
        return ra < rb;
    }
    // then the size
    proof {
        crate::order::lemma_key_lt_concat(
            seq![va.size],
            seq![vb.size],
            venc_ts(va),
            venc_ts(vb),
        );
        crate::order::lemma_key_lt_single(va.size, vb.size);
        if a.size != b.size {
            assert(seq![va.size][0] != seq![vb.size][0]);
        } else {
            assert(seq![va.size] =~= seq![vb.size]);
        }
    }
    if a.size != b.size {
        return a.size < b.size;
    }
    // then the timestamp
    proof {
        crate::order::lemma_key_lt_concat(
            seq![va.timestamp],
            seq![vb.timestamp],
            venc_ulen(va),
            venc_ulen(vb),
        );
        crate::order::lemma_key_lt_single(va.timestamp, vb.timestamp);
        if a.timestamp != b.timestamp {
            assert(seq![va.timestamp][0] != seq![vb.timestamp][0]);
        } else {
            assert(seq![va.timestamp] =~= seq![vb.timestamp]);
        }
    }
    if a.timestamp != b.timestamp {
        return a.timestamp < b.timestamp;
    }
    // identifiers have one width, so their length never decides
    proof {
        assert(va.uuid.len() == 32 && vb.uuid.len() == 32);
        crate::order::lemma_key_lt_concat(
            seq![va.uuid.len() as int],
            seq![vb.uuid.len() as int],
            venc_uuid(va),
            venc_uuid(vb),
        );
        assert(seq![va.uuid.len() as int] =~= seq![vb.uuid.len() as int]);
    }
    // then the identifier bytes
    let ou = bytes_cmp(a.uuid.bytes.as_slice(), b.uuid.bytes.as_slice());
    proof {
        assert(bytes_code(va.uuid).len() == bytes_code(vb.uuid).len());
        crate::order::lemma_key_lt_concat(
            bytes_code(va.uuid),
            bytes_code(vb.uuid),
            venc_plen(va),
            venc_plen(vb),
        );
        if ou == 0 {
            assert(bytes_code(va.uuid) =~= bytes_code(vb.uuid));
        } else {
            crate::order::lemma_key_lt_trichotomy(bytes_code(va.uuid), bytes_code(vb.uuid));
        }
    }
    if ou != 0 {
        return ou == -1;
    }
    // then the payload length
    let pa: usize = match &a.data {
        ObjectVersionData::DeleteMarker => 0,
        ObjectVersionData::Inline(x) => x.len(),
        ObjectVersionData::FirstBlock(_) => 32,
    };
    let pb: usize = match &b.data {
        ObjectVersionData::DeleteMarker => 0,
        ObjectVersionData::Inline(x) => x.len(),
        ObjectVersionData::FirstBlock(_) => 32,
    };
    proof {
        assert(pa as int == data_payload(va.data).len());
        assert(pb as int == data_payload(vb.data).len());
        crate::order::lemma_key_lt_concat(
            seq![pa as int],
            seq![pb as int],
            venc_payload(va),
            venc_payload(vb),
        );
        crate::order::lemma_key_lt_single(pa as int, pb as int);
        if pa != pb {
            assert(seq![pa as int][0] != seq![pb as int][0]);
        } else {
            assert(seq![pa as int] =~= seq![pb as int]);
        }
    }
    if pa != pb {
        return pa < pb;
    }
    // same completeness and rank: the payloads have the same shape
    let ghost pca = bytes_code(data_payload(va.data));
    let ghost pcb = bytes_code(data_payload(vb.data));
    let op: i8 = match (&a.data, &b.data) {
        (ObjectVersionData::DeleteMarker, ObjectVersionData::DeleteMarker) => {
            proof {
                assert(pca =~= pcb);
            }
            0
        },
        (ObjectVersionData::Inline(x), ObjectVersionData::Inline(y)) => {
            let o = bytes_cmp(x.as_slice(), y.as_slice());
            proof {
                assert(data_payload(va.data) =~= x@);
                assert(data_payload(vb.data) =~= y@);
                if o == 0 {
                    assert(pca =~= pcb);
                }
            }
            o
        },
        (ObjectVersionData::FirstBlock(h1), ObjectVersionData::FirstBlock(h2)) => {
            let o = bytes_cmp(h1.bytes.as_slice(), h2.bytes.as_slice());
            proof {
                assert(data_payload(va.data) =~= h1.bytes@);
                assert(data_payload(vb.data) =~= h2.bytes@);
                if o == 0 {
                    assert(pca =~= pcb);
                }
            }
            o
        },
        _ => {
            proof {
                assert(false);
            }
            0
        },
    };
    proof {
        assert(pca.len() == pcb.len());
        crate::order::lemma_key_lt_concat(
            pca,
            pcb,
            str_code(va.mime_type),
            str_code(vb.mime_type),
        );
        if op != 0 {
            crate::order::lemma_key_lt_trichotomy(pca, pcb);
        }
    }
    if op != 0 {
        return op == -1;
    }
    // finally the declared content type
    str_less(self_mime(a), self_mime(b))
}

/// The content type of a version, as a string slice.
fn self_mime(v: &ObjectVersion) -> (r: &str)
    ensures
        r@ == v.deep_view().mime_type,
{
    v.mime_type.as_str()
}


/// Copy a byte vector.
pub fn dup_bytes(v: &Vec<u8>) -> (r: Vec<u8>)
    ensures
        r@ == v@,
{
    let mut r: Vec<u8> = Vec::new();
    let mut i: usize = 0;
    while i < v.len()
        invariant
            i <= v@.len(),
            r@ == v@.take(i as int),
        decreases v@.len() - i,
    {
        r.push(v[i]);
        proof {
            assert(r@ =~= v@.take(i as int + 1));
        }
        i = i + 1;
    }
    proof {
        assert(r@ =~= v@);
    }
    r
}

impl ObjectVersionData {
    /// A copy with the same model.
    pub fn dup(&self) -> (r: Self)
        ensures
            r.deep_view() == self.deep_view(),
    {
        match self {
            ObjectVersionData::DeleteMarker => ObjectVersionData::DeleteMarker,
            ObjectVersionData::Inline(b) => {
                let c = dup_bytes(b);
                proof {
                    assert(c.deep_view() =~= b.deep_view());
                }
                ObjectVersionData::Inline(c)
            },
            ObjectVersionData::FirstBlock(h) => ObjectVersionData::FirstBlock(*h),
        }
    }
}

impl MergeItem for ObjectVersion {
    fn mcmp(&self, other: &Self) -> (o: i8) {
        let ghost va = self.deep_view();
        let ghost vb = other.deep_view();
        proof {
            crate::order::lemma_key_lt_concat(
                seq![va.timestamp],
                seq![vb.timestamp],
                bytes_code(va.uuid),
                bytes_code(vb.uuid),
            );
            crate::order::lemma_key_lt_concat(
                seq![vb.timestamp],
                seq![va.timestamp],
                bytes_code(vb.uuid),
                bytes_code(va.uuid),
            );
            crate::order::lemma_key_lt_single(va.timestamp, vb.timestamp);
            crate::order::lemma_key_lt_single(vb.timestamp, va.timestamp);
            if self.timestamp != other.timestamp {
                assert(seq![va.timestamp][0] != seq![vb.timestamp][0]);
            } else {
                assert(seq![va.timestamp] =~= seq![vb.timestamp]);
            }
        }
        if self.timestamp < other.timestamp {
            return -1;
        }
        if self.timestamp > other.timestamp {
            return 1;
        }
        let o = bytes_cmp(self.uuid.bytes.as_slice(), other.uuid.bytes.as_slice());
        proof {
            if o == 0 {
                assert(bytes_code(va.uuid) =~= bytes_code(vb.uuid));
                assert(va.mkey() =~= vb.mkey());
            }
        }
        o
    }

    fn combine(&mut self, other: &Self) {
        if version_lt(self, other) {
            *self = other.dup();
        }
    }

    fn dup(&self) -> (r: Self) {
        ObjectVersion {
            uuid: self.uuid,
            timestamp: self.timestamp,
            mime_type: self.mime_type.clone(),
            size: self.size,
            is_complete: self.is_complete,
            data: self.data.dup(),
        }
    }
}

/// The model of an [`Object`].
pub ghost struct ObjectModel {
    pub bucket: Seq<char>,
    pub key: Seq<char>,
    pub versions: Seq<ObjectVersionModel>,
}

/// An object: the versions ever written under one `(bucket, key)` name.
pub struct Object {
    /// Partition key: the bucket.
    pub bucket: String,
    /// Sort key within the bucket.
    pub key: String,
    /// Ascending by timestamp, then by identifier.
    pub versions: Vec<ObjectVersion>,
}

impl DeepView for Object {
    type V = ObjectModel;

    open spec fn deep_view(&self) -> ObjectModel {
        ObjectModel {
            bucket: self.bucket.deep_view(),
            key: self.key.deep_view(),
            versions: self.versions.deep_view(),
        }
    }
}

// Rows are merged only under one (bucket, key) name, so the identity fields
// of the two sides agree; merging them as maxima keeps the operation total
// and commutative without changing any reachable state.
impl CRDT for Object {
    open spec fn inv(m: ObjectModel) -> bool {
        list_inv(m.versions)
    }

    open spec fn merged(a: ObjectModel, b: ObjectModel) -> ObjectModel {
        ObjectModel {
            bucket: str_max(a.bucket, b.bucket),
            key: str_max(a.key, b.key),
            versions: smerge(norm(a.versions), norm(b.versions)),
        }
    }

    proof fn lemma_merged_comm(a: ObjectModel, b: ObjectModel) {
        lemma_str_max_comm(a.bucket, b.bucket);
        lemma_str_max_comm(a.key, b.key);
        lemma_norm_inv(a.versions);
        lemma_norm_inv(b.versions);
        lemma_smerge_comm(norm(a.versions), norm(b.versions));
    }

    proof fn lemma_merged_assoc(a: ObjectModel, b: ObjectModel, c: ObjectModel) {
        lemma_str_max_assoc(a.bucket, b.bucket, c.bucket);
        lemma_str_max_assoc(a.key, b.key, c.key);
        lemma_norm_inv(a.versions);
        lemma_norm_inv(b.versions);
        lemma_norm_inv(c.versions);
        lemma_smerge_props(norm(a.versions), norm(b.versions));
        lemma_smerge_props(norm(b.versions), norm(c.versions));
        assert(norm(smerge(norm(a.versions), norm(b.versions))) == smerge(
            norm(a.versions),
            norm(b.versions),
        ));
        assert(norm(smerge(norm(b.versions), norm(c.versions))) == smerge(
            norm(b.versions),
            norm(c.versions),
        ));
        lemma_smerge_assoc(norm(a.versions), norm(b.versions), norm(c.versions));
    }

    proof fn lemma_merged_idem(a: ObjectModel) {
        lemma_smerge_idem(a.versions);
    }

    proof fn lemma_merged_inv(a: ObjectModel, b: ObjectModel) {
        lemma_norm_inv(a.versions);
        lemma_norm_inv(b.versions);
        lemma_smerge_props(norm(a.versions), norm(b.versions));
    }

    fn merge(&mut self, other: &Self) {
        self.bucket.merge(&other.bucket);
        self.key.merge(&other.key);
        merge_lists(&mut self.versions, &other.versions);
    }

    fn dup(&self) -> (r: Self) {
        let mut versions: Vec<ObjectVersion> = Vec::new();
        let mut i: usize = 0;
        while i < self.versions.len()
            invariant
                i <= self.versions.len(),
                versions@.len() == i,
                forall|j: int| 0 <= j < i ==> (#[trigger] versions@[j]).deep_view()
                    == self.versions@[j].deep_view(),
            decreases self.versions.len() - i,
        {
            versions.push(self.versions[i].dup());
            i = i + 1;
        }
        proof {
            assert(versions.deep_view() =~= self.versions.deep_view());
        }
        Object { bucket: self.bucket.clone(), key: self.key.clone(), versions }
    }
}

/// A merged version list keeps every version identity of both sides, and a
/// version that is complete on either side is complete in the result:
/// completeness is monotone under merge, whatever the delivery order.
pub proof fn lemma_object_completeness_monotone(a: ObjectModel, b: ObjectModel, k: Seq<int>)
    requires
        Object::inv(a),
        Object::inv(b),
        crate::merge_list::has_key(a.versions, k),
        crate::merge_list::kmap(a.versions)[k].is_complete,
    ensures
        crate::merge_list::has_key(Object::merged(a, b).versions, k),
        crate::merge_list::kmap(Object::merged(a, b).versions)[k].is_complete,
{
    lemma_smerge_props(a.versions, b.versions);
    crate::merge_list::lemma_kmap_props(a.versions);
    crate::merge_list::lemma_kmap_props(b.versions);
    let m = Object::merged(a, b).versions;
    assert(m == smerge(a.versions, b.versions));
    assert(crate::merge_list::kmap(m) == crate::merge_list::mcombine(
        crate::merge_list::kmap(a.versions),
        crate::merge_list::kmap(b.versions),
    ));
    if crate::merge_list::kmap(b.versions).dom().contains(k) {
        lemma_completeness_monotone(
            crate::merge_list::kmap(a.versions)[k],
            crate::merge_list::kmap(b.versions)[k],
        );
    }
}

/// The newest complete version of a sorted version list: the last complete
/// entry, scanning from the newest end.
pub open spec fn last_complete(s: Seq<ObjectVersionModel>) -> Option<ObjectVersionModel>
    decreases s.len(),
{
    if s.len() == 0 {
        None
    } else if s.last().is_complete {
        Some(s.last())
    } else {
        last_complete(s.drop_last())
    }
}

/// What `last_complete` returns: a complete member of the list, and — the
/// list being sorted — the one every other complete member sits below.
pub proof fn lemma_last_complete_newest(s: Seq<ObjectVersionModel>)
    requires
        crate::merge_list::sorted_unique(s),
    ensures
        last_complete(s) is None ==> forall|i: int| 0 <= i < s.len() ==> !(
        #[trigger] s[i]).is_complete,
        last_complete(s) is Some ==> {
            let v = last_complete(s)->Some_0;
            &&& exists|i: int| 0 <= i < s.len() && s[i] == v
            &&& v.is_complete
            &&& forall|i: int| 0 <= i < s.len() && (#[trigger] s[i]).is_complete ==> s[i] == v
                || key_lt(s[i].mkey(), v.mkey())
        },
    decreases s.len(),
{
    if s.len() > 0 {
        assert forall|i: int, j: int| 0 <= i < j < s.drop_last().len() implies key_lt(
            #[trigger] s.drop_last()[i].mkey(),
            #[trigger] s.drop_last()[j].mkey(),
        ) by {
            assert(s.drop_last()[i] == s[i]);
            assert(s.drop_last()[j] == s[j]);
        }
        lemma_last_complete_newest(s.drop_last());
        if s.last().is_complete {
            let v = s.last();
            assert(s[s.len() - 1] == v);
            assert forall|i: int| 0 <= i < s.len() && (#[trigger] s[i]).is_complete implies s[i]
                == v || key_lt(s[i].mkey(), v.mkey()) by {
                if i < s.len() - 1 {
                    assert(key_lt(s[i].mkey(), s[s.len() - 1].mkey()));
                }
            }
        } else {
            if last_complete(s) is Some {
                let v = last_complete(s)->Some_0;
                let w = choose|i: int| 0 <= i < s.drop_last().len() && s.drop_last()[i] == v;
                assert(s[w] == v);
                assert forall|i: int| 0 <= i < s.len() && (#[trigger] s[i]).is_complete implies s[i]
                    == v || key_lt(s[i].mkey(), v.mkey()) by {
                    if i < s.len() - 1 {
                        assert(s.drop_last()[i] == s[i]);
                    }
                }
            } else {
                assert forall|i: int| 0 <= i < s.len() implies !(#[trigger] s[i]).is_complete by {
                    if i < s.len() - 1 {
                        assert(s.drop_last()[i] == s[i]);
                    }
                }
            }
        }
    }
}

impl Object {
    /// The newest complete version: the last complete entry of the sorted
    /// list, hence the one with the greatest timestamp, ties broken by the
    /// greater identifier. `None` when no version is complete — an object
    /// mid-upload is invisible to readers.
    pub fn last_complete_version(&self) -> (r: Option<&ObjectVersion>)
        ensures
            match r {
                Some(v) => last_complete(self.deep_view().versions) == Some(v.deep_view()),
                None => last_complete(self.deep_view().versions) is None,
            },
    {
        let ghost s = self.deep_view().versions;
        let mut i: usize = self.versions.len();
        proof {
            assert(s.take(i as int) =~= s);
        }
        while i > 0
            invariant
                i <= self.versions.len(),
                s == self.deep_view().versions,
                s.len() == self.versions@.len(),
                last_complete(s) == last_complete(s.take(i as int)),
            decreases i,
        {
            proof {
                assert(s.take(i as int).len() == i);
                assert(s.take(i as int).last() == s[i - 1]);
                assert(s.take(i as int).drop_last() =~= s.take(i as int - 1));
            }
            if self.versions[i - 1].is_complete {
                return Some(&self.versions[i - 1]);
            }
            i = i - 1;
        }
        proof {
            assert(s.take(0) =~= Seq::<ObjectVersionModel>::empty());
        }
        None
    }

    /// The partition key: the bucket.
    pub fn partition_key(&self) -> (r: &String)
        ensures
            r.deep_view() == self.deep_view().bucket,
    {
        &self.bucket
    }

    /// The sort key: the object key.
    pub fn sort_key(&self) -> (r: &String)
        ensures
            r.deep_view() == self.deep_view().key,
    {
        &self.key
    }
}

} // verus!
