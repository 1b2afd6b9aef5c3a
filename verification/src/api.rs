//! The decision logic of the API: parsing a request into an action, the PUT
//! pipeline that turns body chunks into block writes and version rows, the
//! GET pipeline that picks the version to serve, and the integrity checks on
//! block transfer. All I/O — the HTTP server, the RPC fabric, the block
//! store — stays outside; these functions take the values those produce and
//! say exactly what to do with them.

use vstd::prelude::*;
use crate::chunker::concat_bytes;
use crate::crdt::CRDT;
use crate::data::digest_of;
use crate::data::hash;
use crate::data::UUID;
use crate::error::CommonError;
use crate::error::Error;
use crate::object_table::dup_bytes;
use crate::object_table::last_complete;
use crate::object_table::Object;
use crate::object_table::ObjectVersion;
use crate::object_table::ObjectVersionData;
use crate::object_table::ObjectVersionModel;
use crate::object_table::DataModel;
use crate::version_table::Version;
use crate::version_table::VersionBlockModel;
use crate::version_table::VersionModel;

verus! {

/// A block offered for storage: its content hash and its bytes.
pub struct PutBlockMessage {
    pub hash: crate::data::Hash,
    pub data: Vec<u8>,
}

/// A message between storage nodes.
pub enum Message {
    /// Acknowledgment of a write.
    Ack,
    /// A failure, with its description.
    Failure(String),
    /// Store this block — also the reply that carries a block back.
    PutBlock(PutBlockMessage),
    /// Read the block stored under this hash.
    GetBlock(crate::data::Hash),
}

/// The write quorum for a replication factor: a majority of the replicas,
/// the ceiling of half of one more than the factor.
pub fn write_quorum(replication_factor: usize) -> (r: usize)
    requires
        replication_factor < usize::MAX - 1,
    ensures
        r == (replication_factor + 2) / 2,
        2 * r >= replication_factor + 1,
{
    (replication_factor + 2) / 2
}

/// Whether a block offered for storage under `h` really digests to `h`. A
/// receiver acknowledges a block only if this holds, so every stored block
/// satisfies content integrity.
pub fn check_put_block(h: &crate::data::Hash, data: &Vec<u8>) -> (r: bool)
    ensures
        r == (digest_of(data@) == h@),
{
    let d = hash(data.as_slice());
    d.equals(h)
}

/// Whether a reply carries a block whose bytes digest to `h`.
pub open spec fn is_valid_block_reply(m: Message, h: Seq<u8>) -> bool {
    match m {
        Message::PutBlock(pbm) => digest_of(pbm.data@) == h,
        _ => false,
    }
}

/// The bytes a block reply carries.
pub open spec fn reply_payload(m: Message) -> Seq<u8> {
    match m {
        Message::PutBlock(pbm) => pbm.data@,
        _ => Seq::empty(),
    }
}

/// The first reply whose payload digests to `h`; every other reply is
/// discarded, so one correct replica suffices and a corrupted reply can
/// never be served.
pub fn select_valid_block(h: &crate::data::Hash, replies: &Vec<Message>) -> (r: Result<
    Vec<u8>,
    Error,
>)
    ensures
        match r {
            Ok(data) => {
                &&& digest_of(data@) == h@
                &&& exists|i: int|
                    {
                        &&& 0 <= i < replies@.len()
                        &&& is_valid_block_reply(#[trigger] replies@[i], h@)
                        &&& data@ == reply_payload(replies@[i])
                        &&& forall|j: int| 0 <= j < i ==> !is_valid_block_reply(
                            #[trigger] replies@[j],
                            h@,
                        )
                    }
            },
            Err(e) => {
                &&& forall|i: int|
                    0 <= i < replies@.len() ==> !is_valid_block_reply(#[trigger] replies@[i], h@)
                &&& e matches Error::CommonError(CommonError::InternalError(m)) && m@
                    == "No valid blocks returned"@
            },
        },
{
    let mut i: usize = 0;
    while i < replies.len()
        invariant
            i <= replies@.len(),
            forall|j: int| 0 <= j < i ==> !is_valid_block_reply(#[trigger] replies@[j], h@),
        decreases replies@.len() - i,
    {
        match &replies[i] {
            Message::PutBlock(pbm) => {
                if check_put_block(h, &pbm.data) {
                    let data = dup_bytes(&pbm.data);
                    proof {
                        assert(is_valid_block_reply(replies@[i as int], h@));
                    }
                    return Ok(data);
                }
            },
            _ => {},
        }
        i = i + 1;
    }
    proof {
        reveal_strlit("No valid blocks returned");
    }
    Err(Error::internal_error(String::from_str("No valid blocks returned")))
}

/// The lowercase form of a string.
pub uninterp spec fn lower_of(s: Seq<char>) -> Seq<char>;

/// Relies on str::to_lowercase: the result is a function of the characters
/// alone.
#[verifier::external_body]
fn to_lowercase(s: &str) -> (r: String)
    ensures
        r@ == lower_of(s@),
{
    s.to_lowercase()
}

/// The HTTP method of a request, as far as this API distinguishes them.
pub enum HttpMethod {
    Get,
    Put,
    Other,
}

/// A request the API acts on.
pub enum ApiRequest {
    /// Read the object at `key` in `bucket`.
    Get { bucket: String, key: String },
    /// Store the request body at `key` in `bucket`.
    Put { bucket: String, key: String, mime_type: String },
}

/// Parse the request line into an action: the bucket is the `Host` header
/// lowercased, the key is the path; a missing host or an unsupported method
/// is a bad request; a PUT without a declared content type stores `blob`.
pub fn parse_api_request(
    method: &HttpMethod,
    host: Option<String>,
    path: String,
    content_type: Option<String>,
) -> (r: Result<ApiRequest, Error>)
    ensures
        host is None ==> (r matches Err(Error::CommonError(CommonError::BadRequest(m))) && m@
            == "Host: header missing"@),
        host is Some && method is Get ==> (r matches Ok(ApiRequest::Get { bucket, key })
            && bucket@ == lower_of(host->Some_0@) && key@ == path@),
        host is Some && method is Put ==> (r matches Ok(
            ApiRequest::Put { bucket, key, mime_type },
        ) && bucket@ == lower_of(host->Some_0@) && key@ == path@ && (content_type is Some
            ==> mime_type@ == content_type->Some_0@) && (content_type is None ==> mime_type@
            == "blob"@)),
        host is Some && method is Other ==> (r matches Err(
            Error::CommonError(CommonError::BadRequest(m)),
        ) && m@ == "Invalid method"@),
{
    let h = match host {
        Some(h) => h,
        None => {
            proof {
                reveal_strlit("Host: header missing");
            }
            return Err(Error::bad_request(String::from_str("Host: header missing")));
        },
    };
    let bucket = to_lowercase(h.as_str());
    match method {
        HttpMethod::Get => Ok(ApiRequest::Get { bucket, key: path }),
        HttpMethod::Put => {
            let mime_type = match content_type {
                Some(c) => c,
                None => {
                    proof {
                        reveal_strlit("blob");
                    }
                    String::from_str("blob")
                },
            };
            Ok(ApiRequest::Put { bucket, key: path, mime_type })
        },
        HttpMethod::Other => {
            proof {
                reveal_strlit("Invalid method");
            }
            Err(Error::bad_request(String::from_str("Invalid method")))
        },
    }
}

/// The running state of a chunked PUT: the base version row the block list
/// grows under, the offset the next block starts at, and — as a model — the
/// payloads handed to the block layer so far.
pub struct PutPipeline {
    version: Version,
    next_offset: u64,
    sent: Ghost<Seq<Seq<u8>>>,
}

impl PutPipeline {
    /// The payloads handed to the block layer so far, in offset order.
    pub closed spec fn sent_blocks(&self) -> Seq<Seq<u8>> {
        self.sent@
    }

    /// The offset the next block starts at.
    pub closed spec fn next_off(&self) -> int {
        self.next_offset as int
    }

    /// The base version row: identity and name, an empty block list.
    pub closed spec fn base(&self) -> VersionModel {
        self.version.deep_view()
    }

    /// The offset the next block will start at, as a value: the bytes sent
    /// so far.
    pub fn offset(&self) -> (r: u64)
        ensures
            r as int == self.next_off(),
    {
        self.next_offset
    }

    /// The next offset is exactly the bytes sent so far.
    pub closed spec fn inv(&self) -> bool {
        &&& self.base().blocks.len() == 0
        &&& self.next_offset as int == concat_bytes(self.sent@).len()
    }

    /// The row that records the block now being written: the base version
    /// carrying the single entry `(next_offset, hash)`. Offsets are the
    /// running sum of the payload lengths, so the recorded chain reassembles
    /// the body in order.
    pub fn step(&mut self, block: Vec<u8>) -> (r: (PutBlockMessage, Version))
        requires
            old(self).inv(),
            block@.len() > 0,
            old(self).next_off() + block@.len() <= u64::MAX,
        ensures
            final(self).inv(),
            final(self).sent_blocks() == old(self).sent_blocks().push(block@),
            final(self).next_off() == old(self).next_off() + block@.len(),
            final(self).base() == old(self).base(),
            r.0.hash@ == digest_of(block@),
            r.0.data@ == block@,
            Version::inv(r.1.deep_view()),
            r.1.deep_view() == (VersionModel {
                blocks: seq![
                    VersionBlockModel { offset: old(self).next_off(), hash: digest_of(block@) },
                ],
                ..old(self).base()
            }),
    {
        let block_hash = hash(block.as_slice());
        let row = self.version.with_block(self.next_offset, &block_hash);
        let len = block.len();
        let msg = PutBlockMessage { hash: block_hash, data: block };
        proof {
            crate::chunker::lemma_concat_push(self.sent@, msg.data@);
            self.sent@ = self.sent@.push(msg.data@);
        }
        self.next_offset = self.next_offset + len as u64;
        (msg, row)
    }

    /// The completed object: the stub's single version promoted to complete,
    /// its size the total bytes sent. Merging this into the stored object
    /// flips the version to complete on every replica.
    pub fn finish(&self, object: &Object) -> (r: Object)
        requires
            self.inv(),
            object.deep_view().versions.len() == 1,
        ensures
            Object::inv(r.deep_view()),
            r.deep_view().bucket == object.deep_view().bucket,
            r.deep_view().key == object.deep_view().key,
            r.deep_view().versions == seq![
                ObjectVersionModel {
                    is_complete: true,
                    size: self.next_off(),
                    ..object.deep_view().versions[0]
                },
            ],
    {
        let v = &object.versions[0];
        let done = ObjectVersion {
            uuid: v.uuid,
            timestamp: v.timestamp,
            mime_type: v.mime_type.clone(),
            size: self.next_offset,
            is_complete: true,
            data: v.data.dup(),
        };
        let mut versions: Vec<ObjectVersion> = Vec::new();
        versions.push(done);
        let r = Object { bucket: object.bucket.clone(), key: object.key.clone(), versions };
        proof {
            assert(r.deep_view().versions =~= seq![
                ObjectVersionModel {
                    is_complete: true,
                    size: self.next_off(),
                    ..object.deep_view().versions[0]
                },
            ]);
        }
        r
    }
}

/// How a PUT proceeds after its first chunk.
pub enum PutStart {
    /// The whole body fits under the inline threshold: one complete object
    /// row, nothing for the block layer.
    Inline(Object),
    /// The body goes through the block layer: an incomplete stub object
    /// advertising the chain root, the first block write with its version
    /// row, and the pipeline state for the chunks that follow.
    Chunked {
        object: Object,
        pipeline: PutPipeline,
        first_block: PutBlockMessage,
        first_row: Version,
    },
}

/// Decide a PUT from its first chunk. An empty body is rejected. A first
/// chunk under the inline threshold, with no bytes behind it in the stream,
/// is stored inline, complete at once. Anything else becomes a chunked
/// upload: the stub object is written first, incomplete, so a reader never
/// sees a truncated chain.
pub fn put_begin(
    bucket: String,
    key: String,
    mime_type: String,
    uuid: UUID,
    timestamp: u64,
    first: Option<Vec<u8>>,
    body_exhausted: bool,
    inline_threshold: usize,
) -> (r: Result<PutStart, Error>)
    requires
        first matches Some(b) ==> b@.len() <= u64::MAX,
    ensures
        first is None ==> (r matches Err(Error::CommonError(CommonError::BadRequest(m))) && m@
            == "Empty body"@),
        first matches Some(b) ==> b@.len() < inline_threshold && body_exhausted ==> (r matches Ok(PutStart::Inline(o))
            && Object::inv(o.deep_view()) && o.deep_view() == crate::object_table::ObjectModel {
            bucket: bucket@,
            key: key@,
            versions: seq![
                ObjectVersionModel {
                    uuid: uuid@,
                    timestamp: timestamp as int,
                    mime_type: mime_type@,
                    size: b@.len() as int,
                    is_complete: true,
                    data: DataModel::Inline(b@),
                },
            ],
        }),
        first matches Some(b) ==> b@.len() >= inline_threshold || !body_exhausted ==> (r matches Ok(
            PutStart::Chunked { object, pipeline, first_block, first_row },
        ) && {
            &&& Object::inv(object.deep_view())
            &&& object.deep_view() == crate::object_table::ObjectModel {
                bucket: bucket@,
                key: key@,
                versions: seq![
                    ObjectVersionModel {
                        uuid: uuid@,
                        timestamp: timestamp as int,
                        mime_type: mime_type@,
                        size: b@.len() as int,
                        is_complete: false,
                        data: DataModel::FirstBlock(digest_of(b@)),
                    },
                ],
            }
            &&& pipeline.inv()
            &&& pipeline.sent_blocks() == seq![b@]
            &&& pipeline.next_off() == b@.len()
            &&& pipeline.base() == (VersionModel {
                version: uuid@,
                deleted: false,
                blocks: Seq::empty(),
                bucket: bucket@,
                key: key@,
            })
            &&& first_block.hash@ == digest_of(b@)
            &&& first_block.data@ == b@
            &&& Version::inv(first_row.deep_view())
            &&& first_row.deep_view() == (VersionModel {
                version: uuid@,
                deleted: false,
                blocks: seq![VersionBlockModel { offset: 0, hash: digest_of(b@) }],
                bucket: bucket@,
                key: key@,
            })
        }),
{
    let first_block = match first {
        Some(b) => b,
        None => {
            proof {
                reveal_strlit("Empty body");
            }
            return Err(Error::bad_request(String::from_str("Empty body")));
        },
    };
    proof {
        assert(first_block.deep_view() =~= first_block@);
    }
    if first_block.len() < inline_threshold && body_exhausted {
        let size = first_block.len() as u64;
        let version = ObjectVersion {
            uuid,
            timestamp,
            mime_type,
            size,
            is_complete: true,
            data: ObjectVersionData::Inline(first_block),
        };
        let mut versions: Vec<ObjectVersion> = Vec::new();
        versions.push(version);
        let o = Object { bucket, key, versions };
        proof {
            assert(o.deep_view().versions =~= seq![o.deep_view().versions[0]]);
        }
        return Ok(PutStart::Inline(o));
    }
    let first_hash = hash(first_block.as_slice());
    let size = first_block.len() as u64;
    let version = ObjectVersion {
        uuid,
        timestamp,
        mime_type,
        size,
        is_complete: false,
        data: ObjectVersionData::FirstBlock(first_hash),
    };
    let mut versions: Vec<ObjectVersion> = Vec::new();
    versions.push(version);
    let object = Object { bucket: bucket.clone(), key: key.clone(), versions };
    let base = Version::new(uuid, bucket, key);
    let first_row = base.with_block(0, &first_hash);
    let first_msg = PutBlockMessage { hash: first_hash, data: first_block };
    let mut pipeline = PutPipeline { version: base, next_offset: size, sent: Ghost(Seq::empty()) };
    proof {
        pipeline.sent@ = seq![first_msg.data@];
        assert(object.deep_view().versions =~= seq![object.deep_view().versions[0]]);
        assert(pipeline.base().blocks =~= Seq::<VersionBlockModel>::empty());
        assert(concat_bytes(pipeline.sent@) =~= first_msg.data@) by {
            assert(pipeline.sent@[0] == first_msg.data@);
            assert(concat_bytes(pipeline.sent@) == pipeline.sent@[0] + concat_bytes(
                pipeline.sent@.drop_first(),
            ));
            assert(pipeline.sent@.drop_first() =~= Seq::<Seq<u8>>::empty());
            assert(concat_bytes(Seq::<Seq<u8>>::empty()) =~= Seq::<u8>::empty());
            assert(first_msg.data@ + Seq::<u8>::empty() =~= first_msg.data@);
        }
    }
    Ok(PutStart::Chunked { object, pipeline, first_block: first_msg, first_row })
}

/// How a GET proceeds once the object row is in hand.
pub enum GetPlan {
    /// Serve the embedded bytes.
    Inline { mime_type: String, body: Vec<u8> },
    /// Fetch the chain: the first block by its root hash, the rest from the
    /// version row under `uuid`.
    Blocks { mime_type: String, uuid: UUID, first_hash: crate::data::Hash },
}

/// Decide a GET from the object row: no row, no complete version, or a
/// delete marker is `NoSuchKey`; otherwise serve the newest complete
/// version, inline or through the block layer.
pub fn get_dispatch(object: Option<Object>) -> (r: Result<GetPlan, Error>)
    requires
        object matches Some(o) ==> Object::inv(o.deep_view()),
    ensures
        object is None ==> (r matches Err(Error::NoSuchKey)),
        object matches Some(o) ==> match last_complete(o.deep_view().versions) {
            None => r matches Err(Error::NoSuchKey),
            Some(v) => match v.data {
                DataModel::DeleteMarker => r matches Err(Error::NoSuchKey),
                DataModel::Inline(b) => r matches Ok(GetPlan::Inline { mime_type, body })
                    && mime_type@ == v.mime_type && body@ == b,
                DataModel::FirstBlock(h) => r matches Ok(
                    GetPlan::Blocks { mime_type, uuid, first_hash },
                ) && mime_type@ == v.mime_type && uuid@ == v.uuid && first_hash@ == h,
            },
        },
{
    let o = match object {
        Some(o) => o,
        None => {
            return Err(Error::NoSuchKey);
        },
    };
    let last = match o.last_complete_version() {
        Some(v) => v,
        None => {
            return Err(Error::NoSuchKey);
        },
    };
    match &last.data {
        ObjectVersionData::DeleteMarker => Err(Error::NoSuchKey),
        ObjectVersionData::Inline(b) => {
            Ok(GetPlan::Inline { mime_type: last.mime_type.clone(), body: dup_bytes(b) })
        },
        ObjectVersionData::FirstBlock(h) => {
            Ok(
                GetPlan::Blocks {
                    mime_type: last.mime_type.clone(),
                    uuid: last.uuid,
                    first_hash: *h,
                },
            )
        },
    }
}

/// The hashes of a version's chain, in offset order: what a GET fetches
/// block by block. A missing version row while the object points at a chain
/// means the version is unrecoverable: `NoSuchKey`.
pub fn block_chain_hashes(version: Option<Version>) -> (r: Result<Vec<crate::data::Hash>, Error>)
    ensures
        match r {
            Err(e) => version is None && e matches Error::NoSuchKey,
            Ok(hashes) => version matches Some(v) && hashes@.len() == v.deep_view().blocks.len()
                && forall|i: int| 0 <= i < hashes@.len() ==> (#[trigger] hashes@[i])@
                == v.deep_view().blocks[i].hash,
        },
{
    let v = match version {
        Some(v) => v,
        None => {
            return Err(Error::NoSuchKey);
        },
    };
    let mut hashes: Vec<crate::data::Hash> = Vec::new();
    let mut i: usize = 0;
    while i < v.blocks.len()
        invariant
            i <= v.blocks@.len(),
            hashes@.len() == i,
            forall|j: int| 0 <= j < i ==> (#[trigger] hashes@[j])@ == v.deep_view().blocks[j].hash,
        decreases v.blocks@.len() - i,
    {
        hashes.push(v.blocks[i].hash);
        i = i + 1;
    }
    Ok(hashes)
}

} // verus!
