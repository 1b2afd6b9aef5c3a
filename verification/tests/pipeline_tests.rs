use garage_core::api::ApiRequest;
use garage_core::api::GetPlan;
use garage_core::api::HttpMethod;
use garage_core::api::Message;
use garage_core::api::PutBlockMessage;
use garage_core::api::PutStart;
use garage_core::api::block_chain_hashes;
use garage_core::api::check_put_block;
use garage_core::api::get_dispatch;
use garage_core::api::parse_api_request;
use garage_core::api::put_begin;
use garage_core::api::select_valid_block;
use garage_core::api::write_quorum;
use garage_core::chunker::Chunker;
use garage_core::crdt::CRDT;
use garage_core::error::CommonError;
use garage_core::error::Error;
use garage_core::object_table::Object;
use garage_core::object_table::ObjectVersion;
use garage_core::object_table::ObjectVersionData;

const MIB: usize = 1048576;

fn gather(chunker: &mut Chunker, body: &[u8]) -> Vec<Vec<u8>> {
    chunker.feed(body);
    chunker.end_input();
    let mut out = Vec::new();
    while let Some(c) = chunker.next_chunk() {
        out.push(c);
    }
    out
}

#[test]
fn chunker_splits_and_reassembles() {
    let body: Vec<u8> = (0..2500u32).map(|i| (i % 251) as u8).collect();
    let mut chunker = Chunker::new(1000);
    let chunks = gather(&mut chunker, &body);
    assert_eq!(chunks.len(), 3);
    assert_eq!(chunks[0].len(), 1000);
    assert_eq!(chunks[1].len(), 1000);
    assert_eq!(chunks[2].len(), 500);
    let rebuilt: Vec<u8> = chunks.concat();
    assert_eq!(rebuilt, body);
}

#[test]
fn chunker_on_exact_multiple() {
    let body = vec![7u8; 2000];
    let mut chunker = Chunker::new(1000);
    let chunks = gather(&mut chunker, &body);
    assert_eq!(chunks.len(), 2);
    assert_eq!(chunks[0].len(), 1000);
    assert_eq!(chunks[1].len(), 1000);
}

#[test]
fn chunker_on_empty_body() {
    let mut chunker = Chunker::new(1000);
    let chunks = gather(&mut chunker, b"");
    assert_eq!(chunks.len(), 0);
}

#[test]
fn chunker_streams_incrementally() {
    let mut chunker = Chunker::new(4);
    chunker.feed(b"abc");
    assert!(chunker.needs_input());
    chunker.feed(b"defg");
    assert!(!chunker.needs_input());
    let c1 = chunker.next_chunk().unwrap();
    assert_eq!(c1, b"abcd");
    chunker.end_input();
    let c2 = chunker.next_chunk().unwrap();
    assert_eq!(c2, b"efg");
    assert!(chunker.next_chunk().is_none());
}

#[test]
fn empty_body_is_a_bad_request() {
    let r = put_begin(
        String::from("b"),
        String::from("k"),
        String::from("blob"),
        garage_core::data::gen_uuid(),
        garage_core::data::now_msec(),
        None,
        true,
        MIB,
    );
    match r {
        Err(e) => {
            assert_eq!(e.aws_code(), "InvalidRequest");
            assert_eq!(e.http_status_code(), 400);
            match e {
                Error::CommonError(CommonError::BadRequest(m)) => assert_eq!(m, "Empty body"),
                _ => panic!("wrong error"),
            }
        },
        Ok(_) => panic!("empty body accepted"),
    }
}

#[test]
fn small_body_is_stored_inline_and_complete() {
    let body = vec![5u8; 100];
    let r = put_begin(
        String::from("b"),
        String::from("k"),
        String::from("blob"),
        garage_core::data::gen_uuid(),
        42,
        Some(body.clone()),
        true,
        MIB,
    );
    match r {
        Ok(PutStart::Inline(o)) => {
            assert_eq!(o.versions.len(), 1);
            let v = &o.versions[0];
            assert!(v.is_complete);
            assert_eq!(v.size, 100);
            match &v.data {
                ObjectVersionData::Inline(b) => assert_eq!(b, &body),
                _ => panic!("not inline"),
            }
        },
        _ => panic!("not an inline put"),
    }
}

#[test]
fn large_body_splits_into_offset_blocks() {
    // 2.5 MiB body, 1 MiB blocks: three blocks, offsets 0, 1 MiB, 2 MiB
    let body: Vec<u8> = (0..(2 * MIB + MIB / 2)).map(|i| (i % 255) as u8).collect();
    let mut chunker = Chunker::new(MIB);
    let mut chunks = gather(&mut chunker, &body).into_iter();
    let first = chunker_first(&mut chunks);
    let r = put_begin(
        String::from("b"),
        String::from("k"),
        String::from("blob"),
        garage_core::data::gen_uuid(),
        42,
        Some(first),
        false,
        MIB,
    );
    let (object, mut pipeline, first_block, first_row) = match r {
        Ok(PutStart::Chunked { object, pipeline, first_block, first_row }) => {
            (object, pipeline, first_block, first_row)
        },
        _ => panic!("not a chunked put"),
    };
    assert!(!object.versions[0].is_complete);
    assert_eq!(first_block.data.len(), MIB);
    assert_eq!(first_row.blocks.len(), 1);
    assert_eq!(first_row.blocks[0].offset, 0);

    let mut stored: Vec<Vec<u8>> = vec![first_block.data];
    let mut offsets: Vec<u64> = vec![first_row.blocks[0].offset];
    for chunk in chunks {
        let (msg, row) = pipeline.step(chunk);
        assert_eq!(
            garage_core::data::hash(&msg.data).bytes,
            msg.hash.bytes,
        );
        offsets.push(row.blocks[0].offset);
        stored.push(msg.data);
    }
    assert_eq!(offsets, vec![0, 1048576, 2097152]);
    assert_eq!(stored[0].len(), MIB);
    assert_eq!(stored[1].len(), MIB);
    assert_eq!(stored[2].len(), MIB / 2);

    let done = pipeline.finish(&object);
    assert!(done.versions[0].is_complete);
    assert_eq!(done.versions[0].size, 2621440);

    // the stored blocks reassemble the body
    let rebuilt: Vec<u8> = stored.concat();
    assert_eq!(rebuilt, body);
}

fn chunker_first(chunks: &mut std::vec::IntoIter<Vec<u8>>) -> Vec<u8> {
    chunks.next().expect("body was not empty")
}

#[test]
fn get_on_missing_object_is_not_found() {
    match get_dispatch(None) {
        Err(Error::NoSuchKey) => {},
        _ => panic!("expected NoSuchKey"),
    }
}

#[test]
fn get_on_delete_marker_is_not_found() {
    let o = Object {
        bucket: String::from("b"),
        key: String::from("k"),
        versions: vec![ObjectVersion {
            uuid: garage_core::data::gen_uuid(),
            timestamp: 10,
            mime_type: String::from("text/plain"),
            size: 0,
            is_complete: true,
            data: ObjectVersionData::DeleteMarker,
        }],
    };
    match get_dispatch(Some(o)) {
        Err(e) => {
            assert_eq!(e.http_status_code(), 404);
            assert_eq!(e.aws_code(), "NoSuchKey");
        },
        Ok(_) => panic!("delete marker served"),
    }
}

#[test]
fn get_serves_inline_bytes() {
    let o = Object {
        bucket: String::from("b"),
        key: String::from("k"),
        versions: vec![ObjectVersion {
            uuid: garage_core::data::gen_uuid(),
            timestamp: 10,
            mime_type: String::from("text/plain"),
            size: 3,
            is_complete: true,
            data: ObjectVersionData::Inline(vec![1, 2, 3]),
        }],
    };
    match get_dispatch(Some(o)) {
        Ok(GetPlan::Inline { mime_type, body }) => {
            assert_eq!(mime_type, "text/plain");
            assert_eq!(body, vec![1, 2, 3]);
        },
        _ => panic!("expected inline plan"),
    }
}

#[test]
fn get_block_takes_first_valid_reply() {
    let good = b"correct block contents".to_vec();
    let h = garage_core::data::hash(&good);
    let corrupt = b"corrupted block bytes!".to_vec();
    let replies = vec![
        Message::Ack,
        Message::PutBlock(PutBlockMessage { hash: h, data: corrupt }),
        Message::PutBlock(PutBlockMessage { hash: h, data: good.clone() }),
    ];
    let got = select_valid_block(&h, &replies).unwrap();
    assert_eq!(got, good);
    // and the block handed back digests to the requested hash
    assert_eq!(garage_core::data::hash(&got).bytes, h.bytes);
}

#[test]
fn get_block_fails_when_no_reply_is_valid() {
    let good = b"some block".to_vec();
    let h = garage_core::data::hash(&good);
    let replies = vec![
        Message::Failure(String::from("timeout")),
        Message::PutBlock(PutBlockMessage { hash: h, data: b"garbage".to_vec() }),
    ];
    match select_valid_block(&h, &replies) {
        Err(e) => {
            assert_eq!(e.aws_code(), "InternalError");
            assert_eq!(e.http_status_code(), 500);
        },
        Ok(_) => panic!("corrupt reply accepted"),
    }
}

#[test]
fn receivers_verify_blocks_before_storing() {
    let data = b"payload".to_vec();
    let h = garage_core::data::hash(&data);
    assert!(check_put_block(&h, &data));
    assert!(!check_put_block(&h, &b"tampered".to_vec()));
}

#[test]
fn block_chains_come_back_in_offset_order() {
    let base = garage_core::version_table::Version::new(
        garage_core::data::gen_uuid(),
        String::from("b"),
        String::from("k"),
    );
    let h0 = garage_core::data::hash(b"zero");
    let h1 = garage_core::data::hash(b"one");
    let mut row = base.with_block(0, &h0);
    let more = base.with_block(1024, &h1);
    row.merge(&more);
    let hashes = block_chain_hashes(Some(row)).unwrap();
    assert_eq!(hashes.len(), 2);
    assert_eq!(hashes[0].bytes, h0.bytes);
    assert_eq!(hashes[1].bytes, h1.bytes);
    match block_chain_hashes(None) {
        Err(Error::NoSuchKey) => {},
        _ => panic!("missing version row must be NoSuchKey"),
    }
}

#[test]
fn quorum_is_a_majority() {
    assert_eq!(write_quorum(1), 1);
    assert_eq!(write_quorum(2), 2);
    assert_eq!(write_quorum(3), 2);
    assert_eq!(write_quorum(4), 3);
    assert_eq!(write_quorum(5), 3);
    for r in 1..32usize {
        assert!(2 * write_quorum(r) > r);
    }
}

#[test]
fn requests_parse_into_actions() {
    let r = parse_api_request(
        &HttpMethod::Get,
        Some(String::from("MyBucket")),
        String::from("/photo.jpg"),
        None,
    );
    match r {
        Ok(ApiRequest::Get { bucket, key }) => {
            assert_eq!(bucket, "mybucket");
            assert_eq!(key, "/photo.jpg");
        },
        _ => panic!("expected a GET action"),
    }
    let r = parse_api_request(
        &HttpMethod::Put,
        Some(String::from("pics")),
        String::from("/a"),
        Some(String::from("image/png")),
    );
    match r {
        Ok(ApiRequest::Put { bucket, key, mime_type }) => {
            assert_eq!(bucket, "pics");
            assert_eq!(key, "/a");
            assert_eq!(mime_type, "image/png");
        },
        _ => panic!("expected a PUT action"),
    }
    let r = parse_api_request(&HttpMethod::Put, Some(String::from("pics")), String::from("/a"), None);
    match r {
        Ok(ApiRequest::Put { mime_type, .. }) => assert_eq!(mime_type, "blob"),
        _ => panic!("expected a PUT action"),
    }
}

#[test]
fn missing_host_and_bad_method_are_rejected() {
    match parse_api_request(&HttpMethod::Get, None, String::from("/a"), None) {
        Err(e) => assert_eq!(e.http_status_code(), 400),
        Ok(_) => panic!("missing host accepted"),
    }
    match parse_api_request(&HttpMethod::Other, Some(String::from("b")), String::from("/a"), None) {
        Err(e) => assert_eq!(e.http_status_code(), 400),
        Ok(_) => panic!("bad method accepted"),
    }
}

#[test]
fn digests_depend_on_content() {
    let h1 = garage_core::data::hash(b"one");
    let h2 = garage_core::data::hash(b"two");
    assert_ne!(h1.bytes, h2.bytes);
    assert!(h1.equals(&h1));
    assert!(!h1.equals(&h2));
    // a fresh uuid is fresh
    let u1 = garage_core::data::gen_uuid();
    let u2 = garage_core::data::gen_uuid();
    assert_ne!(u1.bytes, u2.bytes);
}

#[test]
fn error_codes_and_statuses() {
    let cases: Vec<(Error, &str, u16)> = vec![
        (Error::NoSuchKey, "NoSuchKey", 404),
        (Error::NoSuchUpload, "NoSuchUpload", 404),
        (Error::PreconditionFailed, "PreconditionFailed", 412),
        (Error::InvalidPart, "InvalidPart", 400),
        (Error::InvalidPartOrder, "InvalidPartOrder", 400),
        (Error::EntityTooSmall, "EntityTooSmall", 400),
        (Error::AuthorizationHeaderMalformed(String::from("x")), "AuthorizationHeaderMalformed", 400),
        (Error::NotImplemented(String::from("x")), "NotImplemented", 501),
        (Error::InvalidXml(String::from("x")), "MalformedXML", 400),
        (Error::InvalidRange(9), "InvalidRange", 416),
        (Error::InvalidUtf8Str(String::from("x")), "InvalidRequest", 400),
        (Error::InvalidUtf8String(String::from("x")), "InvalidRequest", 400),
        (Error::InvalidHeader(String::from("x")), "InvalidRequest", 400),
        (Error::bad_request(String::from("x")), "InvalidRequest", 400),
        (Error::internal_error(String::from("x")), "InternalError", 500),
    ];
    for (e, code, status) in cases {
        assert_eq!(e.aws_code(), code);
        assert_eq!(e.http_status_code(), status);
    }
}

#[test]
fn body_at_the_threshold_goes_through_blocks() {
    let threshold = garage_core::data::INLINE_THRESHOLD;
    let r = put_begin(
        String::from("b"),
        String::from("k"),
        String::from("blob"),
        garage_core::data::gen_uuid(),
        1,
        Some(vec![1u8; threshold]),
        true,
        threshold,
    );
    assert!(matches!(r, Ok(PutStart::Chunked { .. })));
    let r = put_begin(
        String::from("b"),
        String::from("k"),
        String::from("blob"),
        garage_core::data::gen_uuid(),
        1,
        Some(vec![1u8; threshold - 1]),
        true,
        threshold,
    );
    assert!(matches!(r, Ok(PutStart::Inline(_))));
}

#[test]
fn small_first_chunk_with_more_behind_is_not_inlined() {
    // a threshold above the block size makes the first chunk small even
    // though the body continues; the tail must go through the block layer
    let r = put_begin(
        String::from("b"),
        String::from("k"),
        String::from("blob"),
        garage_core::data::gen_uuid(),
        1,
        Some(vec![1u8; 100]),
        false,
        MIB,
    );
    assert!(matches!(r, Ok(PutStart::Chunked { .. })));
}
