use garage_core::crdt::CRDT;
use garage_core::object_table::Object;
use garage_core::object_table::ObjectVersion;
use garage_core::object_table::ObjectVersionData;
use garage_core::object_table::version_lt;
use garage_core::version_table::Version;

fn uuid(last: u8) -> garage_core::data::UUID {
    let mut bytes = [0u8; 32];
    bytes[31] = last;
    garage_core::data::UUID { bytes }
}

fn version(u: u8, ts: u64, complete: bool, data: ObjectVersionData) -> ObjectVersion {
    ObjectVersion {
        uuid: uuid(u),
        timestamp: ts,
        mime_type: String::from("text/plain"),
        size: 3,
        is_complete: complete,
        data,
    }
}

fn object(versions: Vec<ObjectVersion>) -> Object {
    Object { bucket: String::from("b"), key: String::from("k"), versions }
}

#[test]
fn concurrent_puts_keep_both_versions() {
    let mut o1 = object(vec![version(1, 100, true, ObjectVersionData::Inline(vec![1]))]);
    let o2 = object(vec![version(2, 200, true, ObjectVersionData::Inline(vec![2]))]);
    o1.merge(&o2);
    assert_eq!(o1.versions.len(), 2);
    // the reader picks the one with the larger (timestamp, uuid)
    let newest = o1.last_complete_version().unwrap();
    assert_eq!(newest.timestamp, 200);
    assert_eq!(newest.uuid.bytes[31], 2);
}

#[test]
fn timestamp_tie_breaks_on_identifier() {
    let mut o1 = object(vec![version(9, 100, true, ObjectVersionData::Inline(vec![1]))]);
    let o2 = object(vec![version(3, 100, true, ObjectVersionData::Inline(vec![2]))]);
    o1.merge(&o2);
    assert_eq!(o1.versions.len(), 2);
    let newest = o1.last_complete_version().unwrap();
    assert_eq!(newest.uuid.bytes[31], 9);
}

#[test]
fn incomplete_versions_are_invisible() {
    let o = object(vec![version(1, 100, false, ObjectVersionData::DeleteMarker)]);
    assert!(o.last_complete_version().is_none());
    let o2 = object(vec![
        version(1, 100, true, ObjectVersionData::Inline(vec![1])),
        version(2, 200, false, ObjectVersionData::DeleteMarker),
    ]);
    let newest = o2.last_complete_version().unwrap();
    assert_eq!(newest.timestamp, 100);
}

#[test]
fn completeness_is_monotone_under_merge() {
    // the same version, incomplete on one replica and complete on another:
    // whatever the merge order, the result is complete
    let incomplete = version(1, 100, false, ObjectVersionData::Inline(vec![1]));
    let complete = version(1, 100, true, ObjectVersionData::Inline(vec![1]));
    let mut a = object(vec![incomplete]);
    let b = object(vec![complete]);
    a.merge(&b);
    assert_eq!(a.versions.len(), 1);
    assert!(a.versions[0].is_complete);
    // and merging the incomplete copy back cannot revert it
    let incomplete_again = object(vec![version(1, 100, false, ObjectVersionData::Inline(vec![1]))]);
    a.merge(&incomplete_again);
    assert_eq!(a.versions.len(), 1);
    assert!(a.versions[0].is_complete);
}

#[test]
fn merge_is_idempotent_on_objects() {
    let mut a = object(vec![version(1, 100, true, ObjectVersionData::Inline(vec![1]))]);
    let copy = a.dup();
    a.merge(&copy);
    assert_eq!(a.versions.len(), 1);
}

#[test]
fn delete_marker_dominates_only_completed_versions() {
    // an in-flight upload survives a racing delete of the same version
    let upload = version(1, 100, false, ObjectVersionData::FirstBlock(garage_core::data::hash(b"x")));
    let marker = version(1, 100, false, ObjectVersionData::DeleteMarker);
    assert!(version_lt(&marker, &upload));
    // once completed, the delete marker wins
    let done = version(1, 100, true, ObjectVersionData::FirstBlock(garage_core::data::hash(b"x")));
    let tomb = version(1, 100, true, ObjectVersionData::DeleteMarker);
    assert!(version_lt(&done, &tomb));
}

#[test]
fn version_order_puts_completeness_first() {
    let a = version(1, 999, false, ObjectVersionData::Inline(vec![9]));
    let b = version(1, 100, true, ObjectVersionData::Inline(vec![1]));
    assert!(version_lt(&a, &b));
    assert!(!version_lt(&b, &a));
    assert!(!version_lt(&a, &a));
}

#[test]
fn version_rows_union_their_blocks() {
    let base = Version::new(uuid(1), String::from("b"), String::from("k"));
    let h0 = garage_core::data::hash(b"block zero");
    let h1 = garage_core::data::hash(b"block one");
    let mut row0 = base.with_block(0, &h0);
    let row1 = base.with_block(1024, &h1);
    row0.merge(&row1);
    assert_eq!(row0.blocks.len(), 2);
    assert_eq!(row0.blocks[0].offset, 0);
    assert_eq!(row0.blocks[1].offset, 1024);
    assert_eq!(row0.blocks[0].hash.bytes, h0.bytes);
    assert_eq!(row0.blocks[1].hash.bytes, h1.bytes);
    // merging the same row again adds nothing
    let again = base.with_block(1024, &h1);
    row0.merge(&again);
    assert_eq!(row0.blocks.len(), 2);
}

#[test]
fn object_keys_are_bucket_and_key() {
    let o = object(Vec::new());
    assert_eq!(o.partition_key(), "b");
    assert_eq!(o.sort_key(), "k");
}
