use garage_core::crdt::CRDT;
use garage_core::key_table::DeletedFilter;
use garage_core::key_table::Key;
use garage_core::key_table::KeyTable;
use garage_core::key_table::OldBucketPermission;
use garage_core::key_table::OldKey;
use garage_core::key_table::PermissionSet;

fn key_with_bucket(name: &str, bucket: &str) -> Key {
    let mut k = Key::new(String::from(name));
    let row = k.authorized_buckets.update_mutator(
        String::from(bucket),
        PermissionSet { allow_read: true, allow_write: true },
    );
    k.authorized_buckets.merge(&row);
    k
}

#[test]
fn new_key_has_fresh_identifiers() {
    let k = Key::new(String::from("test"));
    assert_eq!(k.key_id.len(), 26);
    assert!(k.key_id.starts_with("GK"));
    assert_eq!(k.secret_key.len(), 64);
    assert!(!k.deleted.get());
    assert_eq!(k.authorized_buckets.items().len(), 0);
    let k2 = Key::new(String::from("test"));
    assert_ne!(k.key_id, k2.key_id);
    assert_ne!(k.secret_key, k2.secret_key);
}

#[test]
fn permissions_are_looked_up_per_bucket() {
    let k = key_with_bucket("n", "pics");
    assert!(k.allow_read("pics"));
    assert!(k.allow_write("pics"));
    assert!(!k.allow_read("docs"));
    assert!(!k.allow_write("docs"));
}

#[test]
fn deletion_empties_grants_in_every_merge() {
    let mut k = key_with_bucket("n", "pics");
    assert!(k.allow_read("pics"));
    let tomb = Key::delete(k.key_id.clone());
    k.merge(&tomb);
    assert!(k.deleted.get());
    assert_eq!(k.authorized_buckets.items().len(), 0);
    assert!(!k.allow_read("pics"));
    // any further merge keeps the grants empty and the tombstone set
    let other = key_with_bucket("m", "docs");
    k.merge(&other);
    assert!(k.deleted.get());
    assert_eq!(k.authorized_buckets.items().len(), 0);
}

#[test]
fn key_merge_is_idempotent() {
    let mut k = key_with_bucket("n", "pics");
    let copy = k.dup();
    k.merge(&copy);
    assert_eq!(k.authorized_buckets.items().len(), 1);
    assert!(k.allow_read("pics"));
}

#[test]
fn deleted_filter_applies() {
    assert!(DeletedFilter::Any.apply(true));
    assert!(DeletedFilter::Any.apply(false));
    assert!(DeletedFilter::Deleted.apply(true));
    assert!(!DeletedFilter::Deleted.apply(false));
    assert!(!DeletedFilter::NotDeleted.apply(true));
    assert!(DeletedFilter::NotDeleted.apply(false));
}

#[test]
fn matches_filter_reads_the_tombstone() {
    let k = Key::new(String::from("n"));
    assert!(KeyTable::matches_filter(&k, &DeletedFilter::NotDeleted));
    assert!(!KeyTable::matches_filter(&k, &DeletedFilter::Deleted));
    let d = Key::delete(String::from("GKx"));
    assert!(KeyTable::matches_filter(&d, &DeletedFilter::Deleted));
}

#[test]
fn migration_keeps_fields_and_grants() {
    let old = OldKey {
        key_id: String::from("GKold"),
        secret_key: String::from("secret"),
        name: String::from("legacy"),
        name_timestamp: 42,
        deleted: false,
        authorized_buckets: vec![
            OldBucketPermission {
                bucket: String::from("pics"),
                timestamp: 7,
                allow_read: true,
                allow_write: false,
            },
            OldBucketPermission {
                bucket: String::from("docs"),
                timestamp: 9,
                allow_read: false,
                allow_write: true,
            },
        ],
    };
    let k = KeyTable::migrate_key(old);
    assert_eq!(k.key_id, "GKold");
    assert_eq!(k.secret_key, "secret");
    assert_eq!(k.name.get(), "legacy");
    assert!(!k.deleted.get());
    assert!(k.allow_read("pics"));
    assert!(!k.allow_write("pics"));
    assert!(k.allow_write("docs"));
    assert!(!k.allow_read("docs"));
    assert_eq!(k.authorized_buckets.items().len(), 2);
}

#[test]
fn sort_key_is_the_identifier() {
    let k = Key::new(String::from("n"));
    assert_eq!(k.sort_key(), &k.key_id);
}

#[test]
fn migration_joins_repeated_buckets() {
    // the same bucket granted twice: the higher-stamped grant wins
    let old = OldKey {
        key_id: String::from("GKold"),
        secret_key: String::from("secret"),
        name: String::from("legacy"),
        name_timestamp: 42,
        deleted: false,
        authorized_buckets: vec![
            OldBucketPermission {
                bucket: String::from("pics"),
                timestamp: 9,
                allow_read: true,
                allow_write: true,
            },
            OldBucketPermission {
                bucket: String::from("pics"),
                timestamp: 5,
                allow_read: false,
                allow_write: false,
            },
        ],
    };
    let k = KeyTable::migrate_key(old);
    assert_eq!(k.authorized_buckets.items().len(), 1);
    assert_eq!(k.authorized_buckets.items()[0].ts, 9);
    assert!(k.allow_read("pics"));
    assert!(k.allow_write("pics"));
}
