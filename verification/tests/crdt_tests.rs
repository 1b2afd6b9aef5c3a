use garage_core::crdt::Bool;
use garage_core::crdt::CRDT;
use garage_core::crdt::LWW;
use garage_core::crdt::str_less;
use garage_core::lww_map::LWWMap;
use garage_core::key_table::PermissionSet;
use garage_core::table::insert_row;
use garage_core::table::merge_received_rows;

#[test]
fn bool_true_is_absorbing() {
    let mut a = Bool::new(false);
    let b = Bool::new(true);
    a.merge(&b);
    assert!(a.get());
    let c = Bool::new(false);
    a.merge(&c);
    assert!(a.get());
}

#[test]
fn bool_set_persists() {
    let mut a = Bool::new(false);
    a.set();
    assert!(a.get());
}

#[test]
fn lww_newer_write_wins() {
    let mut a = LWW::new(String::from("one"));
    let mut b = a.dup();
    b.update(String::from("two"));
    a.merge(&b);
    assert_eq!(a.get(), "two");
}

#[test]
fn lww_merge_is_idempotent() {
    let mut a = LWW::new(String::from("one"));
    let b = a.dup();
    a.merge(&b);
    assert_eq!(a.get(), "one");
}

#[test]
fn lww_raw_timestamps_decide() {
    let mut a = LWW::migrate_from_raw(10, String::from("older"));
    let b = LWW::migrate_from_raw(20, String::from("newer"));
    a.merge(&b);
    assert_eq!(a.get(), "newer");
    // merging the older side back changes nothing
    let c = LWW::migrate_from_raw(10, String::from("older"));
    a.merge(&c);
    assert_eq!(a.get(), "newer");
}

#[test]
fn lww_timestamp_tie_takes_larger_value() {
    let mut a = LWW::migrate_from_raw(10, String::from("apple"));
    let b = LWW::migrate_from_raw(10, String::from("banana"));
    a.merge(&b);
    assert_eq!(a.get(), "banana");
    let mut c = LWW::migrate_from_raw(10, String::from("banana"));
    let d = LWW::migrate_from_raw(10, String::from("apple"));
    c.merge(&d);
    assert_eq!(c.get(), "banana");
}

#[test]
fn str_less_is_lexicographic() {
    assert!(str_less("a", "b"));
    assert!(str_less("a", "ab"));
    assert!(!str_less("ab", "a"));
    assert!(!str_less("a", "a"));
    assert!(str_less("", "a"));
    assert!(!str_less("b", "ab"));
}

#[test]
fn map_update_and_get() {
    let map: LWWMap<String, PermissionSet> = LWWMap::new();
    let row = map.update_mutator(
        String::from("bucket"),
        PermissionSet { allow_read: true, allow_write: false },
    );
    let mut merged = map;
    merged.merge(&row);
    let v = merged.get(&String::from("bucket")).unwrap();
    assert!(v.allow_read);
    assert!(!v.allow_write);
    assert!(merged.get(&String::from("other")).is_none());
}

#[test]
fn map_later_update_wins() {
    let mut map: LWWMap<String, PermissionSet> = LWWMap::new();
    let row1 = map.update_mutator(
        String::from("b"),
        PermissionSet { allow_read: true, allow_write: true },
    );
    map.merge(&row1);
    let row2 = map.update_mutator(
        String::from("b"),
        PermissionSet { allow_read: false, allow_write: false },
    );
    map.merge(&row2);
    let v = map.get(&String::from("b")).unwrap();
    assert!(!v.allow_read);
    assert!(!v.allow_write);
}

#[test]
fn map_merge_is_commutative_on_values() {
    let empty: LWWMap<String, PermissionSet> = LWWMap::new();
    let a = LWWMap::migrate_from_raw_item(
        String::from("alpha"),
        5,
        PermissionSet { allow_read: true, allow_write: false },
    );
    let b = LWWMap::migrate_from_raw_item(
        String::from("beta"),
        7,
        PermissionSet { allow_read: false, allow_write: true },
    );
    let mut ab = empty.dup();
    ab.merge(&a);
    ab.merge(&b);
    let mut ba = empty.dup();
    ba.merge(&b);
    ba.merge(&a);
    assert_eq!(ab.items().len(), 2);
    assert_eq!(ba.items().len(), 2);
    for i in 0..2 {
        assert_eq!(ab.items()[i].k, ba.items()[i].k);
        assert_eq!(ab.items()[i].ts, ba.items()[i].ts);
        assert_eq!(ab.items()[i].v, ba.items()[i].v);
    }
    // keys come out sorted
    assert_eq!(ab.items()[0].k, "alpha");
    assert_eq!(ab.items()[1].k, "beta");
}

#[test]
fn map_merge_is_idempotent_on_values() {
    let mut a = LWWMap::migrate_from_raw_item(
        String::from("alpha"),
        5,
        PermissionSet { allow_read: true, allow_write: false },
    );
    let b = a.dup();
    a.merge(&b);
    assert_eq!(a.items().len(), 1);
    assert_eq!(a.items()[0].ts, 5);
}

#[test]
fn map_clear_and_take() {
    let mut a = LWWMap::migrate_from_raw_item(
        String::from("alpha"),
        5,
        PermissionSet { allow_read: true, allow_write: false },
    );
    let taken = a.take_and_clear();
    assert_eq!(a.items().len(), 0);
    assert_eq!(taken.items().len(), 1);
    let mut b = taken;
    b.clear();
    assert_eq!(b.items().len(), 0);
}

#[test]
fn replica_insert_is_idempotent() {
    let row = LWWMap::migrate_from_raw_item(
        String::from("alpha"),
        5,
        PermissionSet { allow_read: true, allow_write: false },
    );
    let stored = insert_row(None, row.dup());
    let stored = insert_row(Some(stored), row.dup());
    let stored = insert_row(Some(stored), row.dup());
    assert_eq!(stored.items().len(), 1);
    assert_eq!(stored.items()[0].ts, 5);
}

#[test]
fn read_merge_is_order_independent() {
    let a = LWWMap::migrate_from_raw_item(
        String::from("alpha"),
        5,
        PermissionSet { allow_read: true, allow_write: false },
    );
    let b = LWWMap::migrate_from_raw_item(
        String::from("beta"),
        7,
        PermissionSet { allow_read: false, allow_write: true },
    );
    let one = merge_received_rows(vec![a.dup(), b.dup()]).unwrap();
    let two = merge_received_rows(vec![b.dup(), a.dup()]).unwrap();
    assert_eq!(one.items().len(), 2);
    assert_eq!(two.items().len(), 2);
    for i in 0..2 {
        assert_eq!(one.items()[i].k, two.items()[i].k);
        assert_eq!(one.items()[i].ts, two.items()[i].ts);
        assert_eq!(one.items()[i].v, two.items()[i].v);
    }
    let none: Option<LWWMap<String, PermissionSet>> = merge_received_rows(Vec::new());
    assert!(none.is_none());
}
