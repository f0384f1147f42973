use whoisthere::data::{
    update_db, AddressPair, Ipv4StatsKey, Ipv6StatsKey, Stats, StatsKey, StatsValue,
};
use whoisthere::document::Entry;
use whoisthere::key::KeyError;
use whoisthere::persist::{read_db, save_db, StartupError, StorageRead};

fn v4_key(source: u32, dest: u32) -> StatsKey {
    StatsKey(AddressPair::V4(Ipv4StatsKey { source, dest }))
}

fn v6_key(source: u128, dest: u128) -> StatsKey {
    StatsKey(AddressPair::V6(Ipv6StatsKey { source, dest }))
}

fn totals(total_count: u128, total_length: u128) -> StatsValue {
    StatsValue { total_length, total_count }
}

fn entry(key: &str, total_count: u128, total_length: u128) -> Entry {
    Entry { key: key.to_string(), value: totals(total_count, total_length) }
}

#[test]
fn key_text_is_source_arrow_destination() {
    assert_eq!(v4_key(0xC0A8_0001, 0x0A00_0001).serialize(), "192.168.0.1 -> 10.0.0.1");
    assert_eq!(v4_key(0, u32::MAX).serialize(), "0.0.0.0 -> 255.255.255.255");
    assert_eq!(v6_key(1, 0).serialize(), "::1 -> ::");
    assert_eq!(
        v6_key(0x2001_0db8 << 96 | 1, 0xFFFF_C000_0280).serialize(),
        "2001:db8::1 -> ::ffff:192.0.2.128"
    );
}

#[test]
fn key_text_is_read_back() {
    let keys = [
        v4_key(0, 0),
        v4_key(1, 2),
        v4_key(2, 1),
        v4_key(u32::MAX, 0x7F00_0001),
        v6_key(0, 0),
        v6_key(1, 2),
        v6_key(2, 1),
        v6_key(u128::MAX, 0xFFFF_0102_0304),
        v6_key(0xfe80 << 112 | 0xabcd, 0xff02 << 112 | 0xfb),
        v6_key(0x0001_0000_0000_0004_0005_0000_0000_0008, 0x0001_0000_0000_0004_0000_0000_0000_0008),
    ];
    for key in keys {
        assert_eq!(StatsKey::deserialize(&key.serialize()), Ok(key));
    }
}

#[test]
fn key_without_exactly_one_arrow_has_a_bad_format() {
    for text in [
        "",
        "1.2.3.4",
        "1.2.3.4->5.6.7.8",
        "1.2.3.4 - > 5.6.7.8",
        "1.2.3.4 ->5.6.7.8",
        "1.2.3.4 -> 5.6.7.8 -> 9.9.9.9",
        "1.2.3.4 ->  -> 5.6.7.8",
        " ->  -> ",
        "::1 => ::2",
        "::1 -> ::2 -> ",
    ] {
        assert_eq!(StatsKey::deserialize(text), Err(KeyError::Format), "{:?}", text);
    }
}

#[test]
fn arrows_are_counted_from_the_left_without_overlap() {
    // One separator, then `-> ` as the destination.
    assert_eq!(StatsKey::deserialize(" -> -> "), Err(KeyError::Ipv4Syntax));
    assert_eq!(StatsKey::deserialize(": -> -> "), Err(KeyError::Ipv6Syntax));
}

#[test]
fn source_decides_the_family() {
    assert_eq!(StatsKey::deserialize("1.2.3.4 -> ::1"), Err(KeyError::Ipv4Syntax));
    assert_eq!(StatsKey::deserialize("::1 -> 1.2.3.4"), Err(KeyError::Ipv6Syntax));
    assert_eq!(StatsKey::deserialize(" -> "), Err(KeyError::Ipv4Syntax));
    assert_eq!(StatsKey::deserialize(" -> ::1"), Err(KeyError::Ipv4Syntax));
    assert_eq!(StatsKey::deserialize(": -> "), Err(KeyError::Ipv6Syntax));
    assert_eq!(StatsKey::deserialize("1.2.3.4 -> 1.2.3"), Err(KeyError::Ipv4Syntax));
    assert_eq!(StatsKey::deserialize("1.2.3.256 -> 1.2.3.4"), Err(KeyError::Ipv4Syntax));
    assert_eq!(StatsKey::deserialize("::1 -> ::g"), Err(KeyError::Ipv6Syntax));
    assert_eq!(StatsKey::deserialize("1:2 -> ::1"), Err(KeyError::Ipv6Syntax));
    assert_eq!(StatsKey::deserialize("é -> 1.2.3.4"), Err(KeyError::Ipv4Syntax));
}

#[test]
fn addresses_of_a_key_are_read_however_they_are_written() {
    assert_eq!(StatsKey::deserialize("0:0:0:0:0:0:0:1 -> ::2"), Ok(v6_key(1, 2)));
    assert_eq!(StatsKey::deserialize("::1 -> 2001:DB8::"), Ok(v6_key(1, 0x2001_0db8 << 96)));
    assert_eq!(
        StatsKey::deserialize("::1.2.3.4 -> ::ffff:102:304"),
        Ok(v6_key(0x0102_0304, 0xFFFF_0102_0304))
    );
    assert_eq!(StatsKey::deserialize("01.2.3.4 -> 1.2.3.4"), Err(KeyError::Ipv4Syntax));
    assert_eq!(StatsKey::deserialize("1.2.3.4  -> 1.2.3.4"), Err(KeyError::Ipv4Syntax));
    assert_eq!(StatsKey::deserialize("1.2.3.4 -> 1.2.3.4 "), Err(KeyError::Ipv4Syntax));
    assert_eq!(StatsKey::deserialize("::1 -> ::2 "), Err(KeyError::Ipv6Syntax));
}

#[test]
fn two_texts_of_one_key_give_one_record() {
    let doc = vec![
        entry("::1 -> ::2", 1, 10),
        entry("1.1.1.1 -> 2.2.2.2", 2, 20),
        entry("0:0:0:0:0:0:0:1 -> 0::2", 3, 30),
    ];
    let db = Stats::deserialize(&doc).unwrap();
    assert_eq!(db.len(), 2);
    assert_eq!(db.entry(0), Some((v6_key(1, 2), totals(3, 30))));
    assert_eq!(db.serialize(), vec![entry("::1 -> ::2", 3, 30), entry("1.1.1.1 -> 2.2.2.2", 2, 20)]);
}

#[test]
fn document_lists_the_records_in_their_order() {
    let mut db = Stats::new();
    update_db(&mut db, (v6_key(1, 2), 60));
    update_db(&mut db, (v4_key(0x0A00_0001, 0x0A00_0002), 100));
    update_db(&mut db, (v4_key(0x0A00_0001, 0x0A00_0002), 50));
    assert_eq!(
        db.serialize(),
        vec![entry("::1 -> ::2", 1, 60), entry("10.0.0.1 -> 10.0.0.2", 2, 150)]
    );
    assert_eq!(Stats::new().serialize(), vec![]);
}

#[test]
fn document_is_read_back_as_the_table() {
    let mut db = Stats::new();
    assert_eq!(Stats::deserialize(&db.serialize()), Ok(Stats::new()));
    update_db(&mut db, (v4_key(1, 2), 3));
    update_db(&mut db, (v6_key(1, 2), 4));
    update_db(&mut db, (v4_key(2, 1), 5));
    update_db(&mut db, (v6_key(0xFFFF_0000_0001, u128::MAX), 6));
    update_db(&mut db, (v4_key(1, 2), u128::MAX >> 1));
    let read = Stats::deserialize(&db.serialize()).unwrap();
    assert_eq!(read, db);
    for index in 0..=db.len() {
        assert_eq!(read.entry(index), db.entry(index));
    }
}

#[test]
fn totals_of_any_size_are_read_back() {
    let doc = vec![entry("::7 -> ::7", u128::MAX, u128::MAX), entry("0.0.0.0 -> 0.0.0.0", 0, 0)];
    let db = Stats::deserialize(&doc).unwrap();
    assert_eq!(db.get(&v6_key(7, 7)), Some(totals(u128::MAX, u128::MAX)));
    assert_eq!(db.get(&v4_key(0, 0)), Some(totals(0, 0)));
    assert_eq!(db.serialize(), doc);
}

#[test]
fn later_entry_of_a_key_replaces_the_earlier_one() {
    let doc = vec![
        entry("1.1.1.1 -> 2.2.2.2", 1, 10),
        entry("::1 -> ::2", 2, 20),
        entry("1.1.1.1 -> 2.2.2.2", 3, 30),
    ];
    let db = Stats::deserialize(&doc).unwrap();
    assert_eq!(db.len(), 2);
    assert_eq!(db.entry(0), Some((v4_key(0x0101_0101, 0x0202_0202), totals(3, 30))));
    assert_eq!(db.entry(1), Some((v6_key(1, 2), totals(2, 20))));
}

#[test]
fn first_unreadable_key_fails_the_document() {
    let doc = vec![
        entry("1.1.1.1 -> 2.2.2.2", 1, 10),
        entry("::1 -> ::2:", 2, 20),
        entry("nonsense", 3, 30),
        entry("1.1.1.1 -> 2.2.2", 3, 30),
    ];
    assert_eq!(Stats::deserialize(&doc), Err(KeyError::Ipv6Syntax));
    assert_eq!(Stats::deserialize(&doc[2..].iter().map(copy).collect()), Err(KeyError::Format));
    assert_eq!(Stats::deserialize(&doc[3..].iter().map(copy).collect()), Err(KeyError::Ipv4Syntax));
    assert_eq!(Stats::deserialize(&doc[..1].iter().map(copy).collect()).map(|db| db.len()), Ok(1));
}

fn copy(e: &Entry) -> Entry {
    Entry { key: e.key.clone(), value: e.value }
}

#[test]
fn without_a_storage_location_the_table_starts_empty() {
    let start = read_db(None).unwrap();
    assert_eq!(start.table, Stats::new());
    assert!(!start.create_document);
}

#[test]
fn a_missing_document_is_created_empty() {
    let start = read_db(Some(StorageRead::Missing)).unwrap();
    assert_eq!(start.table, Stats::new());
    assert!(start.create_document);
}

#[test]
fn unreadable_storage_is_fatal() {
    assert_eq!(read_db(Some(StorageRead::Unreadable)).err(), Some(StartupError::Unreadable));
    assert_eq!(read_db(Some(StorageRead::Malformed)).err(), Some(StartupError::Malformed));
    let doc = vec![entry("1.1.1.1 -> 2.2.2.2", 1, 10), entry("1.1.1.1 to 2.2.2.2", 1, 10)];
    assert_eq!(
        read_db(Some(StorageRead::Document(doc))).err(),
        Some(StartupError::Key(KeyError::Format))
    );
}

#[test]
fn nothing_is_saved_without_a_storage_location() {
    let mut db = Stats::new();
    update_db(&mut db, (v4_key(1, 2), 3));
    assert_eq!(save_db(false, &db), None);
    assert_eq!(save_db(true, &db), Some(vec![entry("0.0.0.1 -> 0.0.0.2", 1, 3)]));
    assert_eq!(save_db(true, &Stats::new()), Some(vec![]));
}

#[test]
fn persisted_table_is_loaded_exactly() {
    let (a, b) = (0xC0A8_0001u32, 0xC0A8_0002u32);
    let mut db = Stats::new();
    update_db(&mut db, (v4_key(a, b), 100));
    update_db(&mut db, (v4_key(a, b), 50));
    let stored = save_db(true, &db).unwrap();
    assert_eq!(stored, vec![entry("192.168.0.1 -> 192.168.0.2", 2, 150)]);
    let start = read_db(Some(StorageRead::Document(stored))).unwrap();
    assert!(!start.create_document);
    assert_eq!(start.table, db);
    assert_eq!(start.table.len(), 1);
    assert_eq!(start.table.get(&v4_key(a, b)), Some(totals(2, 150)));
}
