use laterbase::event::{Id, Transaction, Valid, ID};
use laterbase::log::{Database, LogError};
use laterbase::storage::{Simulated, Storage};

fn id(n: u128) -> Id {
    Id::from_u128(n)
}

fn ev(n: u128, v: &str) -> (Id, Vec<u8>) {
    (id(n), v.as_bytes().to_vec())
}

#[test]
fn read_since_zero_is_append_order() {
    let mut db = Database::new();
    let events = vec![ev(5, "e"), ev(1, "a"), ev(3, "c")];
    db.write_events(None, &events);
    let (read, hw) = db.read_events(Transaction(0)).unwrap();
    assert_eq!(read, events);
    assert_eq!(hw, Transaction(3));
    assert_eq!(db.info().n_events, 3);
}

#[test]
fn read_since_offset_and_high_water() {
    let mut db = Database::new();
    db.write_events(None, &[ev(1, "a"), ev(2, "bb")]);
    let (read, hw) = db.read_events(Transaction(1)).unwrap();
    assert_eq!(read, vec![ev(2, "bb")]);
    assert_eq!(hw, Transaction(2));
    let (read, hw) = db.read_events(Transaction(2)).unwrap();
    assert!(read.is_empty());
    assert_eq!(hw, Transaction(2));
}

#[test]
fn read_past_high_water_is_bad_offset() {
    let mut db = Database::new();
    db.write_events(None, &[ev(1, "a"), ev(2, "bb")]);
    assert_eq!(db.read_events(Transaction(3)), Err(LogError::BadOffset));
}

#[test]
fn duplicate_writes_keep_first_value_and_log_length() {
    let mut db = Database::new();
    db.write_events(None, &[ev(1, "first"), ev(2, "b")]);
    db.write_events(None, &[ev(1, "second"), ev(2, "b"), ev(1, "third")]);
    let (read, hw) = db.read_events(Transaction(0)).unwrap();
    assert_eq!(read, vec![ev(1, "first"), ev(2, "b")]);
    assert_eq!(hw, Transaction(2));
    assert_eq!(db.info().n_events, 2);
}

#[test]
fn empty_write_still_records_clock() {
    let mut db = Database::new();
    assert_eq!(db.transaction_logical_clock(b"peer"), Transaction(0));
    db.write_events(Some((b"peer".to_vec(), Transaction(7))), &[]);
    assert_eq!(db.transaction_logical_clock(b"peer"), Transaction(7));
    assert_eq!(db.info().n_events, 0);
    db.write_events(Some((b"peer".to_vec(), Transaction(3))), &[]);
    assert_eq!(db.transaction_logical_clock(b"peer"), Transaction(3));
    assert_eq!(db.transaction_logical_clock(b"other"), Transaction(0));
}

#[test]
fn get_present_and_missing() {
    let mut db = Database::new();
    db.write_events(None, &[ev(9, "nine")]);
    assert_eq!(db.get(id(9)), Ok(b"nine".to_vec()));
    assert_eq!(db.get(id(8)), Err(LogError::NotFound));
}

#[test]
fn clocks_stay_within_log_after_sync_writes() {
    let mut db = Database::new();
    db.write_events(Some((b"r1".to_vec(), Transaction(2))), &[ev(1, "a"), ev(2, "b")]);
    let (_, hw) = db.read_events(Transaction(0)).unwrap();
    assert!(db.transaction_logical_clock(b"r1").0 <= hw.0);
}

#[test]
fn add_local_mints_distinct_identifiers() {
    let mut db = Database::new();
    let values = vec![b"x".to_vec(), b"y".to_vec(), b"z".to_vec()];
    let ids = db.add_local(&values);
    assert_eq!(ids.len(), 3);
    assert_ne!(ids[0], ids[1]);
    for (i, v) in ids.iter().zip(values.iter()) {
        assert_eq!(db.get(*i), Ok(v.clone()));
    }
    let (read, _) = db.read_events(Transaction(0)).unwrap();
    let read_ids: Vec<Id> = read.iter().map(|e| e.0).collect();
    assert_eq!(read_ids, ids);
}

#[test]
fn info_names_memory_backend() {
    let db = Database::new();
    let info = db.info();
    assert_eq!(info.storage_engine, "memory");
    assert_eq!(info.n_events, 0);
}

#[test]
fn simulated_backend_tables() {
    let mut s = Simulated::new();
    s.write_event(b"k", b"v1");
    s.write_event(b"k", b"v2");
    assert_eq!(s.read_event(b"k"), Some(b"v1".to_vec()));
    assert_eq!(s.read_event(b"j"), None);
    assert_eq!(s.n_events(), 1);
    s.write_change(b"k");
    s.write_change(b"j");
    assert_eq!(s.keys_added_since(1), vec![b"j".to_vec()]);
    s.update_vector_clock(b"a", 4);
    s.update_vector_clock(b"a", 2);
    assert_eq!(s.read_vector_clock(b"a"), Some(2));
    assert_eq!(s.read_vector_clock(b"b"), None);
}

#[test]
fn id_from_parts_layout() {
    let i = Id::new(0x0123_4567_89ab, 0x42);
    assert_eq!(i.to_u128(), (0x0123_4567_89ab_u128 << 80) | 0x42);
    assert_eq!(i.time(), Valid(0x0123_4567_89ab));
}

#[test]
fn id_from_parts_drops_high_bits() {
    let i = Id::new(u64::MAX, u128::MAX);
    assert_eq!(i.to_u128(), u128::MAX);
    assert_eq!(i.time(), Valid((1u64 << 48) - 1));
    let j = Id::new(1u64 << 48, 1u128 << 80);
    assert_eq!(j.to_u128(), 0);
}

#[test]
fn id_bytes_are_big_endian_and_ordered() {
    let a = Id::from_u128(1);
    let b = Id::from_u128(0x0100);
    let mut expect = vec![0u8; 16];
    expect[15] = 1;
    assert_eq!(a.to_bytes(), expect);
    assert!(a.to_bytes() < b.to_bytes());
    assert!(a < b);
    assert_eq!(Id::from_bytes(&b.to_bytes()), Some(b));
    assert_eq!(Id::from_bytes(&[1, 2, 3]), None);
}

#[test]
fn generated_ids_carry_current_time() {
    let a = Id::generate();
    let b = Id::generate();
    assert_ne!(a, b);
    assert!(a.time().0 > 1_600_000_000_000);
}
