use vp_core::codec::encode_frame;
use vp_core::conn::Connection;
use vp_core::table::{ConnectionTable, TableError};

#[test]
fn enqueue_frames_the_payload() {
    let mut conn = Connection::new();
    assert!(!conn.wants_write());
    conn.enqueue_message(&b"hi".to_vec()).unwrap();
    assert!(conn.wants_write());
    let front = conn.front_message().unwrap().clone();
    assert_eq!(front, encode_frame(&b"hi".to_vec()).unwrap());
}

#[test]
fn short_writes_resume_where_they_stopped() {
    let mut conn = Connection::new();
    conn.enqueue_message(&b"first".to_vec()).unwrap();
    conn.enqueue_message(&b"second!".to_vec()).unwrap();
    let expected: Vec<u8> = [
        encode_frame(&b"first".to_vec()).unwrap(),
        encode_frame(&b"second!".to_vec()).unwrap(),
    ]
    .concat();

    // Drain with deliberately awkward write sizes, including a would-block
    // round that writes nothing.
    let mut wire = Vec::new();
    let sizes = [3usize, 0, 4, 1, 100, 2, 100, 100];
    let mut s = sizes.iter();
    while conn.wants_write() {
        let front = conn.front_message().unwrap().clone();
        let n = (*s.next().expect("enough rounds")).min(front.len());
        wire.extend_from_slice(&front[..n]);
        conn.mark_written(n);
    }
    assert_eq!(wire, expected);
}

#[test]
fn write_of_whole_front_pops_it() {
    let mut conn = Connection::new();
    conn.enqueue_message(&b"x".to_vec()).unwrap();
    let len = conn.front_message().unwrap().len();
    conn.mark_written(len);
    assert!(!conn.wants_write());
    assert!(conn.front_message().is_none());
}

#[test]
fn table_hands_out_lowest_free_slot() {
    let mut table: ConnectionTable<&'static str> = ConnectionTable::new(2);
    assert_eq!(table.capacity_exec(), 2);
    assert_eq!(table.insert("a"), Ok(0));
    assert_eq!(table.insert("b"), Ok(1));
    assert_eq!(table.insert("c"), Err(TableError::CapacityExceeded));
    assert_eq!(table.lookup(0), Some(&"a"));
    assert_eq!(table.lookup(1), Some(&"b"));
}

#[test]
fn removed_slot_is_reused() {
    let mut table: ConnectionTable<u64> = ConnectionTable::new(3);
    assert_eq!(table.insert(10), Ok(0));
    assert_eq!(table.insert(11), Ok(1));
    assert_eq!(table.remove(0), Some(10));
    assert_eq!(table.lookup(0), None);
    // The freed slot's id is handed out again.
    assert_eq!(table.insert(12), Ok(0));
    assert_eq!(table.lookup(0), Some(&12));
    assert_eq!(table.lookup(1), Some(&11));
}

#[test]
fn lookup_and_remove_out_of_range_find_nothing() {
    let mut table: ConnectionTable<u64> = ConnectionTable::new(1);
    assert_eq!(table.lookup(5), None);
    assert_eq!(table.remove(5), None);
    assert_eq!(table.remove(0), None);
}

#[test]
fn slot_mut_gives_in_place_access() {
    let mut table: ConnectionTable<u64> = ConnectionTable::new(1);
    assert_eq!(table.insert(41), Ok(0));
    if let Some(v) = table.slot_mut(0).as_mut() {
        *v += 1;
    }
    assert_eq!(table.lookup(0), Some(&42));
}
