use laterbase::event::{Id, Transaction};
use laterbase::message::{Message, WireError};

fn round_trip(m: Message) {
    let bytes = m.encode().unwrap();
    assert_eq!(Message::decode(&bytes), Ok(m));
}

#[test]
fn sync_round_trip_and_layout() {
    let m = Message::Sync(vec![0xaa, 0xbb]);
    assert_eq!(m.encode().unwrap(), vec![1, 2, 0, 0xaa, 0xbb]);
    round_trip(m);
    round_trip(Message::Sync(vec![]));
}

#[test]
fn send_events_round_trip_and_layout() {
    let m = Message::SendEvents { since: Transaction(0x0102), dest: vec![7] };
    assert_eq!(m.encode().unwrap(), vec![2, 0x02, 0x01, 0, 0, 0, 0, 0, 0, 1, 0, 7]);
    round_trip(m);
}

#[test]
fn store_events_round_trip_and_layout() {
    let m = Message::StoreEvents {
        from: Some((vec![9], Transaction(3))),
        events: vec![(Id::from_u128(0x0102), b"xy".to_vec())],
    };
    let mut expect = vec![3, 1, 1, 0, 9, 3, 0, 0, 0, 0, 0, 0, 0, 1, 0, 0, 0];
    expect.extend_from_slice(&[0; 14]);
    expect.extend_from_slice(&[1, 2, 2, 0, 0, 0, b'x', b'y']);
    assert_eq!(m.encode().unwrap(), expect);
    round_trip(m);
    round_trip(Message::StoreEvents { from: None, events: vec![] });
    round_trip(Message::StoreEvents {
        from: None,
        events: vec![(Id::from_u128(u128::MAX), vec![]), (Id::from_u128(5), vec![1; 300])],
    });
}

#[test]
fn unknown_tag() {
    assert_eq!(Message::decode(&[9, 0, 0]), Err(WireError::UnknownMessage));
    assert_eq!(Message::decode(&[0]), Err(WireError::UnknownMessage));
}

#[test]
fn malformed_inputs() {
    assert_eq!(Message::decode(&[]), Err(WireError::Malformed));
    assert_eq!(Message::decode(&[1, 3, 0, 1, 2]), Err(WireError::Malformed));
    assert_eq!(Message::decode(&[1, 1, 0, 1, 2]), Err(WireError::Malformed));
    assert_eq!(Message::decode(&[2, 0, 0]), Err(WireError::Malformed));
    assert_eq!(Message::decode(&[3, 2, 0, 0, 0, 0]), Err(WireError::Malformed));
    assert_eq!(Message::decode(&[3, 0, 1, 0, 0, 0]), Err(WireError::Malformed));
    assert_eq!(Message::decode(&[3, 0, 0, 0, 0, 0]), Ok(Message::StoreEvents { from: None, events: vec![] }));
}

#[test]
fn oversized_address_is_refused() {
    let m = Message::Sync(vec![0; 70_000]);
    assert_eq!(m.encode(), Err(WireError::TooLarge));
}

