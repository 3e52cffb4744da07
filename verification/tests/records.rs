use fastk::records::{BboRecord, BookDeltaRecord};

#[test]
fn bbo_record_binary_roundtrip_preserves_fields() {
    let record = BboRecord {
        ts: 100,
        recv_ts: 101,
        bid_price: 123,
        bid_qty: 10,
        ask_price: 124,
        ask_qty: 11,
        sequence: 77,
    };

    assert_eq!(std::mem::size_of::<BboRecord>(), BboRecord::BYTE_SIZE);
    assert_eq!(BboRecord::from_le_bytes(record.to_le_bytes()), record);
}

#[test]
fn book_delta_record_binary_roundtrip_preserves_fields() {
    let record = BookDeltaRecord {
        ts: 100,
        recv_ts: 101,
        sequence: 900,
        price: 123_456,
        qty: 7,
        side: -1,
        action: 2,
        level: 5,
        flags: 99,
    };

    assert_eq!(std::mem::size_of::<BookDeltaRecord>(), BookDeltaRecord::BYTE_SIZE);
    assert_eq!(BookDeltaRecord::from_le_bytes(record.to_le_bytes()), record);
}
