use zqlite_rs::advance::RowChange;
use zqlite_rs::chunk_encoder::{encode_chunk_buf, StreamItem};
use zqlite_rs::json::{make_obj1, JsonMap, JsonNumber, JsonValue};

#[test]
fn chunk_header_format() {
    // Zero rows: exactly 5 bytes, [u32 count=0 LE][u8 flags=0].
    let buf = encode_chunk_buf(&[]);
    assert_eq!(buf, vec![0, 0, 0, 0, 0], "Expected [u32 count=0 LE][u8 flags=0] = 5 bytes; got {:?}", buf);
}

#[test]
fn chunk_header_flags_byte_is_reserved_zero() {
    let row = RowChange {
        change_type: "add".to_string(),
        query_id: "q1".to_string(),
        table: "t1".to_string(),
        row_key: make_obj1("id", JsonValue::Number(JsonNumber::from_i64(1))),
        row: Some(JsonMap::new()),
    };
    let buf = encode_chunk_buf(&[row]);
    assert!(buf.len() >= 5, "Buf too short: {}", buf.len());
    assert_eq!(buf[4], 0u8, "Reserved flags byte must be 0 in v1, got 0x{:x}", buf[4]);
    assert_eq!(&buf[0..4], &[1u8, 0, 0, 0], "count u32 LE must be 1, got {:?}", &buf[0..4]);
}

// One add change, byte for byte.
#[test]
fn chunk_encodes_change_bytes() {
    let row = RowChange {
        change_type: "remove".to_string(),
        query_id: "q".to_string(),
        table: "t".to_string(),
        row_key: JsonValue::Null,
        row: None,
    };
    let buf = encode_chunk_buf(&[row]);
    assert_eq!(buf, vec![1, 0, 0, 0, 0, 1, 1, 0, b'q', 1, 0, b't', 0, 0]);
}

// How stream items describe themselves.
#[test]
fn stream_item_descriptions() {
    assert_eq!(StreamItem::Chunk(vec![1, 2, 3]).describe(), "Chunk(len=3)");
    assert_eq!(StreamItem::ResetSignal("scalar changed".to_string()).describe(), "ResetSignal(scalar changed)");
    assert_eq!(StreamItem::Error("boom".to_string(), "panic".to_string()).describe(), r#"Error("boom", "panic")"#);
}
