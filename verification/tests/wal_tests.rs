use serde_json::Value;
use storage_core::wal::{decode_records, encode_records, Wal};

// One log record's bytes, as the embedding engine would serialize it:
// a single JSON line, 89 bytes long, so that a framed record occupies
// 90 bytes of the log.
fn get_test_wal_row() -> Vec<u8> {
    let row =
        br#"{"transaction_id":23,"transaction_size":66,"operation":"Insert","tuple":[0,0,0,1,0,44,4]}"#
            .to_vec();
    assert_eq!(row.len(), 89);
    row
}

fn assert_is_test_row(bytes: &[u8]) {
    let value: Value = serde_json::from_slice(bytes).unwrap();
    assert_eq!(value.get("transaction_id").unwrap().as_i64().unwrap(), 23);
    assert_eq!(value.get("transaction_size").unwrap().as_i64().unwrap(), 66);
    assert_eq!(
        value.get("operation").unwrap().as_str().unwrap(),
        "Insert"
    );
}

#[test]
fn write_transaction_should_log_in_file() {
    let mut wal = Wal::build();
    wal.write_transaction(&vec![get_test_wal_row(), get_test_wal_row()]);
    wal.write_transaction(&vec![get_test_wal_row()]);
    let rows = wal.read();
    assert_eq!(rows.len(), 3);
    for row in rows {
        assert_is_test_row(&row);
    }
}

#[test]
fn read_should_rows_from_begin() {
    let mut wal = Wal::build();
    let rows = vec![get_test_wal_row(), get_test_wal_row(), get_test_wal_row()];
    wal.write_transaction(&rows);
    let rows = wal.read();
    assert_eq!(rows.len(), 3);
    for row in rows {
        assert_is_test_row(&row);
    }
    assert_eq!(wal.checkpoint, 270);
}

#[test]
fn read_should_rows_from_checkpoint() {
    let mut wal = Wal::build();
    let rows = vec![get_test_wal_row(), get_test_wal_row(), get_test_wal_row()];
    wal.write_transaction(&rows);
    wal.checkpoint = 90;
    let rows = wal.read();
    assert_eq!(rows.len(), 2);
    for row in rows {
        assert_is_test_row(&row);
    }
    assert_eq!(wal.checkpoint, 270);
}

#[test]
fn vacuum_should_truncate_from_offset() {
    let mut wal = Wal::build();
    let rows = vec![get_test_wal_row(), get_test_wal_row(), get_test_wal_row()];
    wal.write_transaction(&rows);
    wal.read();
    let rows = vec![get_test_wal_row()];
    wal.write_transaction(&rows);
    wal.vacuum();
    assert_eq!(wal.checkpoint, 0);
    assert_eq!(wal.read(), rows);
}

#[test]
fn read_consumes_what_it_returns() {
    let mut wal = Wal::build();
    wal.write_transaction(&vec![get_test_wal_row()]);
    assert_eq!(wal.read().len(), 1);
    assert_eq!(wal.read().len(), 0);
}

#[test]
fn read_of_empty_log_returns_no_rows() {
    let mut wal = Wal::build();
    assert_eq!(wal.read(), Vec::<Vec<u8>>::new());
    assert_eq!(wal.checkpoint, 0);
}

#[test]
fn encode_then_decode_returns_the_records() {
    let rows = vec![b"alpha".to_vec(), b"".to_vec(), b"beta".to_vec()];
    let framed = encode_records(&rows);
    assert_eq!(framed, b"alpha\n\nbeta\n".to_vec());
    assert_eq!(decode_records(&framed), rows);
}

#[test]
fn decode_of_empty_stream_has_no_records() {
    assert_eq!(decode_records(&[]), Vec::<Vec<u8>>::new());
}

#[test]
fn vacuum_discards_consumed_history() {
    let mut wal = Wal::build();
    wal.write_transaction(&vec![b"first".to_vec(), b"second".to_vec()]);
    wal.read();
    wal.vacuum();
    assert_eq!(wal.log, Vec::<u8>::new());
    assert_eq!(wal.checkpoint, 0);
    assert_eq!(wal.read(), Vec::<Vec<u8>>::new());
}
