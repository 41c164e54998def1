use graphwal::codec::{encode_ops_line, encode_wal_line, parse_ops_line, parse_wal_line};
use graphwal::types::{OpsLogEntry, Transaction, WalEntry, WriteOperation};

fn op(path: &str, content: &str) -> WriteOperation {
    WriteOperation { path: path.to_string(), content: content.to_string() }
}

#[test]
fn wal_line_exact_form() {
    let e = WalEntry {
        transaction_id: "tx1".to_string(),
        operations: vec![op("a.txt", "hello")],
    };
    let line = encode_wal_line(&e);
    assert_eq!(
        line,
        "{\"transaction_id\":\"tx1\",\"operations\":[{\"path\":\"a.txt\",\"content\":\"hello\"}]}"
    );
}

#[test]
fn wal_line_empty_operations() {
    let e = WalEntry { transaction_id: "t".to_string(), operations: vec![] };
    assert_eq!(encode_wal_line(&e), "{\"transaction_id\":\"t\",\"operations\":[]}");
    let back = parse_wal_line(&encode_wal_line(&e)).expect("must parse");
    assert_eq!(back.transaction_id, "t");
    assert!(back.operations.is_empty());
}

#[test]
fn wal_line_roundtrip() {
    let e = WalEntry {
        transaction_id: "tx-9".to_string(),
        operations: vec![op("a.txt", "hello"), op("dir/b.txt", "world")],
    };
    let line = encode_wal_line(&e);
    let back = parse_wal_line(&line).expect("must parse");
    assert_eq!(back.transaction_id, "tx-9");
    assert_eq!(back.operations.len(), 2);
    assert_eq!(back.operations[0].path, "a.txt");
    assert_eq!(back.operations[0].content, "hello");
    assert_eq!(back.operations[1].path, "dir/b.txt");
    assert_eq!(back.operations[1].content, "world");
}

#[test]
fn wal_line_escaping_roundtrip() {
    let tricky = "line one\nline two\t\"quoted\" back\\slash\rend";
    let e = WalEntry {
        transaction_id: "id with \"quotes\"".to_string(),
        operations: vec![op("a.txt", tricky)],
    };
    let line = encode_wal_line(&e);
    assert!(!line.contains('\n'));
    let back = parse_wal_line(&line).expect("must parse");
    assert_eq!(back.transaction_id, "id with \"quotes\"");
    assert_eq!(back.operations[0].content, tricky);
}

#[test]
fn wal_line_is_real_json() {
    let e = WalEntry {
        transaction_id: "tx1".to_string(),
        operations: vec![op("a.txt", "he said \"hi\"\nand left\t\\so")],
    };
    let line = encode_wal_line(&e);
    let v: serde_json::Value = serde_json::from_str(&line).expect("serde_json must accept it");
    assert_eq!(v["transaction_id"], "tx1");
    assert_eq!(v["operations"][0]["path"], "a.txt");
    assert_eq!(v["operations"][0]["content"], "he said \"hi\"\nand left\t\\so");
}

#[test]
fn ops_line_is_real_json() {
    let e = OpsLogEntry {
        id: "e-1".to_string(),
        timestamp: 1700000000123,
        transaction_id: "tx1".to_string(),
        operations: vec![op("a.txt", "hello")],
    };
    let line = encode_ops_line(&e);
    let v: serde_json::Value = serde_json::from_str(&line).expect("serde_json must accept it");
    assert_eq!(v["id"], "e-1");
    assert_eq!(v["timestamp"], 1700000000123u64);
    assert_eq!(v["transaction_id"], "tx1");
}

#[test]
fn ops_line_roundtrip_extreme_timestamps() {
    for ts in [0u64, 7, 10, 99, 1000, u64::MAX] {
        let e = OpsLogEntry {
            id: "x".to_string(),
            timestamp: ts,
            transaction_id: "t".to_string(),
            operations: vec![],
        };
        let back = parse_ops_line(&encode_ops_line(&e)).expect("must parse");
        assert_eq!(back.timestamp, ts);
    }
}

#[test]
fn parse_rejects_malformed_lines() {
    assert!(parse_wal_line("").is_none());
    assert!(parse_wal_line("not json").is_none());
    assert!(parse_wal_line("{\"transaction_id\":\"tx1\"}").is_none());
    assert!(parse_wal_line("{\"transaction_id\":\"tx1\",\"operations\":[]").is_none());
    assert!(
        parse_wal_line("{\"transaction_id\":\"tx1\",\"operations\":[]}trailing").is_none()
    );
    assert!(parse_wal_line("{\"transaction_id\":\"tx\\q\",\"operations\":[]}").is_none());
}

#[test]
fn parse_rejects_bad_timestamps() {
    // leading zero
    assert!(parse_ops_line(
        "{\"id\":\"x\",\"timestamp\":01,\"transaction_id\":\"t\",\"operations\":[]}"
    )
    .is_none());
    // not a number
    assert!(parse_ops_line(
        "{\"id\":\"x\",\"timestamp\":\"7\",\"transaction_id\":\"t\",\"operations\":[]}"
    )
    .is_none());
    // past the range of a 64-bit count
    assert!(parse_ops_line(
        "{\"id\":\"x\",\"timestamp\":99999999999999999999999,\"transaction_id\":\"t\",\"operations\":[]}"
    )
    .is_none());
    // largest representable value still parses
    assert!(parse_ops_line(
        "{\"id\":\"x\",\"timestamp\":18446744073709551615,\"transaction_id\":\"t\",\"operations\":[]}"
    )
    .is_some());
}

#[test]
fn wal_entry_projection_of_transaction() {
    let tx = Transaction {
        id: "tx1".to_string(),
        operations: vec![op("a.txt", "hello")],
    };
    let e = graphwal::engine::make_wal_entry(&tx);
    assert_eq!(e.transaction_id, "tx1");
    assert_eq!(e.operations.len(), 1);
    assert_eq!(e.operations[0].path, "a.txt");
    assert_eq!(e.operations[0].content, "hello");
}
