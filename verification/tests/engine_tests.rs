use graphwal::codec::{encode_ops_line, encode_wal_line, parse_ops_line};
use graphwal::engine::{
    graph_dir, make_ops_entry, ops_log_path, path_is_safe, plan_apply, read_ops_entries,
    recovery_plan, verify_wal_content, wal_path, PlanStep,
};
use graphwal::types::{EngineError, OpsLogEntry, Transaction, WalEntry, WriteOperation};

fn op(path: &str, content: &str) -> WriteOperation {
    WriteOperation { path: path.to_string(), content: content.to_string() }
}

#[test]
fn control_paths() {
    assert_eq!(graph_dir("/p"), "/p/.graph");
    assert_eq!(wal_path("/p"), "/p/.graph/wal.log");
    assert_eq!(ops_log_path("/p"), "/p/.graph/ops_log.jsonl");
}

#[test]
fn safe_and_unsafe_paths() {
    assert!(path_is_safe("a.txt"));
    assert!(path_is_safe("dir/sub/file.txt"));
    assert!(!path_is_safe(""));
    assert!(!path_is_safe("/absolute.txt"));
    assert!(!path_is_safe("../escape.txt"));
    assert!(!path_is_safe("dir/../up.txt"));
    assert!(!path_is_safe("dir//double.txt"));
    assert!(!path_is_safe("./here.txt"));
    assert!(!path_is_safe("dir/"));
    assert!(!path_is_safe("win\\sep.txt"));
}

#[test]
fn verify_accepts_valid_wal() {
    let a = encode_wal_line(&WalEntry {
        transaction_id: "tx1".to_string(),
        operations: vec![op("a.txt", "hello")],
    });
    let b = encode_wal_line(&WalEntry {
        transaction_id: "tx2".to_string(),
        operations: vec![op("b.txt", "world")],
    });
    let content = format!("{}\n   \n{}\n", a, b);
    assert!(verify_wal_content(&content).is_ok());
    // verify takes the content by reference and only reads it: running it
    // again over the very same text gives the very same answer
    assert!(verify_wal_content(&content).is_ok());
}

#[test]
fn verify_reports_first_corrupt_line() {
    let a = encode_wal_line(&WalEntry {
        transaction_id: "tx1".to_string(),
        operations: vec![op("a.txt", "hello")],
    });
    let content = format!("{}\ngarbage here\n", a);
    assert_eq!(
        verify_wal_content(&content),
        Err(EngineError::Malformed { line: 1 })
    );
    let content2 = format!("oops\n{}\n", a);
    assert_eq!(
        verify_wal_content(&content2),
        Err(EngineError::Malformed { line: 0 })
    );
}

#[test]
fn recovery_plan_replays_in_order() {
    let a = encode_wal_line(&WalEntry {
        transaction_id: "tx1".to_string(),
        operations: vec![op("a.txt", "one"), op("b.txt", "two")],
    });
    let b = encode_wal_line(&WalEntry {
        transaction_id: "tx2".to_string(),
        operations: vec![op("a.txt", "three")],
    });
    let content = format!("{}\n{}\n", a, b);
    let plan = recovery_plan(&content).expect("must plan");
    let got: Vec<(String, String)> =
        plan.into_iter().map(|o| (o.path, o.content)).collect();
    assert_eq!(
        got,
        vec![
            ("a.txt".to_string(), "one".to_string()),
            ("b.txt".to_string(), "two".to_string()),
            ("a.txt".to_string(), "three".to_string()),
        ]
    );
}

#[test]
fn recovery_plan_of_empty_wal_is_empty() {
    // after a recovery the log is cleared; the next recovery plans nothing
    let plan = recovery_plan("").expect("must plan");
    assert!(plan.is_empty());
    let plan2 = recovery_plan("\n  \n").expect("must plan");
    assert!(plan2.is_empty());
}

#[test]
fn recovery_plan_rejects_corruption_and_escapes() {
    assert!(matches!(
        recovery_plan("{broken\n"),
        Err(EngineError::Malformed { line: 0 })
    ));
    let evil = encode_wal_line(&WalEntry {
        transaction_id: "tx1".to_string(),
        operations: vec![op("../outside.txt", "x")],
    });
    assert!(matches!(recovery_plan(&evil), Err(EngineError::UnsafePath)));
}

#[test]
fn apply_plan_steps_in_protocol_order() {
    let tx = Transaction {
        id: "tx1".to_string(),
        operations: vec![op("a.txt", "hello")],
    };
    let steps = plan_apply(&tx).expect("safe transaction must plan");
    assert_eq!(steps.len(), 4);
    match &steps[0] {
        PlanStep::AppendWal { line } => {
            assert_eq!(
                line,
                "{\"transaction_id\":\"tx1\",\"operations\":[{\"path\":\"a.txt\",\"content\":\"hello\"}]}\n"
            );
        }
        other => panic!("expected the log append first, got {:?}", other),
    }
    match &steps[1] {
        PlanStep::WriteTarget { path, content } => {
            assert_eq!(path, "a.txt");
            assert_eq!(content, "hello");
        }
        other => panic!("expected the target write second, got {:?}", other),
    }
    assert!(matches!(steps[2], PlanStep::ClearWal));
    match &steps[3] {
        PlanStep::AppendOps { line } => {
            let trimmed = line.strip_suffix('\n').expect("audit line ends the line");
            let e = parse_ops_line(trimmed).expect("audit line is a record");
            assert_eq!(e.transaction_id, "tx1");
            assert_eq!(e.operations.len(), 1);
            assert_eq!(e.operations[0].path, "a.txt");
            assert_eq!(e.operations[0].content, "hello");
        }
        other => panic!("expected the audit append last, got {:?}", other),
    }
}

#[test]
fn apply_plan_rejects_escaping_path() {
    let tx = Transaction {
        id: "tx1".to_string(),
        operations: vec![op("../outside.txt", "x")],
    };
    assert!(matches!(plan_apply(&tx), Err(EngineError::UnsafePath)));
}

#[test]
fn audit_entry_carries_the_transaction() {
    let tx = Transaction {
        id: "tx7".to_string(),
        operations: vec![op("a.txt", "hello")],
    };
    let e = make_ops_entry(&tx);
    assert_eq!(e.transaction_id, "tx7");
    assert_eq!(e.operations.len(), 1);
    assert_eq!(e.operations[0].path, "a.txt");
    // the generated record survives its own encoding
    let back = parse_ops_line(&encode_ops_line(&e)).expect("must parse");
    assert_eq!(back.id, e.id);
    assert_eq!(back.timestamp, e.timestamp);
    assert_eq!(back.transaction_id, "tx7");
}

fn audit_file(timestamps: &[u64]) -> String {
    let mut content = String::new();
    for (i, ts) in timestamps.iter().enumerate() {
        let e = OpsLogEntry {
            id: format!("e{}", i),
            timestamp: *ts,
            transaction_id: format!("tx{}", i),
            operations: vec![op("a.txt", "x")],
        };
        content.push_str(&encode_ops_line(&e));
        content.push('\n');
    }
    content
}

#[test]
fn audit_log_limit_two_of_five() {
    let content = audit_file(&[10, 20, 30, 40, 50]);
    let got = read_ops_entries(&content, Some(2)).expect("must read");
    let ts: Vec<u64> = got.iter().map(|e| e.timestamp).collect();
    assert_eq!(ts, vec![50, 40]);
}

#[test]
fn audit_log_sorted_most_recent_first() {
    let content = audit_file(&[30, 10, 50, 20, 40]);
    let got = read_ops_entries(&content, None).expect("must read");
    let ts: Vec<u64> = got.iter().map(|e| e.timestamp).collect();
    assert_eq!(ts, vec![50, 40, 30, 20, 10]);
    let all = read_ops_entries(&content, Some(99)).expect("must read");
    assert_eq!(all.len(), 5);
    assert!(read_ops_entries("", None).expect("empty file reads").is_empty());
}

#[test]
fn audit_log_rejects_corrupt_line() {
    let mut content = audit_file(&[10, 20]);
    content.push_str("not a record\n");
    assert!(matches!(
        read_ops_entries(&content, None),
        Err(EngineError::Malformed { line: 2 })
    ));
}

#[test]
fn audit_log_grows_by_one_entry() {
    let mut content = audit_file(&[10, 20]);
    let before = read_ops_entries(&content, None).expect("must read");
    let e = OpsLogEntry {
        id: "new".to_string(),
        timestamp: 99,
        transaction_id: "txn".to_string(),
        operations: vec![],
    };
    content.push_str(&encode_ops_line(&e));
    content.push('\n');
    let after = read_ops_entries(&content, None).expect("must read");
    assert_eq!(after.len(), before.len() + 1);
    assert_eq!(after[0].timestamp, 99);
    assert_eq!(after[0].transaction_id, "txn");
}

fn apply_to_map(map: &mut std::collections::HashMap<String, String>, ops: &[WriteOperation]) {
    for op in ops {
        map.insert(op.path.clone(), op.content.clone());
    }
}

#[test]
fn replaying_recovery_is_idempotent() {
    let line = encode_wal_line(&WalEntry {
        transaction_id: "tx1".to_string(),
        operations: vec![op("a.txt", "one"), op("b.txt", "two")],
    });
    let content = format!("{}\n", line);
    let plan = recovery_plan(&content).expect("must plan");
    let mut dir = std::collections::HashMap::new();
    dir.insert("c.txt".to_string(), "keep".to_string());
    apply_to_map(&mut dir, &plan);
    let once = dir.clone();
    apply_to_map(&mut dir, &plan);
    assert_eq!(dir, once);
    assert_eq!(once.get("a.txt"), Some(&"one".to_string()));
    assert_eq!(once.get("b.txt"), Some(&"two".to_string()));
    assert_eq!(once.get("c.txt"), Some(&"keep".to_string()));
}

#[test]
fn recovery_after_partial_apply_completes_the_batch() {
    let ops = vec![op("a.txt", "one"), op("b.txt", "two"), op("a.txt", "final")];
    let line = encode_wal_line(&WalEntry {
        transaction_id: "tx1".to_string(),
        operations: ops.clone(),
    });
    let content = format!("{}\n", line);

    // the uninterrupted run
    let mut full = std::collections::HashMap::new();
    apply_to_map(&mut full, &ops);

    // a run interrupted after the first write, then recovered from the log
    let mut crashed = std::collections::HashMap::new();
    apply_to_map(&mut crashed, &ops[..1]);
    let plan = recovery_plan(&content).expect("must plan");
    apply_to_map(&mut crashed, &plan);

    assert_eq!(crashed, full);
    assert_eq!(full.get("a.txt"), Some(&"final".to_string()));
}
