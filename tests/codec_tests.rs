use drift_core::codec::{decode_snapshot, encode_snapshot};
use drift_core::graph::{CallEdge, DataAccessPoint, DataOperation, FunctionNode};
use drift_core::store::{accessed_tables, GraphStore, StoreError, SCHEMA_VERSION};

fn sample() -> Vec<FunctionNode> {
    vec![
        FunctionNode {
            id: "src/a.ts:main:1".to_string(),
            name: "main".to_string(),
            qualified_name: "App.main".to_string(),
            file: "src/a.ts".to_string(),
            start_line: 1,
            end_line: 20,
            calls: vec![
                CallEdge {
                    callee_name: "handler".to_string(),
                    resolved: true,
                    resolved_candidates: vec!["src/a.ts:handler:30".to_string()],
                    line: 4,
                },
                CallEdge {
                    callee_name: "helper".to_string(),
                    resolved: false,
                    resolved_candidates: vec!["x:helper:1".to_string(), "y:helper:1".to_string()],
                    line: 5,
                },
            ],
            data_access: Vec::new(),
            is_entry_point: true,
        },
        FunctionNode {
            id: "src/a.ts:handler:30".to_string(),
            name: "handler".to_string(),
            qualified_name: "handler".to_string(),
            file: "src/a.ts".to_string(),
            start_line: 30,
            end_line: 4_000_000_000,
            calls: Vec::new(),
            data_access: vec![
                DataAccessPoint {
                    table: "users".to_string(),
                    operation: DataOperation::Delete,
                    fields: vec!["email".to_string(), "naïve ☃".to_string()],
                    file: "src/a.ts".to_string(),
                    line: 33,
                    confidence: 875,
                    framework: Some("prisma".to_string()),
                },
                DataAccessPoint {
                    table: "users".to_string(),
                    operation: DataOperation::Write,
                    fields: Vec::new(),
                    file: "src/a.ts".to_string(),
                    line: 34,
                    confidence: 0,
                    framework: None,
                },
            ],
            is_entry_point: false,
        },
    ]
}

fn same(a: &[FunctionNode], b: &[FunctionNode]) -> bool {
    format!("{:?}", a) == format!("{:?}", b)
}

#[test]
fn snapshot_round_trips() {
    let fs = sample();
    let bytes = encode_snapshot(&fs);
    let back = decode_snapshot(&bytes).unwrap();
    assert!(same(&fs, &back));
}

#[test]
fn empty_snapshot_layout() {
    let bytes = encode_snapshot(&Vec::new());
    assert_eq!(bytes, vec![SCHEMA_VERSION as u8, 0, 0, 0, 0, 0, 0, 0, 0, 0, 0, 0]);
    assert!(decode_snapshot(&bytes).unwrap().is_empty());
}

#[test]
fn string_is_length_then_code_points() {
    let fs = vec![FunctionNode {
        id: "é".to_string(),
        name: String::new(),
        qualified_name: String::new(),
        file: String::new(),
        start_line: 258,
        end_line: 0,
        calls: Vec::new(),
        data_access: Vec::new(),
        is_entry_point: true,
    }];
    let bytes = encode_snapshot(&fs);
    assert_eq!(&bytes[4..12], &[1, 0, 0, 0, 0, 0, 0, 0]);
    assert_eq!(&bytes[12..20], &[1, 0, 0, 0, 0, 0, 0, 0]);
    assert_eq!(&bytes[20..24], &[0xE9, 0, 0, 0]);
    assert_eq!(*bytes.last().unwrap(), 1);
}

#[test]
fn other_version_is_incompatible() {
    let mut bytes = encode_snapshot(&sample());
    bytes[0] = bytes[0].wrapping_add(1);
    assert!(matches!(decode_snapshot(&bytes), Err(StoreError::Incompatible)));
    assert!(matches!(GraphStore::open_snapshot(&bytes), Err(StoreError::Incompatible)));
}

#[test]
fn damaged_bytes_are_corrupt() {
    let bytes = encode_snapshot(&sample());
    let cut = bytes[..bytes.len() - 1].to_vec();
    assert!(matches!(decode_snapshot(&cut), Err(StoreError::Corrupt)));
    let mut extra = bytes.clone();
    extra.push(0);
    assert!(matches!(decode_snapshot(&extra), Err(StoreError::Corrupt)));
    assert!(matches!(decode_snapshot(&vec![1, 0]), Err(StoreError::Corrupt)));
    let mut one = sample();
    one.truncate(1);
    let mut bad_flag = encode_snapshot(&one);
    let n = bad_flag.len();
    bad_flag[n - 1] = 7;
    assert!(matches!(decode_snapshot(&bad_flag), Err(StoreError::Corrupt)));
}

#[test]
fn invalid_code_point_is_corrupt() {
    let fs = vec![FunctionNode {
        id: "a".to_string(),
        name: String::new(),
        qualified_name: String::new(),
        file: String::new(),
        start_line: 0,
        end_line: 0,
        calls: Vec::new(),
        data_access: Vec::new(),
        is_entry_point: false,
    }];
    let mut bytes = encode_snapshot(&fs);
    bytes[20..24].copy_from_slice(&0xD800u32.to_le_bytes());
    assert!(matches!(decode_snapshot(&bytes), Err(StoreError::Corrupt)));
}

#[test]
fn store_snapshot_reopens_read_only() {
    let mut s = GraphStore::open_readwrite();
    s.write_batch(sample()).unwrap();
    let bytes = s.snapshot();
    let r = GraphStore::open_snapshot(&bytes).unwrap();
    assert!(r.read_only);
    assert!(same(&r.graph.functions, &s.graph.functions));
    assert_eq!(r.get_entry_points(), vec!["src/a.ts:main:1".to_string()]);
    assert_eq!(r.get_data_accessors(), vec!["src/a.ts:handler:30".to_string()]);
}

#[test]
fn snapshot_with_duplicate_ids_is_corrupt() {
    let mut fs = sample();
    fs[1].id = fs[0].id.clone();
    let bytes = encode_snapshot(&fs);
    assert!(decode_snapshot(&bytes).is_ok());
    assert!(matches!(GraphStore::open_snapshot(&bytes), Err(StoreError::Corrupt)));
}

#[test]
fn accessed_tables_are_distinct() {
    let fs = sample();
    assert_eq!(accessed_tables(&fs[1].data_access), vec!["users".to_string()]);
    assert!(accessed_tables(&fs[0].data_access).is_empty());
}
