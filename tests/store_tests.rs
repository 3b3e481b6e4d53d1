use drift_core::builder::{ExtractedFunction, FileExtraction, FileOutcome};
use drift_core::forward::{FieldSensitivity, ReachabilityOptions};
use drift_core::graph::{CallEdge, DataAccessPoint, DataOperation, FunctionNode, QueryError};
use drift_core::inverse::InverseReachabilityOptions;
use drift_core::store::{build_into_store, GraphStore, StoreError, StoreReachabilityEngine, SCHEMA_VERSION};
use drift_core::types::{CallSite, Range};

fn node(id: &str, calls: Vec<CallEdge>, accesses: usize, entry: bool) -> FunctionNode {
    let mut data_access = Vec::new();
    for i in 0..accesses {
        data_access.push(DataAccessPoint {
            table: "users".to_string(),
            operation: DataOperation::Write,
            fields: vec!["email".to_string()],
            file: "a.ts".to_string(),
            line: i as u32,
            confidence: 1000,
            framework: None,
        });
    }
    FunctionNode {
        id: id.to_string(),
        name: id.to_string(),
        qualified_name: id.to_string(),
        file: "a.ts".to_string(),
        start_line: 1,
        end_line: 2,
        calls,
        data_access,
        is_entry_point: entry,
    }
}

fn edge(target: &str, resolved: bool) -> CallEdge {
    CallEdge { callee_name: target.to_string(), resolved, resolved_candidates: vec![target.to_string()], line: 1 }
}

fn outcomes() -> Vec<FileOutcome> {
    let call = |c: &str, l: u32| CallSite { callee: c.to_string(), receiver: None, arg_count: 1, range: Range::new(l, 0, l, 5) };
    let f = |n: &str, s: u32, calls: Vec<CallSite>| ExtractedFunction {
        name: n.to_string(),
        qualified_name: Some(format!("M.{}", n)),
        start_line: s,
        end_line: s + 5,
        is_exported: true,
        calls,
    };
    vec![FileOutcome::Extracted(FileExtraction {
        file: "m.ts".to_string(),
        functions: vec![f("main", 1, vec![call("a", 2)]), f("a", 10, vec![call("b", 11)]), f("b", 20, vec![])],
        annotations: Vec::new(),
        entry_markers: Vec::new(),
    })]
}

#[test]
fn new_store_is_empty_and_unavailable() {
    let s = GraphStore::open_readwrite();
    assert!(!s.is_available());
    let st = s.get_stats();
    assert_eq!(st.total_functions, 0);
    assert!(s.get_entry_points().is_empty());
}

#[test]
fn write_batch_appends_and_updates_indices() {
    let mut s = GraphStore::open_readwrite();
    assert_eq!(s.write_batch(vec![node("f", vec![edge("g", true)], 0, true), node("g", vec![], 1, false)]), Ok(()));
    assert!(s.is_available());
    assert_eq!(s.get_entry_points(), vec!["f".to_string()]);
    assert_eq!(s.get_data_accessors(), vec!["g".to_string()]);
    assert_eq!(s.graph.entry_points, vec!["f".to_string()]);
    let st = s.get_stats();
    assert_eq!(st.total_functions, 2);
    assert_eq!(st.total_calls, 1);
    assert_eq!(st.resolved_calls, 1);
    assert_eq!(st.entry_points, 1);
    assert_eq!(st.data_accessors, 1);
    assert_eq!(s.get_function(&"g".to_string()).map(|f| f.id.clone()), Some("g".to_string()));
    assert!(s.get_function(&"h".to_string()).is_none());
}

#[test]
fn duplicate_batch_is_refused_whole() {
    let mut s = GraphStore::open_readwrite();
    s.write_batch(vec![node("f", vec![], 0, true)]).unwrap();
    assert_eq!(s.write_batch(vec![node("g", vec![], 0, true), node("f", vec![], 0, true)]), Err(StoreError::DuplicateId));
    assert_eq!(s.graph.functions.len(), 1);
    assert_eq!(s.write_batch(vec![node("h", vec![], 0, true), node("h", vec![], 0, true)]), Err(StoreError::DuplicateId));
    assert_eq!(s.graph.functions.len(), 1);
}

#[test]
fn read_only_store_refuses_writes() {
    let mut s = GraphStore::open_readonly(SCHEMA_VERSION, vec![node("f", vec![], 0, true)]).unwrap();
    assert!(s.read_only);
    assert_eq!(s.write_batch(vec![node("g", vec![], 0, true)]), Err(StoreError::ReadOnly));
    assert_eq!(s.graph.functions.len(), 1);
}

#[test]
fn open_rejects_other_versions_and_corrupt_snapshots() {
    assert!(matches!(GraphStore::open_readonly(SCHEMA_VERSION + 1, Vec::new()), Err(StoreError::Incompatible)));
    assert!(matches!(
        GraphStore::open_readonly(SCHEMA_VERSION, vec![node("f", vec![], 0, true), node("f", vec![], 0, true)]),
        Err(StoreError::Corrupt)
    ));
    let ok = GraphStore::open_readonly(SCHEMA_VERSION, vec![node("f", vec![], 1, true)]).unwrap();
    assert_eq!(ok.graph.data_accessors, vec!["f".to_string()]);
}

#[test]
fn build_into_store_writes_every_function() {
    let mut s = GraphStore::open_readwrite();
    let stats = build_into_store(&outcomes(), 2, &mut s).unwrap();
    assert_eq!(stats.total_functions, 3);
    assert_eq!(stats.total_calls, 2);
    assert_eq!(stats.resolved_calls, 2);
    assert_eq!(stats.resolution_permille, 1000);
    assert_eq!(s.graph.functions.len(), 3);
    assert_eq!(s.get_entry_points(), vec!["m.ts:main:1".to_string()]);
    assert_eq!(s.get_function(&"m.ts:a:10".to_string()).unwrap().qualified_name, "M.a");
    let mut one = GraphStore::open_readwrite();
    assert!(build_into_store(&outcomes(), 0, &mut one).is_ok());
    assert_eq!(one.graph.functions.len(), 3);
}

#[test]
fn build_into_read_only_store_fails() {
    let mut s = GraphStore::open_readonly(SCHEMA_VERSION, Vec::new()).unwrap();
    assert_eq!(build_into_store(&outcomes(), 50, &mut s).err(), Some(StoreError::ReadOnly));
}

#[test]
fn store_engine_distinguishes_missing_store_and_unknown_id() {
    let empty = StoreReachabilityEngine::new(GraphStore::open_readwrite(), Vec::new());
    assert!(!empty.is_available());
    let opts = ReachabilityOptions { max_depth: None, sensitive_only: false, tables: Vec::new(), include_unresolved: false };
    assert!(matches!(empty.reachable_from(&"m.ts:main:1".to_string(), &opts), Err(QueryError::StoreUnavailable)));
    let inv = InverseReachabilityOptions { table: "users".to_string(), field: None, max_depth: None };
    assert!(matches!(empty.paths_to_data(&inv), Err(QueryError::StoreUnavailable)));

    let mut s = GraphStore::open_readwrite();
    build_into_store(&outcomes(), 50, &mut s).unwrap();
    let engine = StoreReachabilityEngine::new(s, vec![FieldSensitivity { field: "email".to_string(), sensitivity: drift_core::forward::SensitivityType::Pii }]);
    assert!(matches!(engine.reachable_from(&"m.ts:zzz:1".to_string(), &opts), Err(QueryError::NotFound)));
    let r = engine.reachable_from(&"m.ts:main:1".to_string(), &opts).unwrap();
    assert_eq!(r.functions_traversed, 3);
    assert_eq!(r.max_depth, 2);
    assert!(engine.paths_to_data(&inv).unwrap().access_paths.is_empty());
}

#[test]
fn failed_build_keeps_whole_batches_only() {
    let mut s = GraphStore::open_readwrite();
    s.write_batch(vec![node("m.ts:a:10", vec![], 0, false)]).unwrap();
    assert_eq!(build_into_store(&outcomes(), 1, &mut s).err(), Some(StoreError::DuplicateId));
    let ids: Vec<String> = s.graph.functions.iter().map(|f| f.id.clone()).collect();
    assert_eq!(ids, vec!["m.ts:a:10".to_string(), "m.ts:main:1".to_string()]);
}
