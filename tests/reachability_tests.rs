use drift_core::forward::{
    classify_field, FieldSensitivity, ReachabilityEngine, ReachabilityOptions, SensitivityType,
};
use drift_core::graph::{CallEdge, CallGraph, DataAccessPoint, DataOperation, FunctionNode, QueryError};
use drift_core::inverse::InverseReachabilityOptions;
use drift_core::traversal::shortest_depths;

fn resolved(callee: &str, target: &str, line: u32) -> CallEdge {
    CallEdge {
        callee_name: callee.to_string(),
        resolved: true,
        resolved_candidates: vec![target.to_string()],
        line,
    }
}

fn unresolved(callee: &str, candidates: &[&str], line: u32) -> CallEdge {
    CallEdge {
        callee_name: callee.to_string(),
        resolved: false,
        resolved_candidates: candidates.iter().map(|c| c.to_string()).collect(),
        line,
    }
}

fn access(table: &str, fields: &[&str], line: u32) -> DataAccessPoint {
    DataAccessPoint {
        table: table.to_string(),
        operation: DataOperation::Read,
        fields: fields.iter().map(|f| f.to_string()).collect(),
        file: "src/db.ts".to_string(),
        line,
        confidence: 900,
        framework: None,
    }
}

fn func(name: &str, calls: Vec<CallEdge>, data_access: Vec<DataAccessPoint>, entry: bool) -> FunctionNode {
    FunctionNode {
        id: name.to_string(),
        name: name.to_string(),
        qualified_name: name.to_string(),
        file: "src/app.ts".to_string(),
        start_line: 1,
        end_line: 10,
        calls,
        data_access,
        is_entry_point: entry,
    }
}

fn graph(functions: Vec<FunctionNode>) -> CallGraph {
    let entry_points = functions.iter().filter(|f| f.is_entry_point).map(|f| f.id.clone()).collect();
    let data_accessors = functions.iter().filter(|f| !f.data_access.is_empty()).map(|f| f.id.clone()).collect();
    CallGraph { functions, entry_points, data_accessors }
}

fn options() -> ReachabilityOptions {
    ReachabilityOptions { max_depth: None, sensitive_only: false, tables: Vec::new(), include_unresolved: false }
}

fn email_rule() -> Vec<FieldSensitivity> {
    vec![FieldSensitivity { field: "email".to_string(), sensitivity: SensitivityType::Pii }]
}

fn main_handler_query() -> CallGraph {
    graph(vec![
        func("main", vec![resolved("handler", "handler", 3)], vec![], true),
        func("handler", vec![resolved("queryUsers", "queryUsers", 7)], vec![], false),
        func("queryUsers", vec![], vec![access("users", &["email"], 12)], false),
    ])
}

fn inverse(table: &str) -> InverseReachabilityOptions {
    InverseReachabilityOptions { table: table.to_string(), field: None, max_depth: None }
}

#[test]
fn scenario_main_handler_query_forward() {
    let engine = ReachabilityEngine::new(main_handler_query(), email_rule());
    let r = engine.reachable_from(&"main".to_string(), &options()).unwrap();
    assert_eq!(r.reachable_access.len(), 1);
    assert_eq!(r.reachable_access[0].access.table, "users");
    assert_eq!(r.reachable_access[0].depth, 2);
    assert_eq!(r.reachable_access[0].path.len(), 2);
    assert_eq!(r.reachable_access[0].path[0].function_id, "main");
    assert_eq!(r.reachable_access[0].path[0].line, 3);
    assert_eq!(r.reachable_access[0].path[1].function_id, "handler");
    assert_eq!(r.reachable_access[0].path[1].line, 7);
    assert_eq!(r.tables, vec!["users".to_string()]);
    assert_eq!(r.sensitive_fields.len(), 1);
    assert_eq!(r.sensitive_fields[0].field.field, "email");
    assert_eq!(r.sensitive_fields[0].field.table, Some("users".to_string()));
    assert_eq!(r.sensitive_fields[0].field.sensitivity_type, SensitivityType::Pii);
    assert_eq!(r.sensitive_fields[0].access_count, 1);
    assert_eq!(r.sensitive_fields[0].paths.len(), 1);
    assert_eq!(r.sensitive_fields[0].paths[0].len(), 2);
    assert_eq!(r.functions_traversed, 3);
    assert_eq!(r.max_depth, 2);
    assert_eq!(r.origin.function_id, Some("main".to_string()));
}

#[test]
fn scenario_main_handler_query_inverse() {
    let engine = ReachabilityEngine::new(main_handler_query(), email_rule());
    let r = engine.paths_to_data(&inverse("users"));
    assert_eq!(r.access_paths.len(), 1);
    assert_eq!(r.access_paths[0].entry_point, "main");
    assert_eq!(r.access_paths[0].access_point.table, "users");
    let ids: Vec<&str> = r.access_paths[0].path.iter().map(|p| p.function_id.as_str()).collect();
    assert_eq!(ids, vec!["main", "handler"]);
    assert_eq!(r.access_paths[0].path[0].line, 3);
    assert_eq!(r.access_paths[0].path[1].line, 7);
    assert_eq!(r.entry_points, vec!["main".to_string()]);
    assert_eq!(r.total_accessors, 1);
    assert_eq!(r.target.table, "users");
}

#[test]
fn unknown_origin_is_not_found() {
    let engine = ReachabilityEngine::new(main_handler_query(), Vec::new());
    let r = engine.reachable_from(&"nowhere".to_string(), &options());
    assert!(matches!(r, Err(QueryError::NotFound)));
}

#[test]
fn cycle_terminates_and_counts_each_function_once() {
    let g = graph(vec![
        func("a", vec![resolved("b", "b", 2)], vec![], true),
        func("b", vec![resolved("a", "a", 5), resolved("c", "c", 6)], vec![], false),
        func("c", vec![resolved("b", "b", 9)], vec![access("orders", &["total"], 9)], false),
    ]);
    let engine = ReachabilityEngine::new(g, Vec::new());
    let r = engine.reachable_from(&"a".to_string(), &options()).unwrap();
    assert_eq!(r.functions_traversed, 3);
    assert!(r.functions_traversed <= engine.graph.functions.len());
    assert_eq!(r.reachable_access.len(), 1);
    assert_eq!(r.reachable_access[0].depth, 2);
}

#[test]
fn depth_is_shortest_chain() {
    let g = graph(vec![
        func("o", vec![resolved("x", "x", 1), resolved("f", "f", 2)], vec![], true),
        func("x", vec![resolved("y", "y", 3)], vec![], false),
        func("y", vec![resolved("f", "f", 4)], vec![], false),
        func("f", vec![], vec![access("t", &[], 5)], false),
    ]);
    let t = shortest_depths(&g, 0, None);
    assert_eq!(t.order, vec![0, 1, 3, 2]);
    assert_eq!(t.depth[3], 1);
    assert_eq!(t.depth[2], 2);
    let engine = ReachabilityEngine::new(g, Vec::new());
    let r = engine.reachable_from(&"o".to_string(), &options()).unwrap();
    assert_eq!(r.reachable_access[0].depth, 1);
    assert_eq!(r.reachable_access[0].path.len(), 1);
    assert_eq!(r.reachable_access[0].path[0].line, 2);
}

#[test]
fn max_depth_bounds_traversal() {
    let engine = ReachabilityEngine::new(main_handler_query(), Vec::new());
    let mut opts = options();
    opts.max_depth = Some(1);
    let r = engine.reachable_from(&"main".to_string(), &opts).unwrap();
    assert_eq!(r.functions_traversed, 2);
    assert!(r.reachable_access.is_empty());
    assert_eq!(r.max_depth, 1);
    opts.max_depth = Some(0);
    let r0 = engine.reachable_from(&"main".to_string(), &opts).unwrap();
    assert_eq!(r0.functions_traversed, 1);
    assert_eq!(r0.max_depth, 0);
}

#[test]
fn table_filter_keeps_only_named_tables() {
    let g = graph(vec![
        func("main", vec![resolved("a", "a", 1), resolved("b", "b", 2)], vec![], true),
        func("a", vec![], vec![access("users", &["email"], 3)], false),
        func("b", vec![], vec![access("orders", &["total"], 4)], false),
    ]);
    let engine = ReachabilityEngine::new(g, Vec::new());
    let mut opts = options();
    opts.tables = vec!["users".to_string()];
    let r = engine.reachable_from(&"main".to_string(), &opts).unwrap();
    assert_eq!(r.reachable_access.len(), 1);
    assert!(r.reachable_access.iter().all(|a| a.access.table == "users"));
    assert_eq!(r.tables, vec!["users".to_string()]);
    let all = engine.reachable_from(&"main".to_string(), &options()).unwrap();
    assert_eq!(all.reachable_access.len(), 2);
    assert_eq!(all.tables, vec!["users".to_string(), "orders".to_string()]);
}

#[test]
fn sensitive_only_drops_accesses_without_sensitive_fields() {
    let g = graph(vec![
        func("main", vec![resolved("a", "a", 1), resolved("b", "b", 2)], vec![], true),
        func("a", vec![], vec![access("users", &["id", "email"], 3)], false),
        func("b", vec![], vec![access("orders", &["total"], 4)], false),
    ]);
    let engine = ReachabilityEngine::new(g, email_rule());
    let mut opts = options();
    opts.sensitive_only = true;
    let r = engine.reachable_from(&"main".to_string(), &opts).unwrap();
    assert_eq!(r.reachable_access.len(), 1);
    assert_eq!(r.reachable_access[0].access.table, "users");
}

#[test]
fn sensitive_fields_aggregate_across_paths() {
    let g = graph(vec![
        func("main", vec![resolved("a", "a", 1), resolved("b", "b", 2)], vec![], true),
        func("a", vec![], vec![access("users", &["email"], 3)], false),
        func("b", vec![], vec![access("users", &["email", "name"], 4), access("accounts", &["email"], 5)], false),
    ]);
    let engine = ReachabilityEngine::new(g, email_rule());
    let r = engine.reachable_from(&"main".to_string(), &options()).unwrap();
    assert_eq!(r.sensitive_fields.len(), 2);
    let users = r.sensitive_fields.iter().find(|s| s.field.table == Some("users".to_string())).unwrap();
    assert_eq!(users.access_count, 2);
    assert_eq!(users.paths.len(), 2);
    let accounts = r.sensitive_fields.iter().find(|s| s.field.table == Some("accounts".to_string())).unwrap();
    assert_eq!(accounts.access_count, 1);
}

#[test]
fn ambiguous_call_is_a_dead_end() {
    let g = graph(vec![
        func("main", vec![unresolved("helper", &["lib/a.ts:helper:1", "lib/b.ts:helper:1"], 2)], vec![], true),
        func("lib/a.ts:helper:1", vec![], vec![access("users", &[], 1)], false),
        func("lib/b.ts:helper:1", vec![], vec![access("users", &[], 1)], false),
    ]);
    let engine = ReachabilityEngine::new(g, Vec::new());
    let r = engine.reachable_from(&"main".to_string(), &options()).unwrap();
    assert_eq!(r.functions_traversed, 1);
    assert!(r.reachable_access.is_empty());
    assert!(r.unresolved_calls.is_empty());

    let mut opts = options();
    opts.include_unresolved = true;
    let r2 = engine.reachable_from(&"main".to_string(), &opts).unwrap();
    assert_eq!(r2.functions_traversed, 1);
    assert!(r2.reachable_access.is_empty());
    assert_eq!(r2.unresolved_calls.len(), 1);
    assert_eq!(r2.unresolved_calls[0].callee_name, "helper");
    assert_eq!(r2.unresolved_calls[0].caller_id, "main");
    assert_eq!(r2.unresolved_calls[0].candidates.len(), 2);
    assert_eq!(r2.unresolved_calls[0].line, 2);
}

#[test]
fn classify_uses_first_matching_rule() {
    let rules = vec![
        FieldSensitivity { field: "ssn".to_string(), sensitivity: SensitivityType::Pii },
        FieldSensitivity { field: "card".to_string(), sensitivity: SensitivityType::Financial },
        FieldSensitivity { field: "card".to_string(), sensitivity: SensitivityType::Pii },
    ];
    assert_eq!(classify_field(&rules, &"card".to_string()), SensitivityType::Financial);
    assert_eq!(classify_field(&rules, &"ssn".to_string()), SensitivityType::Pii);
    assert_eq!(classify_field(&rules, &"name".to_string()), SensitivityType::Unknown);
}

#[test]
fn inverse_stops_at_entry_points_and_respects_depth() {
    let g = graph(vec![
        func("root", vec![resolved("route", "route", 1)], vec![], true),
        func("route", vec![resolved("svc", "svc", 2)], vec![], true),
        func("svc", vec![resolved("repo", "repo", 3)], vec![], false),
        func("repo", vec![], vec![access("users", &["email"], 4)], false),
    ]);
    let engine = ReachabilityEngine::new(g, Vec::new());
    let r = engine.paths_to_data(&inverse("users"));
    assert_eq!(r.entry_points, vec!["route".to_string()]);
    assert_eq!(r.access_paths.len(), 1);
    assert_eq!(r.access_paths[0].path.len(), 2);

    let bounded = engine.paths_to_data(&InverseReachabilityOptions {
        table: "users".to_string(),
        field: None,
        max_depth: Some(1),
    });
    assert!(bounded.access_paths.is_empty());
    assert_eq!(bounded.total_accessors, 1);
}

#[test]
fn inverse_field_filter_and_accessor_count() {
    let g = graph(vec![
        func("main", vec![resolved("a", "a", 1), resolved("b", "b", 2)], vec![], true),
        func("a", vec![], vec![access("users", &["email"], 3)], false),
        func("b", vec![], vec![access("users", &["name"], 4)], false),
    ]);
    let engine = ReachabilityEngine::new(g, Vec::new());
    let all = engine.paths_to_data(&inverse("users"));
    assert_eq!(all.total_accessors, 2);
    assert_eq!(all.access_paths.len(), 2);
    assert_eq!(all.entry_points, vec!["main".to_string()]);
    let email = engine.paths_to_data(&InverseReachabilityOptions {
        table: "users".to_string(),
        field: Some("email".to_string()),
        max_depth: None,
    });
    assert_eq!(email.total_accessors, 1);
    assert_eq!(email.access_paths.len(), 1);
    assert_eq!(email.access_paths[0].access_point.fields, vec!["email".to_string()]);
    assert_eq!(email.target.field, Some("email".to_string()));
    let none = engine.paths_to_data(&inverse("payments"));
    assert_eq!(none.total_accessors, 0);
    assert!(none.access_paths.is_empty());
}

#[test]
fn forward_and_inverse_agree_from_entry_point() {
    let engine = ReachabilityEngine::new(main_handler_query(), Vec::new());
    let fwd = engine.reachable_from(&"main".to_string(), &options()).unwrap();
    for a in &fwd.reachable_access {
        let inv = engine.paths_to_data(&inverse(&a.access.table));
        assert!(inv.access_paths.iter().any(|p| p.entry_point == "main" && p.access_point.line == a.access.line));
    }
}

#[test]
fn accessor_that_is_entry_point_reports_itself() {
    let g = graph(vec![func("job", vec![], vec![access("users", &[], 1)], true)]);
    let engine = ReachabilityEngine::new(g, Vec::new());
    let r = engine.paths_to_data(&inverse("users"));
    assert_eq!(r.access_paths.len(), 1);
    assert_eq!(r.access_paths[0].entry_point, "job");
    assert!(r.access_paths[0].path.is_empty());
}

#[test]
fn identical_access_points_are_reported_once() {
    let g = graph(vec![func("job", vec![], vec![access("users", &["email"], 7), access("users", &["email"], 7)], true)]);
    let engine = ReachabilityEngine::new(g, Vec::new());
    let r = engine.paths_to_data(&inverse("users"));
    assert_eq!(r.access_paths.len(), 1);
    assert_eq!(r.access_paths[0].entry_point, "job");
    assert_eq!(r.total_accessors, 1);
}

#[test]
fn results_follow_storage_order_within_a_level() {
    let g = graph(vec![
        func("main", vec![resolved("b", "b", 1), resolved("a", "a", 2)], vec![], true),
        func("a", vec![resolved("c", "c", 3)], vec![access("t1", &[], 1)], false),
        func("b", vec![resolved("c", "c", 4)], vec![access("t2", &[], 2)], false),
        func("c", vec![], vec![access("t3", &[], 3)], false),
    ]);
    let engine = ReachabilityEngine::new(g, Vec::new());
    let r = engine.reachable_from(&"main".to_string(), &options()).unwrap();
    let tables: Vec<&str> = r.reachable_access.iter().map(|a| a.access.table.as_str()).collect();
    assert_eq!(tables, vec!["t1", "t2", "t3"]);
    let c_path: Vec<&str> = r.reachable_access[2].path.iter().map(|p| p.function_id.as_str()).collect();
    assert_eq!(c_path, vec!["main", "a"]);
    assert_eq!(r.reachable_access[2].path[1].line, 3);
}
