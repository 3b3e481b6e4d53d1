use drift_core::builder::{
    build, build_graph, module_of, DataAccessAnnotation, ExtractedFunction, FileExtraction,
    FileOutcome,
};
use drift_core::graph::{function_id, CallGraph, DataOperation, FunctionNode};
use drift_core::types::{CallSite, Range};

fn call(callee: &str, line: u32) -> CallSite {
    CallSite { callee: callee.to_string(), receiver: None, arg_count: 0, range: Range::new(line, 0, line, 10) }
}

fn func(name: &str, start: u32, end: u32, calls: Vec<CallSite>) -> ExtractedFunction {
    ExtractedFunction {
        name: name.to_string(),
        qualified_name: None,
        start_line: start,
        end_line: end,
        is_exported: false,
        calls,
    }
}

fn file(path: &str, functions: Vec<ExtractedFunction>) -> FileOutcome {
    FileOutcome::Extracted(FileExtraction {
        file: path.to_string(),
        functions,
        annotations: Vec::new(),
        entry_markers: Vec::new(),
    })
}

fn node<'a>(g: &'a CallGraph, id: &str) -> &'a FunctionNode {
    g.functions.iter().find(|f| f.id == id).expect("function present")
}

#[test]
fn function_id_joins_file_name_and_line() {
    assert_eq!(function_id("src/a.ts", "main", 12), "src/a.ts:main:12");
    assert_eq!(function_id("x.py", "f", 0), "x.py:f:0");
    assert_eq!(function_id("y.go", "g", 4294967295), "y.go:g:4294967295");
}

#[test]
fn module_is_directory_part() {
    assert_eq!(module_of("src/api/users.ts"), "src/api");
    assert_eq!(module_of("main.rs"), "");
    assert_eq!(module_of("/abs/x"), "/abs");
}

#[test]
fn same_file_match_is_preferred() {
    let outs = vec![
        file("src/a.ts", vec![func("main", 1, 5, vec![call("helper", 2)]), func("helper", 10, 12, vec![])]),
        file("src/b.ts", vec![func("helper", 1, 3, vec![])]),
    ];
    let (g, _) = build_graph(&outs);
    let main = node(&g, "src/a.ts:main:1");
    assert_eq!(main.calls.len(), 1);
    assert!(main.calls[0].resolved);
    assert_eq!(main.calls[0].resolved_candidates, vec!["src/a.ts:helper:10".to_string()]);
    assert_eq!(main.calls[0].line, 2);
    assert_eq!(main.calls[0].callee_name, "helper");
}

#[test]
fn same_module_match_before_project() {
    let outs = vec![
        file("src/api/a.ts", vec![func("main", 1, 5, vec![call("helper", 2)])]),
        file("src/api/b.ts", vec![func("helper", 1, 3, vec![])]),
        file("lib/c.ts", vec![func("helper", 1, 3, vec![])]),
    ];
    let (g, _) = build_graph(&outs);
    let main = node(&g, "src/api/a.ts:main:1");
    assert!(main.calls[0].resolved);
    assert_eq!(main.calls[0].resolved_candidates, vec!["src/api/b.ts:helper:1".to_string()]);
}

#[test]
fn unique_project_match_resolves() {
    let outs = vec![
        file("src/a.ts", vec![func("main", 1, 5, vec![call("helper", 2)])]),
        file("lib/c.ts", vec![func("helper", 7, 9, vec![])]),
    ];
    let (g, _) = build_graph(&outs);
    let main = node(&g, "src/a.ts:main:1");
    assert!(main.calls[0].resolved);
    assert_eq!(main.calls[0].resolved_candidates, vec!["lib/c.ts:helper:7".to_string()]);
}

#[test]
fn ambiguous_call_keeps_both_candidates() {
    let outs = vec![
        file("src/a.ts", vec![func("main", 1, 5, vec![call("helper", 2)])]),
        file("lib/b.ts", vec![func("helper", 1, 3, vec![])]),
        file("pkg/c.ts", vec![func("helper", 4, 6, vec![])]),
    ];
    let (g, _) = build_graph(&outs);
    let main = node(&g, "src/a.ts:main:1");
    assert!(!main.calls[0].resolved);
    assert_eq!(main.calls[0].resolved_candidates.len(), 2);
    assert!(main.calls[0].resolved_candidates.contains(&"lib/b.ts:helper:1".to_string()));
    assert!(main.calls[0].resolved_candidates.contains(&"pkg/c.ts:helper:4".to_string()));
    assert!(node(&g, "lib/b.ts:helper:1").is_entry_point);
    assert!(node(&g, "pkg/c.ts:helper:4").is_entry_point);
}

#[test]
fn unknown_callee_is_unresolved_without_candidates() {
    let outs = vec![file("src/a.ts", vec![func("main", 1, 5, vec![call("printf", 2)])])];
    let (g, _) = build_graph(&outs);
    let main = node(&g, "src/a.ts:main:1");
    assert!(!main.calls[0].resolved);
    assert!(main.calls[0].resolved_candidates.is_empty());
}

#[test]
fn entry_points_are_never_called_or_marked() {
    let mut outs = vec![
        file("src/a.ts", vec![
            func("main", 1, 5, vec![call("handler", 2)]),
            func("handler", 10, 20, vec![call("query", 11)]),
            func("query", 30, 40, vec![]),
        ]),
    ];
    let (g, _) = build_graph(&outs);
    assert!(node(&g, "src/a.ts:main:1").is_entry_point);
    assert!(!node(&g, "src/a.ts:handler:10").is_entry_point);
    assert!(!node(&g, "src/a.ts:query:30").is_entry_point);
    assert_eq!(g.entry_points, vec!["src/a.ts:main:1".to_string()]);

    if let FileOutcome::Extracted(fx) = &mut outs[0] {
        fx.entry_markers.push("handler".to_string());
    }
    let (g2, _) = build_graph(&outs);
    assert!(node(&g2, "src/a.ts:handler:10").is_entry_point);
    assert_eq!(g2.entry_points, vec!["src/a.ts:main:1".to_string(), "src/a.ts:handler:10".to_string()]);
}

#[test]
fn annotations_attach_to_enclosing_function() {
    let outs = vec![FileOutcome::Extracted(FileExtraction {
        file: "src/db.ts".to_string(),
        functions: vec![func("queryUsers", 1, 9, vec![]), func("other", 10, 12, vec![])],
        annotations: vec![DataAccessAnnotation {
            enclosing_function: "queryUsers".to_string(),
            table: "users".to_string(),
            operation: DataOperation::Read,
            fields: vec!["email".to_string()],
            line: 4,
            confidence: 900,
            framework: Some("prisma".to_string()),
        }],
        entry_markers: Vec::new(),
    })];
    let (g, _) = build_graph(&outs);
    let q = node(&g, "src/db.ts:queryUsers:1");
    assert_eq!(q.data_access.len(), 1);
    assert_eq!(q.data_access[0].table, "users");
    assert_eq!(q.data_access[0].file, "src/db.ts");
    assert_eq!(q.data_access[0].line, 4);
    assert_eq!(q.data_access[0].fields, vec!["email".to_string()]);
    assert_eq!(q.data_access[0].framework, Some("prisma".to_string()));
    assert!(node(&g, "src/db.ts:other:10").data_access.is_empty());
    assert_eq!(g.data_accessors, vec!["src/db.ts:queryUsers:1".to_string()]);
}

#[test]
fn failed_file_is_reported_and_left_out() {
    let outs = vec![
        FileOutcome::Failed { file: "bad.ts".to_string(), message: "syntax error".to_string() },
        file("good.ts", vec![func("f", 1, 2, vec![])]),
    ];
    let (g, stats) = build(&outs);
    assert_eq!(g.functions.len(), 1);
    assert_eq!(stats.errors, vec!["bad.ts: syntax error".to_string()]);
    assert_eq!(stats.files_processed, 2);
    assert_eq!(stats.total_functions, 1);
}

#[test]
fn empty_input_builds_empty_graph() {
    let outs: Vec<FileOutcome> = Vec::new();
    let (g, stats) = build(&outs);
    assert!(g.functions.is_empty());
    assert_eq!(stats.total_calls, 0);
    assert_eq!(stats.resolution_permille, 0);
    assert!(stats.errors.is_empty());
}

#[test]
fn stats_count_calls_and_resolution_rate() {
    let outs = vec![
        file("src/a.ts", vec![
            func("main", 1, 5, vec![call("helper", 2), call("printf", 3), call("helper", 4)]),
            func("helper", 10, 12, vec![]),
        ]),
    ];
    let (_, stats) = build(&outs);
    assert_eq!(stats.total_functions, 2);
    assert_eq!(stats.total_calls, 3);
    assert_eq!(stats.resolved_calls, 2);
    assert_eq!(stats.resolution_permille, 666);
    assert_eq!(stats.entry_points, 1);
    assert_eq!(stats.data_accessors, 0);
}

#[test]
fn duplicate_function_id_kept_once() {
    let outs = vec![file("a.ts", vec![func("f", 1, 2, vec![]), func("f", 1, 3, vec![])])];
    let (g, _) = build_graph(&outs);
    assert_eq!(g.functions.len(), 1);
    assert_eq!(g.functions[0].end_line, 2);
}

#[test]
fn rebuild_gives_same_ids() {
    let make = || vec![
        file("src/a.ts", vec![func("main", 1, 5, vec![call("helper", 2)]), func("helper", 10, 12, vec![])]),
        file("src/b.ts", vec![func("helper", 1, 3, vec![])]),
    ];
    let (g1, _) = build_graph(&make());
    let (g2, _) = build_graph(&make());
    let ids1: Vec<String> = g1.functions.iter().map(|f| f.id.clone()).collect();
    let ids2: Vec<String> = g2.functions.iter().map(|f| f.id.clone()).collect();
    assert_eq!(ids1, ids2);
    assert_eq!(ids1, vec!["src/a.ts:main:1", "src/a.ts:helper:10", "src/b.ts:helper:1"]);
}

#[test]
fn resolved_calls_name_one_existing_function() {
    let outs = vec![
        file("src/a.ts", vec![func("main", 1, 5, vec![call("helper", 2), call("other", 3)]), func("helper", 10, 12, vec![call("main", 11)])]),
        file("lib/b.ts", vec![func("other", 1, 3, vec![])]),
        file("pkg/c.ts", vec![func("other", 1, 3, vec![])]),
    ];
    let (g, _) = build_graph(&outs);
    for f in &g.functions {
        for c in &f.calls {
            if c.resolved {
                assert_eq!(c.resolved_candidates.len(), 1);
                assert!(g.functions.iter().any(|h| h.id == c.resolved_candidates[0]));
            }
        }
    }
}
