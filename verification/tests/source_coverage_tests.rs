use projecta::source_coverage::{
    Branch, BranchKind, CoverageReport, FunctionInfo, Instrumentor, SourceFile,
};
use std::collections::HashSet;

fn sample_source() -> SourceFile {
    SourceFile {
        path: "test.rs".to_string(),
        lines: vec![
            "fn add(a: i32, b: i32) -> i32 {".to_string(),
            "    a + b".to_string(),
            "}".to_string(),
            "fn unused() {".to_string(),
            "    println!(\"never called\");".to_string(),
            "}".to_string(),
        ],
        functions: vec![
            FunctionInfo {
                name: "add".to_string(),
                start_line: 0,
                end_line: 2,
                statements: vec![1],
            },
            FunctionInfo {
                name: "unused".to_string(),
                start_line: 3,
                end_line: 5,
                statements: vec![4],
            },
        ],
    }
}

#[test]
fn complete_28_testing_coverage_test_parse_simple_function() {
    let content = r#"
fn add(a: i32, b: i32) -> i32 {
    let result = a + b;
    result
}
"#;
    let source = SourceFile::from_source("add.rs", content);
    assert_eq!(source.functions.len(), 1);
    assert_eq!(source.functions[0].name, "add");
}

#[test]
fn test_multiple_functions() {
    let content = r#"
fn foo() {
    println!("foo");
}

fn bar() -> i32 {
    42
}
"#;
    let source = SourceFile::from_source("multi.rs", content);
    assert_eq!(source.functions.len(), 2);
}

#[test]
fn test_find_executable_lines() {
    let content = r#"
fn test() {
    // This is a comment
    let x = 5;
    let y = 10;  // Executable with comment
}
"#;
    let source = SourceFile::from_source("exec.rs", content);
    let func = &source.functions[0];
    assert_eq!(func.statements.len(), 2);
}

#[test]
fn test_is_executable() {
    assert!(SourceFile::is_executable("let x = 5;"));
    assert!(SourceFile::is_executable("    return value;"));
    assert!(!SourceFile::is_executable("// comment"));
    assert!(!SourceFile::is_executable(""));
    assert!(!SourceFile::is_executable("   "));
    assert!(!SourceFile::is_executable("{"));
    assert!(!SourceFile::is_executable("}"));
}

#[test]
fn test_instrument_simple_function() {
    let source = SourceFile {
        path: "test.rs".to_string(),
        lines: vec![
            "fn add(a: i32, b: i32) -> i32 {".to_string(),
            "    let sum = a + b;".to_string(),
            "    sum".to_string(),
            "}".to_string(),
        ],
        functions: vec![FunctionInfo {
            name: "add".to_string(),
            start_line: 0,
            end_line: 3,
            statements: vec![1, 2],
        }],
    };
    let mut instrumentor = Instrumentor::new();
    let instrumented = instrumentor.instrument(&source);
    assert!(instrumented.instrumented.contains("record_line"));
    assert!(instrumented.line_mapping.len() > 0);
}

#[test]
fn test_preserve_indentation() {
    let line = "    let x = 5;";
    let probe = Instrumentor::inject_probe(line, 10);
    assert!(probe.starts_with("    "));
    assert!(probe.contains("record_line(10)"));
}

#[test]
fn test_find_if_branches() {
    let content = r#"
fn check(x: i32) -> bool {
    if x > 0 {
        true
    } else {
        false
    }
}
"#;
    let source = SourceFile::from_source("check.rs", content);
    let mut instrumentor = Instrumentor::new();
    let branches = instrumentor.find_branches(&source);
    assert_eq!(branches.len(), 2);
    assert!(branches.iter().any(|b| b.kind == BranchKind::IfTrue));
    assert!(branches.iter().any(|b| b.kind == BranchKind::IfFalse));
}

#[test]
fn test_find_match_branches() {
    let content = r#"
fn classify(x: i32) -> &'static str {
    match x {
        0 => "zero",
        1..=10 => "small",
        _ => "large",
    }
}
"#;
    let source = SourceFile::from_source("classify.rs", content);
    let mut instrumentor = Instrumentor::new();
    let branches = instrumentor.find_branches(&source);
    assert_eq!(branches.len(), 1);
}

#[test]
fn test_branch_instrumentation() {
    let content = r#"
fn abs(x: i32) -> i32 {
    if x < 0 {
        -x
    } else {
        x
    }
}
"#;
    let source = SourceFile::from_source("abs.rs", content);
    let mut instrumentor = Instrumentor::new();
    let branches = instrumentor.find_branches(&source);
    let instrumented = instrumentor.instrument_branches(&branches);
    assert!(instrumented.contains("record_branch"));
}

#[test]
fn function_scan_details() {
    let content = "fn a() { 1 }\n  pub fn skipped() {\n}\nfn  spaced  (x: u8) {\n    x;\n}\n";
    let source = SourceFile::from_source("s.rs", content);
    assert_eq!(source.lines.len(), 6);
    let names: Vec<&str> = source.functions.iter().map(|f| f.name.as_str()).collect();
    // a one-line function closes on its own line; `pub fn` does not open one
    assert_eq!(names, vec!["a", "spaced"]);
    assert_eq!(source.functions[0].start_line, 0);
    assert_eq!(source.functions[0].end_line, 0);
    assert_eq!(source.functions[1].start_line, 3);
    assert_eq!(source.functions[1].end_line, 5);
    assert_eq!(source.functions[1].statements, vec![4]);
    assert!(source.find_statements(2, 1).is_empty());
}

#[test]
fn instrumenting_maps_lines_and_numbers_branches() {
    let source = SourceFile::from_source(
        "x.rs",
        "fn f(x: i32) -> i32 {\n\tif x > 0 { x } else { 0 }\n}\nfn g(v: u8) {\n    match v { _ => () }\n}",
    );
    let mut inst = Instrumentor::new();
    let code = inst.instrument(&source);
    assert_eq!(
        code.instrumented,
        "fn f(x: i32) -> i32 {\n record_line(1);\n\tif x > 0 { x } else { 0 }\n}\nfn g(v: u8) {\n    record_line(4);\n    match v { _ => () }\n}"
    );
    assert_eq!(code.line_mapping.get(&1), Some(&1));
    assert_eq!(code.line_mapping.get(&2), None);
    assert_eq!(code.line_mapping.get(&3), Some(&2));
    assert_eq!(code.branches.len(), 3);
    assert_eq!(code.branches[2].kind, BranchKind::MatchArm(0));
    assert_eq!(code.branches[2].branch_id, 2);
    assert_eq!(inst.next_branch_id(), 3);
    let again = inst.find_branches(&source);
    assert_eq!(again[0].branch_id, 3);
    assert_eq!(
        inst.instrument_branches(&again[..2]),
        "record_branch(3);\nrecord_branch(4);\n"
    );
    assert_eq!(Instrumentor::inject_probe("  \t x = 1;  ", 7), "    record_line(7); x = 1;");
}

#[test]
fn report_counts_and_renders() {
    let mut coverage = HashSet::new();
    coverage.insert(1);
    let mut taken = HashSet::new();
    taken.insert(9);
    let branches = vec![
        Branch { line: 1, branch_id: 9, kind: BranchKind::IfTrue, taken: false },
        Branch { line: 1, branch_id: 10, kind: BranchKind::IfFalse, taken: false },
    ];
    let report = CoverageReport::new(sample_source(), &coverage, branches, &taken);
    assert_eq!(report.line_coverage.get(&1), Some(&true));
    assert_eq!(report.line_coverage.get(&4), Some(&false));
    assert!(report.branch_coverage[0].taken);
    assert!(!report.branch_coverage[1].taken);
    assert_eq!(
        report.function_coverage,
        vec![("add".to_string(), true), ("unused".to_string(), false)]
    );
    let counts = report.coverage_counts();
    assert_eq!(counts.lines_covered, 1);
    assert_eq!(counts.lines_total, 2);
    assert_eq!(counts.branches_covered, 1);
    assert_eq!(counts.branches_total, 2);
    assert_eq!(counts.functions_covered, 1);
    assert_eq!(counts.functions_total, 2);
    let listing = report.source_listing();
    assert!(listing.starts_with("   1   fn add(a: i32, b: i32) -> i32 {\n   2 ✓     a + b\n"));
    assert!(listing.contains("   5 ✗     println!"));
    let html = report.format_source_html();
    assert!(html.starts_with("<div class=\"neutral\">   1 fn add"));
    assert!(html.contains("<div class=\"covered\">   2     a + b</div>\n<div class=\"neutral\">   3 }</div>"));
}
