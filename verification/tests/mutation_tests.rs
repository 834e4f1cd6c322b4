use projecta::mutation::{
    batch_mutations, survived_points, tally_statuses, AnnotatedSource, CmpType, MutationOperator,
    MutationPoint, MutationResult, MutationStatus, OpType, Pattern, Transformation,
};
use std::time::Duration;

fn point(line: usize, column: usize, original: &str, mutated: &str, name: &str) -> MutationPoint {
    MutationPoint {
        line,
        column,
        original: original.to_string(),
        mutated: mutated.to_string(),
        operator_name: name.to_string(),
    }
}

fn result(p: MutationPoint, status: MutationStatus) -> MutationResult {
    MutationResult {
        mutation: p,
        status,
        test_output: String::new(),
        execution_time: Duration::from_secs(1),
    }
}

#[test]
fn test_find_arithmetic_mutations() {
    let operator = MutationOperator::new(
        "AddToSub",
        Pattern::BinaryOp(OpType::Add),
        vec![Transformation::Replace("-".to_string())],
    );
    let source = "let x = a + b;";
    let points = operator.find_mutation_points(source);
    assert_eq!(points.len(), 1);
    assert_eq!(points[0].original, "+");
    assert_eq!(points[0].mutated, "-");
}

#[test]
fn test_find_comparison_mutations() {
    let operator = MutationOperator::new(
        "GtToGe",
        Pattern::Comparison(CmpType::Gt),
        vec![Transformation::Replace(">=".to_string())],
    );
    let source = r#"
if x > 0 {
    println!("positive");
}
"#;
    let points = operator.find_mutation_points(source);
    assert_eq!(points.len(), 1);
    assert_eq!(points[0].line, 1);
}

#[test]
fn test_apply_mutation() {
    let point = point(0, 8, "+", "-", "AddToSub");
    let source = "let x = a + b;";
    let operator = MutationOperator::new(
        "AddToSub",
        Pattern::BinaryOp(OpType::Add),
        vec![Transformation::Replace("-".to_string())],
    );
    let mutated = operator.apply(source, &point);
    assert_eq!(mutated, "let x = a - b;");
}

#[test]
fn test_multiple_mutation_points() {
    let operator = MutationOperator::new(
        "AddToSub",
        Pattern::BinaryOp(OpType::Add),
        vec![Transformation::Replace("-".to_string())],
    );
    let source = "let x = a + b + c;";
    let points = operator.find_mutation_points(source);
    assert_eq!(points.len(), 2);
}

#[test]
fn test_predefined_operators() {
    let arith_ops = MutationOperator::arithmetic_mutations();
    assert!(arith_ops.len() > 0);
    let cmp_ops = MutationOperator::comparison_mutations();
    assert!(cmp_ops.len() > 0);
    let logic_ops = MutationOperator::logical_mutations();
    assert!(logic_ops.len() > 0);
}

#[test]
fn test_mutation_status() {
    let killed = MutationStatus::Killed;
    let survived = MutationStatus::Survived;
    assert_ne!(killed, survived);
}

#[test]
fn test_batch_mutations() {
    let mutations: Vec<MutationPoint> = (0..10)
        .map(|i| point(i, 0, "+", "-", &format!("Mutation{}", i)))
        .collect();
    let batches = batch_mutations(mutations, 3);
    assert!(batches.len() >= 3);
    assert_eq!(batches.iter().map(|b| b.len()).collect::<Vec<_>>(), vec![3, 3, 3, 1]);
    assert_eq!(batches[3][0].line, 9);
}

#[test]
fn test_annotation_creation() {
    let source = r#"
fn max(a: i32, b: i32) -> i32 {
    if a > b { a } else { b }
}
"#;
    let results = vec![result(point(2, 9, ">", ">=", "Comparison"), MutationStatus::Survived)];
    let annotated = AnnotatedSource::annotate(source, results);
    assert_eq!(annotated.annotations.len(), 1);
    assert!(annotated.annotations.contains_key(&2));
}

#[test]
fn test_terminal_rendering() {
    let source = r#"fn test() {
    let x = a + b;
}"#;
    let results = vec![result(point(1, 14, "+", "-", "Arithmetic"), MutationStatus::Survived)];
    let annotated = AnnotatedSource::annotate(source, results);
    let terminal_output = annotated.render_terminal();
    assert!(terminal_output.contains("1"));
    assert!(terminal_output.contains("let x = a + b;"));
    assert!(terminal_output.contains("Survived"));
}

#[test]
fn test_html_rendering() {
    let source = "fn test() { let x = 5; }";
    let annotated = AnnotatedSource::annotate(source, vec![]);
    let html = annotated.render_html();
    assert!(html.contains("<html"));
    assert!(html.contains("fn test"));
}

#[test]
fn test_return_value_mutations() {
    let operators = MutationOperator::return_value_mutations();
    assert!(operators.len() > 0);
    assert!(operators.iter().any(|op| op.name.contains("Return")));
}

#[test]
fn test_statement_deletion_mutations() {
    let operators = MutationOperator::statement_deletion_mutations();
    assert!(operators.len() > 0);
}

#[test]
fn test_constant_replacement_mutations() {
    let operators = MutationOperator::constant_replacement_mutations();
    assert!(operators.len() > 0);
}

#[test]
fn test_call_removal_mutations() {
    let operators = MutationOperator::call_removal_mutations();
    assert!(operators.len() > 0);
}

#[test]
fn test_combined_advanced_mutations() {
    let all_ops = MutationOperator::all_advanced_operators();
    assert!(all_ops.len() >= 4);
    assert!(all_ops.iter().any(|op| op.name.contains("Return")));
    assert!(all_ops.iter().any(|op| op.name.contains("Delete")));
    assert!(all_ops.iter().any(|op| op.name.contains("Constant")));
}

#[test]
fn test_metadata() {
    let source = "fn test() {}\nfn test2() {}";
    let annotated = AnnotatedSource::annotate(source, vec![]);
    assert_eq!(annotated.metadata.total_lines, 2);
}

#[test]
fn literal_columns_are_byte_offsets_and_points_carry_lines() {
    let op = MutationOperator::new(
        "AndToOr",
        Pattern::Literal("&&".to_string()),
        vec![Transformation::Replace("||".to_string())],
    );
    let points = op.find_mutation_points("é && b\r\nx && y && z\n");
    assert_eq!(points.len(), 2);
    assert_eq!((points[0].line, points[0].column), (0, 3));
    assert_eq!((points[1].line, points[1].column), (1, 2));
    assert_eq!(points[1].operator_name, "AndToOr");
    let applied = op.apply("é && b\r\nx && y && z\n", &points[1]);
    assert_eq!(applied, "é && b\nx || y && z");
    // a deleting operator finds nothing to replace
    let del = MutationOperator::statement_deletion_mutations();
    assert!(del[0].find_mutation_points("let x = 1;").is_empty());
    assert_eq!(op.describe(), "Mutation operator: AndToOr");
}

#[test]
fn apply_leaves_other_lines_and_missing_text_alone() {
    let op = MutationOperator::new(
        "X",
        Pattern::Literal("q".to_string()),
        vec![Transformation::Replace("r".to_string())],
    );
    let p = point(0, 0, "zz", "y", "X");
    assert_eq!(op.apply("a\nb", &p), "a\nb");
    let p = point(5, 0, "a", "y", "X");
    assert_eq!(op.apply("a\na", &p), "a\na");
}

#[test]
fn status_tallies_and_survivors() {
    let results = vec![
        result(point(1, 0, "+", "-", "Arithmetic"), MutationStatus::Killed),
        result(point(2, 0, ">", ">=", "Comparison"), MutationStatus::Survived),
        result(point(3, 0, "&&", "||", "Logical"), MutationStatus::Timeout),
        result(point(4, 0, "0", "1", "Boundary"), MutationStatus::CompileError),
    ];
    let t = tally_statuses(&results);
    assert_eq!((t.total, t.killed, t.survived, t.timeouts, t.compile_errors), (4, 1, 1, 1, 1));
    let s = survived_points(&results);
    assert_eq!(s.len(), 1);
    assert_eq!(s[0].line, 2);
    assert_eq!(
        MutationStatus::after_run(&Ok(true)),
        MutationStatus::Survived
    );
    assert_eq!(
        MutationStatus::after_run(&Ok(false)),
        MutationStatus::Killed
    );
}

#[test]
fn rendering_marks_escapes_and_numbers_lines() {
    let results = vec![
        result(point(0, 0, ">", ">=", "Comparison"), MutationStatus::Killed),
        result(point(0, 0, "<", "<=", "Other"), MutationStatus::Survived),
    ];
    let annotated = AnnotatedSource::annotate("if a<b {}\nok", results);
    assert_eq!(annotated.metadata.annotated_lines, 1);
    assert_eq!(annotated.annotations[&0].len(), 2);
    let term = annotated.render_terminal();
    assert_eq!(
        term,
        "   1 if a<b {}\n     └─ ✓ Killed - Add test case for boundary condition (equal values)\n     └─ ✗ Survived - Add test to cover this mutation\n   2 ok\n"
    );
    let html = annotated.render_html();
    assert!(html.contains(
        "<div class=\"annotated\"><span class=\"line-num\">1</span> if a&lt;b {}</div><div class=\"normal\"><span class=\"line-num\">2</span> ok</div>"
    ));
    assert!(html.starts_with("<!DOCTYPE html>\n<html>"));
    assert!(html.ends_with("</pre>\n</body>\n</html>"));
}
