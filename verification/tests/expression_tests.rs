use projecta::expression::{
    aligned_start, parse_and_eval, BoxExpr, BoxExprBuilder, Expr, Lexer, OpType, Parser, Token,
};

#[test]
fn test_literal_eval() {
    let expr = Expr::Literal(42);
    assert_eq!(expr.eval(), Ok(42));
}

#[test]
fn test_binop_eval() {
    let left = Expr::Literal(10);
    let right = Expr::Literal(5);
    let expr = Expr::BinOp { op: OpType::Add, left: &left, right: &right };
    assert_eq!(expr.eval(), Ok(15));
}

#[test]
fn test_nested_eval() {
    let two = Expr::Literal(2);
    let three = Expr::Literal(3);
    let four = Expr::Literal(4);
    let add = Expr::BinOp { op: OpType::Add, left: &two, right: &three };
    let mul = Expr::BinOp { op: OpType::Mul, left: &add, right: &four };
    assert_eq!(mul.eval(), Ok(20));
}

#[test]
fn test_division_by_zero() {
    let ten = Expr::Literal(10);
    let zero = Expr::Literal(0);
    let expr = Expr::BinOp { op: OpType::Div, left: &ten, right: &zero };
    assert!(expr.eval().is_err());
}

#[test]
fn test_box_expr_literal() {
    let expr = BoxExprBuilder::literal(42);
    assert_eq!(expr.eval(), Ok(42));
}

#[test]
fn test_box_expr_addition() {
    let expr = BoxExprBuilder::add(BoxExprBuilder::literal(10), BoxExprBuilder::literal(5));
    assert_eq!(expr.eval(), Ok(15));
}

#[test]
fn test_box_expr_nested() {
    let expr = BoxExprBuilder::mul(
        BoxExprBuilder::add(BoxExprBuilder::literal(2), BoxExprBuilder::literal(3)),
        BoxExprBuilder::literal(4),
    );
    assert_eq!(expr.eval(), Ok(20));
}

#[test]
fn test_box_expr_complex() {
    let expr = BoxExprBuilder::add(
        BoxExprBuilder::mul(
            BoxExprBuilder::sub(BoxExprBuilder::literal(10), BoxExprBuilder::literal(5)),
            BoxExprBuilder::literal(2),
        ),
        BoxExprBuilder::div(BoxExprBuilder::literal(8), BoxExprBuilder::literal(4)),
    );
    assert_eq!(expr.eval(), Ok(12));
}

#[test]
fn test_lexer_numbers() {
    let mut lexer = Lexer::new("123 456");
    assert_eq!(lexer.next_token(), Ok(Token::Number(123)));
    assert_eq!(lexer.next_token(), Ok(Token::Number(456)));
    assert_eq!(lexer.next_token(), Ok(Token::End));
}

#[test]
fn test_lexer_operators() {
    let mut lexer = Lexer::new("+ - * /");
    assert_eq!(lexer.next_token(), Ok(Token::Plus));
    assert_eq!(lexer.next_token(), Ok(Token::Minus));
    assert_eq!(lexer.next_token(), Ok(Token::Star));
    assert_eq!(lexer.next_token(), Ok(Token::Slash));
}

#[test]
fn test_lexer_expression() {
    let mut lexer = Lexer::new("(2 + 3) * 4");
    let tokens = lexer.tokenize().unwrap();
    assert_eq!(
        tokens,
        vec![
            Token::LeftParen,
            Token::Number(2),
            Token::Plus,
            Token::Number(3),
            Token::RightParen,
            Token::Star,
            Token::Number(4),
            Token::End,
        ]
    );
}

#[test]
fn test_lexer_error() {
    let mut lexer = Lexer::new("2 & 3");
    assert!(lexer.tokenize().is_err());
}

#[test]
fn test_parse_number() {
    assert_eq!(parse_and_eval("42"), Ok(42));
}

#[test]
fn complete_02_expression_test_parse_addition() {
    assert_eq!(parse_and_eval("2 + 3"), Ok(5));
}

#[test]
fn test_parse_precedence() {
    assert_eq!(parse_and_eval("2 + 3 * 4"), Ok(14));
}

#[test]
fn test_parse_parentheses() {
    assert_eq!(parse_and_eval("(2 + 3) * 4"), Ok(20));
}

#[test]
fn test_parse_complex() {
    assert_eq!(parse_and_eval("(10 - 5) * 2 + 8 / 4"), Ok(12));
}

#[test]
fn test_parse_nested() {
    assert_eq!(parse_and_eval("((1 + 2) * (3 + 4)) / (5 - 2)"), Ok(7));
}

#[test]
fn test_parse_error() {
    assert!(parse_and_eval("2 + + 3").is_err());
    assert!(parse_and_eval("(2 + 3").is_err());
}

#[test]
fn test_division_by_zero_parse() {
    assert!(parse_and_eval("10 / 0").is_err());
}

#[test]
fn test_error_messages() {
    assert_eq!(parse_and_eval("2 & 3"), Err("Unexpected character '&'".to_string()));
    assert_eq!(parse_and_eval("2 + + 3"), Err("Expected number or '(', found Plus".to_string()));
    assert_eq!(parse_and_eval("(2 + 3"), Err("Expected RightParen, found End".to_string()));
    assert_eq!(parse_and_eval("2 3"), Err("Unexpected token: Number(3)".to_string()));
    assert_eq!(parse_and_eval("10 / 0"), Err("Division by zero".to_string()));
}

#[test]
fn test_left_associativity_and_truncating_division() {
    assert_eq!(parse_and_eval("10 - 4 - 3"), Ok(3));
    assert_eq!(parse_and_eval("20 / 2 / 5"), Ok(2));
    assert_eq!(parse_and_eval("0 - 7 / 2"), Ok(-3));
    assert_eq!(OpType::Div.eval(-7, 2), Ok(-3));
}

#[test]
fn test_parser_builds_tree() {
    let mut parser = Parser::new(vec![Token::Number(1), Token::Minus, Token::Number(2), Token::End]);
    let tree = parser.parse().unwrap();
    assert_eq!(
        *tree,
        BoxExpr::BinOp {
            op: OpType::Sub,
            left: Box::new(BoxExpr::Literal(1)),
            right: Box::new(BoxExpr::Literal(2)),
        }
    );
}

#[test]
fn test_aligned_start() {
    assert_eq!(aligned_start(1, 8), 8);
    assert_eq!(aligned_start(16, 8), 16);
    assert_eq!(aligned_start(5, 1), 5);
}
