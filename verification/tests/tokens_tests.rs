use projecta::tokens::{parse_csv_line, AllocatingParser, Parser, ParserContext, Token};

fn default_test_context<'a>() -> ParserContext<'a> {
    ParserContext::new(&[], &[])
}

fn all_tokens<'a>(parser: &mut Parser<'a, '_>) -> Vec<Token<'a>> {
    let mut tokens = Vec::new();
    while let Some(t) = parser.next() {
        tokens.push(t);
    }
    tokens
}

#[test]
fn test_parser_new() {
    let input = "hello world";
    let context = default_test_context();
    let parser = Parser::new(input, &context);
    assert_eq!(parser.remaining(), "hello world");
}

#[test]
fn test_is_empty() {
    let context = default_test_context();
    let parser = Parser::new("  ", &context);
    assert!(parser.is_empty());
    let parser = Parser::new("hello", &context);
    assert!(!parser.is_empty());
}

#[test]
fn test_token_identifier() {
    let context = default_test_context();
    let mut parser = Parser::new("foo bar_123", &context);
    assert_eq!(parser.next_token(), Token::Identifier("foo"));
    assert_eq!(parser.next_token(), Token::Identifier("bar_123"));
    assert_eq!(parser.next_token(), Token::Eof);
}

#[test]
fn test_token_number() {
    let context = default_test_context();
    let mut parser = Parser::new("42 3.14 0xFF", &context);
    assert_eq!(parser.next_token(), Token::Number("42"));
    assert_eq!(parser.next_token(), Token::Number("3.14"));
    assert_eq!(parser.next_token(), Token::Number("0xFF"));
}

#[test]
fn test_token_string() {
    let context = default_test_context();
    let mut parser = Parser::new(r#""hello" "world""#, &context);
    assert_eq!(parser.next_token(), Token::String("hello"));
    assert_eq!(parser.next_token(), Token::String("world"));
    assert_eq!(parser.next_token(), Token::Eof);
}

#[test]
fn test_token_symbols() {
    let operators = &['+', '-', '*', '/', '(', ')'];
    let context = ParserContext::new(&[], operators);
    let mut parser = Parser::new("+ - * / ( )", &context);
    assert_eq!(parser.next_token(), Token::Symbol('+'));
    assert_eq!(parser.next_token(), Token::Symbol('-'));
    assert_eq!(parser.next_token(), Token::Symbol('*'));
    assert_eq!(parser.next_token(), Token::Symbol('/'));
    assert_eq!(parser.next_token(), Token::Symbol('('));
    assert_eq!(parser.next_token(), Token::Symbol(')'));
    assert_eq!(parser.next_token(), Token::Eof);
}

#[test]
fn test_mixed_tokens() {
    let operators = &['=', '+'];
    let context = ParserContext::new(&[], operators);
    let mut parser = Parser::new(r###"let x = 42 + "test""###, &context);
    assert_eq!(parser.next_token(), Token::Identifier("let"));
    assert_eq!(parser.next_token(), Token::Identifier("x"));
    assert_eq!(parser.next_token(), Token::Symbol('='));
    assert_eq!(parser.next_token(), Token::Number("42"));
    assert_eq!(parser.next_token(), Token::Symbol('+'));
    assert_eq!(parser.next_token(), Token::String("test"));
    assert_eq!(parser.next_token(), Token::Eof);
}

#[test]
fn test_is_keyword() {
    let token = Token::Identifier("if");
    assert!(token.is_keyword("if"));
    assert!(!token.is_keyword("else"));
    let token = Token::Number("42");
    assert!(!token.is_keyword("if"));
}

#[test]
fn test_token_lifetime_tied_to_input() {
    let input = String::from("test");
    let context = default_test_context();
    let mut parser = Parser::new(&input, &context);
    let token = parser.next_token();
    assert_eq!(token, Token::Identifier("test"));
}

#[test]
fn test_iterator() {
    let context = default_test_context();
    let mut parser = Parser::new("a b c", &context);
    let tokens = all_tokens(&mut parser);
    assert_eq!(tokens.len(), 3);
    assert!(tokens.iter().all(|t| matches!(t, Token::Identifier(_))));
}

#[test]
fn test_iterator_chaining() {
    let operators = &['='];
    let context = ParserContext::new(&[], operators);
    let mut parser = Parser::new("let x = 42", &context);
    let identifiers: Vec<&str> = all_tokens(&mut parser)
        .into_iter()
        .filter_map(|token| match token {
            Token::Identifier(s) => Some(s),
            _ => None,
        })
        .collect();
    assert_eq!(identifiers, vec!["let", "x"]);
}

#[test]
fn test_identifiers_method() {
    let context = default_test_context();
    let mut parser = Parser::new("fn foo(x: i32) -> bool", &context);
    let ids = parser.identifiers();
    assert_eq!(ids, vec!["fn", "foo", "x", "i32", "bool"]);
}

#[test]
fn test_has_keyword() {
    let keywords = &["if", "else", "while"];
    let context = ParserContext::new(keywords, &[]);
    let mut parser = Parser::new("if x > 0 { return true }", &context);
    assert!(parser.has_keyword("if"));
    assert!(!parser.has_keyword("return"));
}

#[test]
fn test_count_numbers() {
    let operators = &['+', '-', '*'];
    let context = ParserContext::new(&[], operators);
    let mut parser = Parser::new("1 + 2 * 3 - 4", &context);
    assert_eq!(parser.count_numbers(), 4);
}

#[test]
fn test_iterator_zero_copy() {
    let input = String::from("foo bar baz");
    let context = default_test_context();
    let mut parser = Parser::new(&input, &context);
    let tokens = all_tokens(&mut parser);
    for token in tokens {
        if let Token::Identifier(s) = token {
            let input_ptr = input.as_ptr() as usize;
            let s_ptr = s.as_ptr() as usize;
            assert!(s_ptr >= input_ptr);
            assert!(s_ptr < input_ptr + input.len());
        }
    }
}

#[test]
fn test_parser_with_context() {
    let keywords = &["if", "else", "fn", "let"];
    let operators = &['+', '-', '*', '/'];
    let context = ParserContext::new(keywords, operators);
    let mut parser = Parser::new("if x + 1", &context);
    assert_eq!(parser.next_token(), Token::Identifier("if"));
    assert_eq!(parser.next_token(), Token::Identifier("x"));
    assert_eq!(parser.next_token(), Token::Symbol('+'));
    assert_eq!(parser.next_token(), Token::Number("1"));
    assert_eq!(parser.next_token(), Token::Eof);
}

#[test]
fn test_keyword_detection_in_context() {
    let keywords = &["if", "else", "while"];
    let context = ParserContext::new(keywords, &[]);
    assert!(context.is_keyword("if"));
    assert!(!context.is_keyword("foo"));
}

#[test]
fn test_operator_detection_in_context() {
    let operators = &['+', '-'];
    let context = ParserContext::new(&[], operators);
    assert!(context.is_operator('+'));
    assert!(!context.is_operator('*'));
}

#[test]
fn test_next_keyword_token() {
    let keywords = &["if", "fn"];
    let operators = &['+'];
    let context = ParserContext::new(keywords, operators);
    let mut parser = Parser::new("foo if bar fn baz", &context);
    assert_eq!(parser.next_keyword_token(), Some("if"));
    assert_eq!(parser.next_keyword_token(), Some("fn"));
    assert_eq!(parser.next_keyword_token(), None);
}

#[test]
fn test_multiple_lifetime_bounds() {
    let keywords_vec = vec!["let".to_string(), "mut".to_string()];
    let keyword_refs: Vec<&str> = keywords_vec.iter().map(|s| s.as_str()).collect();
    let context = ParserContext::new(&keyword_refs, &[]);
    let input = String::from("let mut x = 42");
    let mut parser = Parser::new(&input, &context);
    let token = parser.next_token();
    assert_eq!(token, Token::Identifier("let"));
    let kw = parser.get_keywords();
    assert_eq!(kw.len(), 2);
}

#[test]
fn test_lifetime_independence() {
    let keywords = &["fn"];
    let context = ParserContext::new(keywords, &[]);
    {
        let input = String::from("fn foo");
        let mut parser = Parser::new(&input, &context);
        assert_eq!(parser.next_keyword_token(), Some("fn"));
    }
    assert!(context.is_keyword("fn"));
}

#[test]
fn test_extract_assignments() {
    let operators = &['='];
    let context = ParserContext::new(&[], operators);
    let mut parser = Parser::new("x = 42 y = 100", &context);
    let assignments = parser.extract_assignments();
    assert_eq!(assignments, vec![("x", "42"), ("y", "100")]);
}

#[test]
fn test_group_identifiers() {
    let operators = &['+'];
    let context = ParserContext::new(&[], operators);
    let mut parser = Parser::new("foo bar + baz qux", &context);
    let groups = parser.group_identifiers();
    assert_eq!(groups, vec![vec!["foo", "bar"], vec!["baz", "qux"]]);
}

#[test]
fn test_csv_zero_copy() {
    let line = "alice,bob,charlie";
    let fields = parse_csv_line(line);
    assert_eq!(fields, vec!["alice", "bob", "charlie"]);
    for field in fields {
        let line_ptr = line.as_ptr() as usize;
        let field_ptr = field.as_ptr() as usize;
        assert!(field_ptr >= line_ptr);
        assert!(field_ptr < line_ptr + line.len());
    }
}

#[test]
fn test_memory_efficiency() {
    let input = "test data here";
    let context = default_test_context();
    let mut parser = Parser::new(input, &context);
    let tokens = all_tokens(&mut parser);
    assert_eq!(tokens.len(), 3);
}

#[test]
fn test_csv_trims_and_keeps_empty_fields() {
    assert_eq!(parse_csv_line("  a , b,,c  "), vec!["a", "b", "", "c"]);
    assert_eq!(parse_csv_line(""), vec![""]);
    assert_eq!(parse_csv_line(" , "), vec!["", ""]);
}

#[test]
fn test_allocating_parser_matches_words() {
    let mut parser = AllocatingParser::new("foo 42 +".to_string());
    let mut out = Vec::new();
    while let Some(t) = parser.next_token() {
        out.push(t);
    }
    assert_eq!(out, vec!["foo".to_string(), "42".to_string(), "+".to_string()]);
}

#[test]
fn test_unterminated_string_is_quote_symbol() {
    let context = default_test_context();
    let mut parser = Parser::new("\"abc", &context);
    assert_eq!(parser.next_token(), Token::Symbol('"'));
    assert_eq!(parser.next_token(), Token::Identifier("abc"));
    assert_eq!(parser.next_token(), Token::Eof);
}
