use projecta::combinators::{
    parse_addition, run_parser, run_parser_generic, CharParser, DigitParser, NumberParser, ParseError,
    Parser, ParserExt, ParserGeneric, StringParser,
};

#[test]
fn test_char_parser() {
    let parser = CharParser { expected: 'a' };

    let result = ParserGeneric::parse(&parser, "abc");
    assert_eq!(result, Ok(('a', "bc")));

    let result = ParserGeneric::parse(&parser, "xyz");
    assert!(result.is_err());
}

#[test]
fn test_digit_parser() {
    let parser = DigitParser;

    let result = ParserGeneric::parse(&parser, "5 apples");
    assert_eq!(result, Ok((5, " apples")));

    let result = ParserGeneric::parse(&parser, "abc");
    assert!(result.is_err());
}

#[test]
fn test_generic_verbose() {
    let parser = CharParser { expected: 'x' };

    let result: char = run_parser_generic::<char, _>(parser, "xyz").unwrap();
    assert_eq!(result, 'x');
}

#[test]
fn test_associated_type_inference() {
    let parser = CharParser { expected: 'x' };

    let result = run_parser(parser, "xyz").unwrap();
    assert_eq!(result, 'x');
}

#[test]
fn test_string_parser() {
    let parser = StringParser {
        expected: "hello".to_string(),
    };

    let result = parser.parse("hello world");
    assert_eq!(result, Ok(("hello".to_string(), " world")));

    let result = parser.parse("goodbye");
    assert!(result.is_err());
}

#[test]
fn test_output_type_inference() {
    let char_parser = CharParser { expected: 'a' };
    let digit_parser = DigitParser;

    let c = run_parser(char_parser, "abc").unwrap();
    let n = run_parser(digit_parser, "123").unwrap();

    assert_eq!(c, 'a');
    assert_eq!(n, 1);
}

#[test]
fn test_map_combinator() {
    let parser = DigitParser.map(|d| format!("Digit: {}", d));

    let result = run_parser(parser, "5 apples").unwrap();
    assert_eq!(result, "Digit: 5");
}

#[test]
fn test_and_then_combinator() {
    let parser = CharParser { expected: 'a' }
        .and_then(CharParser { expected: 'b' });

    let result = parser.parse("abc");
    assert_eq!(result, Ok((('a', 'b'), "c")));

    let result = parser.parse("axc");
    assert!(result.is_err());
}

#[test]
fn test_number_parser() {
    let parser = NumberParser;

    let result = parser.parse("42 answer");
    assert_eq!(result, Ok((42, " answer")));

    let result = parser.parse("0");
    assert_eq!(result, Ok((0, "")));

    assert!(parser.parse("abc").is_err());
}

#[test]
fn complete_09_parser_combinator_test_parse_addition() {
    assert_eq!(parse_addition("5+3"), Ok(8));
    assert_eq!(parse_addition("100+200"), Ok(300));
    assert!(parse_addition("abc").is_err());
}

#[test]
fn test_combinator_composition() {
    let parser = CharParser { expected: 'x' }
        .and_then(DigitParser)
        .map(|(c, d)| format!("{}{}", c, d));

    let result = run_parser(parser, "x5 items").unwrap();
    assert_eq!(result, "x5");
}

#[test]
fn test_parse_error_messages() {
    let err = parse_addition("12-3").unwrap_err();
    assert_eq!(err.message, "Expected '+' but found '-'");
    assert_eq!(err.to_text(), "Expected '+' but found '-' at position 0");
    assert_eq!(NumberParser.parse("99999999999").unwrap_err().message, "Failed to parse integer");
    assert_eq!(NumberParser.parse("x").unwrap_err().message, "Expected one or more digits");
    let e = ParseError::new("m".to_string(), 3);
    assert_eq!(e.to_text(), "m at position 3");
}
