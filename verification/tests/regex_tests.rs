use projecta::regex::{
    count_groups, describe_quantifier, extract_group_id, extract_literal, get_quantifier_bounds,
    has_alternation, is_anchored_at_start, is_literal_only, optimize, validate_quantifier,
    AnchorKind, ParseError, Regex,
};

#[test]
fn milestone1_literal_and_wildcard() {
    let re = Regex::parse("h.llo").unwrap();
    assert!(re.is_match("hello"));
    assert!(re.is_match("hallo"));
    assert!(!re.is_match("hllo"));

    let re2 = Regex::parse("lo").unwrap();
    assert_eq!(re2.find("hello"), Some((3, 2)));
    assert_eq!(re2.find("world"), None);
    assert_eq!(re2.find("hi"), None);
}

#[test]
fn milestone2_char_classes_and_negation() {
    let re = Regex::parse("[a-z]+").unwrap();
    assert!(re.is_match("hello"));
    assert!(!re.is_match("HELLO"));
    assert!(!re.is_match("123"));

    let re2 = Regex::parse("[^a-z]+").unwrap();
    assert!(re2.is_match("HELLO"));
    assert!(re2.is_match("123"));
    assert!(!re2.is_match("hello"));

    let re3 = Regex::parse(r"\d{3}-\d{3}-\d{4}").unwrap();
    assert!(re3.is_match("123-456-7890"));
    assert!(!re3.is_match("1234567890"));
}

#[test]
fn milestone3_quantifiers_greedy_backtracking() {
    let re = Regex::parse("a*ab").unwrap();
    assert!(re.is_match("aaab"));
    assert!(re.is_match("ab"));
    assert!(!re.is_match("b"));

    let re2 = Regex::parse("a{2,4}b").unwrap();
    assert!(re2.is_match("aab"));
    assert!(re2.is_match("aaab"));
    assert!(re2.is_match("aaaab"));
    assert!(!re2.is_match("ab"));
}

#[test]
fn milestone4_alternation_and_groups_and_analysis() {
    let re = Regex::parse("cat|dog|bird").unwrap();
    assert!(re.is_match("cat"));
    assert!(re.is_match("dog"));
    assert!(re.is_match("bird"));
    assert!(!re.is_match("fish"));
    assert!(has_alternation(&re));

    let re2 = Regex::parse("(a+)(b+)").unwrap();
    let caps = re2.captures("aaabbb").unwrap();
    assert_eq!(caps.full_match.as_ref().unwrap().text, "aaabbb");
    assert_eq!(caps.groups[0].as_ref().unwrap().text, "aaa");
    assert_eq!(caps.groups[1].as_ref().unwrap().text, "bbb");
    assert_eq!(count_groups(&re2), 2);
    assert_eq!(extract_group_id(&re2), Err("Not a group"));
}

#[test]
fn milestone5_anchors_word_boundary_and_optimizations() {
    let re = Regex::parse("^hello").unwrap();
    assert!(re.is_match("hello world"));
    assert!(!re.is_match("say hello"));

    let re2 = Regex::parse("bye$").unwrap();
    assert!(re2.is_match("goodbye"));
    assert!(!re2.is_match("bye now"));

    let re3 = Regex::parse(r"\bword\b").unwrap();
    assert!(re3.is_match("a word here"));
    assert!(re3.is_match("word"));
    assert!(!re3.is_match("sword"));
    assert!(!re3.is_match("words"));

    let raw = Regex::Sequence(vec![Regex::Char('a')]);
    let opt = optimize(raw);
    assert!(matches!(opt, Regex::Char('a')) || matches!(opt, Regex::Literal(ref s) if s == "a"));

    let lit = Regex::Literal("test".into());
    assert_eq!(extract_literal(&lit).unwrap(), "test");
    assert!(get_quantifier_bounds(&lit).is_err());

    let q = Regex::exactly(Regex::Char('x'), 3);
    assert_eq!(get_quantifier_bounds(&q).unwrap(), (3, Some(3)));
    assert!(describe_quantifier(&q).contains("exactly"));
}

#[test]
fn integration_email_phone_url_like_examples() {
    let email = Regex::Sequence(vec![
        Regex::one_or_more(Regex::char_class(vec![('a', 'z')], vec![], false)),
        Regex::Char('@'),
        Regex::one_or_more(Regex::char_class(vec![('a', 'z')], vec![], false)),
        Regex::Char('.'),
        Regex::one_or_more(Regex::char_class(vec![('a', 'z')], vec![], false)),
    ])
    .optimize();

    assert!(email.is_match("user@example.com"));
    assert!(email.is_match("test@test.org"));
    assert!(!email.is_match("invalid"));
    assert!(!email.is_match("@example.com"));

    let phone = Regex::parse(r"\d{3}-\d{3}-\d{4}").unwrap();
    assert!(phone.is_match("123-456-7890"));
    assert!(!phone.is_match("1234567890"));

    let url = Regex::parse(r"https?://[a-z]+\.[a-z]+").unwrap();
    assert!(url.is_match("http://example.com"));
    assert!(url.is_match("https://test.org"));
    assert!(!url.is_match("ftp://example.com"));
}

#[test]
fn parses_and_displays_every_variant() {
    let re = Regex::parse(r"^\b(a|b)[^c]\s?\d+$").unwrap();
    let s = re.to_text();
    assert!(s.contains("^"));
    assert!(s.contains("\\b"));
    assert!(s.contains("|"));
    assert!(s.contains("[^c]"));
    assert!(s.contains("$"));

    let lit = Regex::parse("abc").unwrap();
    assert!(is_literal_only(&lit));
    assert!(!is_literal_only(&re));
}

#[test]
fn parse_errors_are_reported() {
    assert_eq!(Regex::parse("(ab").unwrap_err(), ParseError::UnclosedGroup);
    assert_eq!(Regex::parse("[ab").unwrap_err(), ParseError::UnclosedCharClass);
    assert_eq!(Regex::parse("[z-a]").unwrap_err(), ParseError::InvalidRange);
    assert_eq!(Regex::parse("a{3,1}").unwrap_err(), ParseError::InvalidQuantifier);
    assert_eq!(Regex::parse("a{,2}").unwrap_err(), ParseError::InvalidQuantifier);
    assert_eq!(Regex::parse("a|").unwrap_err(), ParseError::EmptyAlternationBranch);
    assert_eq!(Regex::parse("ab)").unwrap_err(), ParseError::UnexpectedChar(')'));
    assert_eq!(Regex::parse("\\q").unwrap_err(), ParseError::UnexpectedChar('q'));
    assert_eq!(Regex::parse("\\").unwrap_err(), ParseError::UnexpectedEnd);
    assert_eq!(ParseError::UnexpectedChar('x').to_text(), "unexpected char 'x'");
    assert_eq!(ParseError::InvalidRange.to_text(), "invalid character range");
}

#[test]
fn quantifier_descriptions_and_validation() {
    assert_eq!(describe_quantifier(&Regex::zero_or_more(Regex::Wildcard)), "zero or more (*)");
    assert_eq!(describe_quantifier(&Regex::one_or_more(Regex::Wildcard)), "one or more (+)");
    assert_eq!(describe_quantifier(&Regex::optional(Regex::Wildcard)), "optional (?)");
    assert_eq!(describe_quantifier(&Regex::between(Regex::Wildcard, 2, 5)), "between {2,5}");
    assert_eq!(
        describe_quantifier(&Regex::Repeat { expr: Box::new(Regex::Wildcard), min: 3, max: None }),
        "at least {3,}"
    );
    assert_eq!(describe_quantifier(&Regex::Wildcard), "not a quantifier");
    assert_eq!(validate_quantifier(2, Some(1)), Err(ParseError::InvalidQuantifier));
    assert_eq!(validate_quantifier(2, None), Ok(()));
}

#[test]
fn structure_queries() {
    let re = Regex::parse("^(ab)+c").unwrap();
    assert!(is_anchored_at_start(&re));
    assert!(!has_alternation(&re));
    assert_eq!(count_groups(&re), 1);
    let g = Regex::group(Regex::Anchor(AnchorKind::StartOfLine), 4);
    assert!(is_anchored_at_start(&g));
    assert_eq!(extract_group_id(&g), Ok(4));
    assert!(Regex::parse("a{0}").unwrap() == Regex::Empty);
    assert_eq!(Regex::parse("x{2}").unwrap().to_text(), "x{2}");
    assert_eq!(Regex::parse("(a|b)*").unwrap().to_text(), "(a|b)*");
}

#[test]
fn find_reports_byte_offsets() {
    let re = Regex::parse("b+").unwrap();
    assert_eq!(re.find("é-bb"), Some((3, 2)));
    let caps = re.captures("aab").unwrap();
    let m = caps.full_match.unwrap();
    assert_eq!((m.start, m.end, m.text.as_str()), (2, 3, "b"));
    assert_eq!(Regex::parse("$").unwrap().find(""), Some((0, 0)));
}
