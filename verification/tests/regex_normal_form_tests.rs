use projecta::regex::{optimize, Captures, ParseError, Regex};

#[test]
fn optimize_flattens_sequences_and_joins_literals() {
    let raw = Regex::Sequence(vec![
        Regex::Sequence(vec![Regex::Char('a'), Regex::Char('b')]),
        Regex::Empty,
        Regex::Char('c'),
        Regex::Wildcard,
    ]);
    let opt = optimize(raw);
    assert_eq!(
        opt,
        Regex::Sequence(vec![Regex::Literal("abc".to_string()), Regex::Wildcard])
    );
    assert!(opt.is_match("abcz"));
    assert!(!opt.is_match("abz"));
}

#[test]
fn optimize_flattens_nested_alternations() {
    let raw = Regex::Alternation(vec![
        Regex::Alternation(vec![Regex::Char('a'), Regex::Char('b')]),
        Regex::Char('c'),
    ]);
    let opt = optimize(raw);
    assert_eq!(
        opt,
        Regex::Alternation(vec![Regex::Char('a'), Regex::Char('b'), Regex::Char('c')])
    );
}

#[test]
fn optimize_drops_trivial_repeats() {
    let once = Regex::Repeat { expr: Box::new(Regex::Char('x')), min: 1, max: Some(1) };
    assert_eq!(optimize(once), Regex::Char('x'));
    let never = Regex::Repeat { expr: Box::new(Regex::Char('x')), min: 0, max: Some(0) };
    assert_eq!(optimize(never), Regex::Empty);
    let single = Regex::Alternation(vec![Regex::Sequence(vec![Regex::Char('q')])]);
    let opt = optimize(single);
    assert!(opt == Regex::Char('q') || opt == Regex::Literal("q".to_string()));
}

#[test]
fn parse_reports_each_error() {
    assert!(matches!(Regex::parse("a|"), Err(ParseError::EmptyAlternationBranch)));
    assert!(matches!(Regex::parse("a||b"), Err(ParseError::EmptyAlternationBranch)));
    assert!(matches!(Regex::parse("(a"), Err(ParseError::UnclosedGroup)));
    assert!(matches!(Regex::parse("a)"), Err(ParseError::UnexpectedChar(')'))));
    assert!(matches!(Regex::parse("[a"), Err(ParseError::UnclosedCharClass)));
    assert!(matches!(Regex::parse("[z-a]"), Err(ParseError::InvalidRange)));
    assert!(matches!(Regex::parse("a{3,1}"), Err(ParseError::InvalidQuantifier)));
    assert!(matches!(Regex::parse("a{x}"), Err(ParseError::InvalidQuantifier)));
    assert!(matches!(Regex::parse("a{2"), Err(ParseError::UnexpectedEnd)));
    assert!(matches!(Regex::parse("a{2;}"), Err(ParseError::UnexpectedChar(';'))));
    assert!(matches!(Regex::parse(r"\q"), Err(ParseError::UnexpectedChar('q'))));
    assert!(matches!(Regex::parse("\\"), Err(ParseError::UnexpectedEnd)));
}

#[test]
fn parse_accepts_well_formed_patterns() {
    assert!(Regex::parse("a{2,}b{1,3}(c|d)*[^x-z\\d]?\\.$").is_ok());
    assert!(Regex::parse("").is_ok());
    assert!(Regex::parse("[a-]").is_ok());
    assert!(Regex::parse("(a)(b|c)").is_ok());
}

#[test]
fn match_from_lists_longest_runs_first() {
    let r = Regex::one_or_more(Regex::Char('a'));
    let t = ['a', 'a', 'a'];
    let ends: Vec<usize> = r.match_from(&t, 0, Captures::new(0)).iter().map(|x| x.0).collect();
    assert_eq!(ends, vec![3, 2, 1]);
    let alt = Regex::Alternation(vec![Regex::Char('a'), Regex::Sequence(vec![Regex::Char('a'), Regex::Char('a')])]);
    let ends2: Vec<usize> = alt.match_from(&t, 0, Captures::new(0)).iter().map(|x| x.0).collect();
    assert_eq!(ends2, vec![1, 2]);
}

#[test]
fn find_takes_the_greedy_end_at_the_leftmost_start() {
    let re = Regex::parse("a+").unwrap();
    assert_eq!(re.find("baaab"), Some((1, 3)));
    let lazy_first = Regex::parse("a|aa").unwrap();
    assert_eq!(lazy_first.find("aa"), Some((0, 1)));
}

#[test]
fn search_tries_the_end_of_the_text() {
    let end = Regex::parse("$").unwrap();
    assert!(end.is_match("ab"));
    assert_eq!(end.find("ab"), Some((2, 0)));
}

#[test]
fn parse_char_class_contents() {
    assert_eq!(
        Regex::parse("[a-]").unwrap(),
        Regex::CharClass { ranges: vec![], chars: vec!['a', '-'], negated: false }
    );
    assert_eq!(
        Regex::parse("[^0-9_]").unwrap(),
        Regex::CharClass { ranges: vec![('0', '9')], chars: vec!['_'], negated: true }
    );
    assert!(matches!(Regex::parse("[abc"), Err(ParseError::UnclosedCharClass)));
}

#[test]
fn optimize_turns_a_lone_char_into_a_literal() {
    let r = optimize(Regex::Sequence(vec![Regex::Char('a')]));
    assert_eq!(r, Regex::Literal("a".to_string()));
    let again = optimize(Regex::Sequence(vec![Regex::Char('a'), Regex::Wildcard]));
    assert_eq!(again, Regex::Sequence(vec![Regex::Literal("a".to_string()), Regex::Wildcard]));
}

#[test]
fn optimize_keeps_alternative_order() {
    let r = optimize(Regex::Alternation(vec![Regex::Char('a'), Regex::Sequence(vec![Regex::Char('a'), Regex::Char('b')])]));
    assert_eq!(r, Regex::Alternation(vec![Regex::Char('a'), Regex::Literal("ab".to_string())]));
    assert_eq!(r.find("ab"), Some((0, 1)));
}

#[test]
fn match_from_records_group_spans_per_end() {
    let r = Regex::Sequence(vec![
        Regex::Group { id: 0, expr: Box::new(Regex::one_or_more(Regex::Char('a'))) },
        Regex::Char('b'),
    ]);
    let t: Vec<char> = "aab".chars().collect();
    let out = r.match_from(&t, 0, Captures::new(1));
    assert_eq!(out.len(), 1);
    assert_eq!(out[0].0, 3);
    let g = out[0].1.groups[0].clone().unwrap();
    assert_eq!((g.start, g.end, g.text.as_str()), (0, 2, "aa"));
    assert!(out[0].1.full_match.is_none());
}

#[test]
fn captures_take_the_groups_of_the_first_way() {
    let re = Regex::parse("(a*)(a*)").unwrap();
    let c = re.captures("aa").unwrap();
    let g1 = c.groups[0].clone().unwrap();
    let g2 = c.groups[1].clone().unwrap();
    assert_eq!((g1.start, g1.end, g1.text.as_str()), (0, 2, "aa"));
    assert_eq!((g2.start, g2.end, g2.text.as_str()), (2, 2, ""));
}

#[test]
fn match_from_pairs_each_way_with_its_groups() {
    let re = Regex::parse("(a*)(a*)").unwrap();
    let t: Vec<char> = "aa".chars().collect();
    let out = re.match_from(&t, 0, Captures::new(2));
    let firsts: Vec<(usize, String, String)> = out
        .iter()
        .map(|(e, c)| {
            (
                *e,
                c.groups[0].clone().map(|m| m.text).unwrap_or_default(),
                c.groups[1].clone().map(|m| m.text).unwrap_or_default(),
            )
        })
        .collect();
    assert_eq!(firsts[0], (2, "aa".to_string(), "".to_string()));
    assert_eq!(firsts[1], (2, "a".to_string(), "a".to_string()));
}

#[test]
fn optimize_keeps_find_answers() {
    let raw = Regex::Sequence(vec![
        Regex::Group { id: 0, expr: Box::new(Regex::Alternation(vec![Regex::Char('a'), Regex::Sequence(vec![Regex::Char('a'), Regex::Char('b')])])) },
        Regex::Repeat { expr: Box::new(Regex::Char('b')), min: 1, max: Some(1) },
        Regex::Empty,
    ]);
    let expected = raw.find("xabb");
    let opt = optimize(raw);
    assert_eq!(opt.find("xabb"), expected);
    assert_eq!(expected, Some((1, 2)));
}
