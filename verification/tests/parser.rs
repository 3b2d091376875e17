use vec_reg::{vec_reg, CompiledRegex, ErrorKind, ParseError, Pattern, PatternError, Predicates};
use vec_reg::parser::parse;

fn sat(name: &str) -> Box<Pattern> {
    Box::new(Pattern::Satisfy(name.to_string()))
}

fn error(position: usize, kind: ErrorKind) -> Result<Pattern, ParseError> {
    Err(ParseError { position, kind })
}

#[test]
fn parses_atoms_and_anchors() {
    assert_eq!(parse("."), Ok(Pattern::Any));
    assert_eq!(parse("^"), Ok(Pattern::Begin));
    assert_eq!(parse("$"), Ok(Pattern::End));
    assert_eq!(parse("[is_even]"), Ok(Pattern::Satisfy("is_even".to_string())));
    assert_eq!(parse("[^is_even]"), Ok(Pattern::NotSatisfy("is_even".to_string())));
    assert_eq!(parse("  [ ^ is_even  ]  "), Ok(Pattern::NotSatisfy("is_even".to_string())));
}

#[test]
fn parses_closure_text_with_inner_brackets() {
    assert_eq!(
        parse("[|x| x[0] == 1]"),
        Ok(Pattern::Satisfy("|x| x[0] == 1".to_string()))
    );
}

#[test]
fn concatenation_and_alternation_nest_to_the_left() {
    assert_eq!(
        parse("[a][b][c]"),
        Ok(Pattern::Concat(
            Box::new(Pattern::Concat(sat("a"), sat("b"))),
            sat("c")
        ))
    );
    assert_eq!(
        parse("[a]|[b]|[c]"),
        Ok(Pattern::Or(Box::new(Pattern::Or(sat("a"), sat("b"))), sat("c")))
    );
    assert_eq!(
        parse("[a][b]|[c]"),
        Ok(Pattern::Or(Box::new(Pattern::Concat(sat("a"), sat("b"))), sat("c")))
    );
}

#[test]
fn parses_groups() {
    assert_eq!(parse("([a])"), Ok(Pattern::Group(sat("a"))));
    assert_eq!(parse("(?:[a])"), Ok(Pattern::NonCapturingGroup(sat("a"))));
    assert_eq!(
        parse("(?P<\"first\">[a])"),
        Ok(Pattern::NamedGroup("first".to_string(), sat("a")))
    );
    assert_eq!(
        parse("( ? P < \"first\" > [a] )"),
        Ok(Pattern::NamedGroup("first".to_string(), sat("a")))
    );
}

#[test]
fn parses_repetition_marks() {
    assert_eq!(parse("[a]?"), Ok(Pattern::ZeroOrOne(sat("a"), true)));
    assert_eq!(parse("[a]??"), Ok(Pattern::ZeroOrOne(sat("a"), false)));
    assert_eq!(parse("[a]*"), Ok(Pattern::Repeat0(sat("a"), true)));
    assert_eq!(parse("[a]*?"), Ok(Pattern::Repeat0(sat("a"), false)));
    assert_eq!(parse("[a]+"), Ok(Pattern::Repeat1(sat("a"), true)));
    assert_eq!(parse("[a]+?"), Ok(Pattern::Repeat1(sat("a"), false)));
    assert_eq!(parse("[a]{3}"), Ok(Pattern::RepeatN(sat("a"), 3)));
    assert_eq!(parse("[a]{3}?"), Ok(Pattern::RepeatN(sat("a"), 3)));
    assert_eq!(parse("[a]{3,}"), Ok(Pattern::RepeatMinMax(sat("a"), 3, None, true)));
    assert_eq!(parse("[a]{3,}?"), Ok(Pattern::RepeatMinMax(sat("a"), 3, None, false)));
    assert_eq!(parse("[a]{3,4}"), Ok(Pattern::RepeatMinMax(sat("a"), 3, Some(4), true)));
    assert_eq!(parse("[a]{ 3 , 14 } ?"), Ok(Pattern::RepeatMinMax(sat("a"), 3, Some(14), false)));
    assert_eq!(parse("[a]{0,0}"), Ok(Pattern::RepeatMinMax(sat("a"), 0, Some(0), true)));
}

#[test]
fn a_mark_applies_to_the_atom_before_it() {
    assert_eq!(
        parse("[a][b]+"),
        Ok(Pattern::Concat(sat("a"), Box::new(Pattern::Repeat1(sat("b"), true))))
    );
    assert_eq!(
        parse("([a][b])+"),
        Ok(Pattern::Repeat1(
            Box::new(Pattern::Group(Box::new(Pattern::Concat(sat("a"), sat("b"))))),
            true
        ))
    );
}

#[test]
fn reports_what_is_wrong_and_where() {
    assert_eq!(parse(""), error(0, ErrorKind::ExpectedAtom));
    assert_eq!(parse("   "), error(3, ErrorKind::ExpectedAtom));
    assert_eq!(parse("[a]|"), error(4, ErrorKind::ExpectedAtom));
    assert_eq!(parse("*"), error(0, ErrorKind::ExpectedAtom));
    assert_eq!(parse("[a"), error(0, ErrorKind::UnclosedBracket));
    assert_eq!(parse("[]"), error(1, ErrorKind::ExpectedPredicate));
    assert_eq!(parse("[1a]"), error(1, ErrorKind::ExpectedPredicate));
    assert_eq!(parse("[a b]"), error(1, ErrorKind::ExpectedPredicate));
    assert_eq!(parse("([a]"), error(4, ErrorKind::UnclosedGroup));
    assert_eq!(parse("(?[a])"), error(2, ErrorKind::ExpectedGroupKind));
    assert_eq!(parse("(?P[a])"), error(3, ErrorKind::ExpectedLess));
    assert_eq!(parse("(?P<a>[a])"), error(4, ErrorKind::ExpectedName));
    assert_eq!(parse("(?P<\"a[a])"), error(4, ErrorKind::ExpectedName));
    assert_eq!(parse("(?P<\"a\"[a])"), error(7, ErrorKind::ExpectedGreater));
    assert_eq!(parse("[a]{}"), error(4, ErrorKind::ExpectedNumber));
    assert_eq!(parse("[a]{1,x}"), error(6, ErrorKind::ExpectedNumberOrEmpty));
    assert_eq!(parse("[a]{1"), error(5, ErrorKind::UnclosedBrace));
    assert_eq!(parse("[a]{1,2"), error(7, ErrorKind::UnclosedBrace));
    assert_eq!(
        parse("[a]{99999999999999999999999999}"),
        error(4, ErrorKind::NumberTooLarge)
    );
    assert_eq!(parse("[a]{3,2}"), error(6, ErrorKind::BoundsOutOfOrder));
    assert_eq!(parse("[a])"), error(3, ErrorKind::UnexpectedTokens));
    assert_eq!(parse("[a]**"), error(4, ErrorKind::UnexpectedTokens));
}

#[test]
fn errors_have_messages() {
    let err = parse("[]").unwrap_err();
    assert_eq!(err.message(), "expected closure or function name");
    let err = parse("[a]{}").unwrap_err();
    assert_eq!(err.message(), "expected integer literal");
    let err = parse("[a]{1,x}").unwrap_err();
    assert_eq!(err.message(), "expected integer literal or empty");
    let err = parse("[a])").unwrap_err();
    assert_eq!(err.message(), "unexpected tokens");
}

#[test]
fn positions_count_characters() {
    assert_eq!(parse("[é]"), error(1, ErrorKind::ExpectedPredicate));
    assert_eq!(parse("(?P<\"é\">[a]"), error(11, ErrorKind::UnclosedGroup));
}

#[test]
fn unknown_predicates_are_reported() {
    let mut table: Predicates<i32> = Predicates::new();
    table.define("a", |x: &i32| *x == 1);
    match vec_reg("[a][b][c]", &table) {
        Err(PatternError::UnknownPredicate(name)) => assert_eq!(name, "b"),
        _ => panic!("the text names a predicate that is not defined"),
    }
    match vec_reg("[a", &table) {
        Err(PatternError::Syntax(e)) => {
            assert_eq!(e, ParseError { position: 0, kind: ErrorKind::UnclosedBracket })
        }
        _ => panic!("the text is ill formed"),
    }
}

#[test]
fn the_first_definition_of_a_name_is_found() {
    let mut table: Predicates<i32> = Predicates::new();
    table.define("a", |x: &i32| *x == 1);
    table.define("a", |x: &i32| *x == 2);
    let reg = vec_reg("[a]", &table).unwrap().compile();
    assert!(reg.is_full_match(&[1]));
    assert!(!reg.is_full_match(&[2]));
    assert!(table.lookup("a").is_some());
    assert!(table.lookup("b").is_none());
}

#[test]
fn dot_matches_anything() {
    let table: Predicates<i32> = Predicates::new();
    let reg = vec_reg("..", &table).unwrap().compile();
    assert!(reg.is_full_match(&[7, 9]));
    assert!(!reg.is_full_match(&[7]));
}

#[test]
fn test_builds() {
    let cases = [
        "[is_even]+",
        "[is_even]+?[is_even]",
        "[is_even]*?[is_even]",
        "[is_even]??[is_even]",
        "[is_even]{3}?[is_even]",
        "[is_even]{3, 4}?[is_even]",
        "[is_even]{3,}?[is_even]",
        "[is_even]{3}",
        "[is_even]{3, 4}",
        "[is_even]{3,}",
    ];
    let mut table: Predicates<i32> = Predicates::new();
    table.define("is_even", |x: &i32| x % 2 == 0);
    for case in cases {
        let pattern = parse(case);
        assert!(pattern.is_ok());
        assert!(pattern.unwrap().to_builder_code().starts_with("vec_reg::Regex::"));
        assert!(vec_reg(case, &table).is_ok());
    }
}
