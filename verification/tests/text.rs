use resolution::Disj;
use resolution::OutputMode;
use resolution::ParseError;
use resolution::Term;
use resolution::parse_disj;

fn clause(terms: Vec<Term>) -> Disj {
    Disj::from_terms(terms)
}

#[test]
fn parse_simple_clauses() {
    assert_eq!(parse_disj("a|").unwrap(), clause(vec![Term::Pos('a')]));
    assert_eq!(parse_disj("|a").unwrap(), clause(vec![Term::Neg('a')]));
    assert_eq!(
        parse_disj("ab|c").unwrap(),
        clause(vec![Term::Pos('a'), Term::Pos('b'), Term::Neg('c')]),
    );
    assert_eq!(parse_disj("|").unwrap(), Disj::contradiction());
}

#[test]
fn parse_skips_whitespace() {
    assert_eq!(
        parse_disj(" a b | c \n").unwrap(),
        clause(vec![Term::Pos('a'), Term::Pos('b'), Term::Neg('c')]),
    );
}

#[test]
fn parse_rejects_invalid_names() {
    assert_eq!(parse_disj("A|"), Err(ParseError::InvalidName));
    assert_eq!(parse_disj("a1|"), Err(ParseError::InvalidName));
    // The character check comes first, even with no bar in sight.
    assert_eq!(parse_disj("!"), Err(ParseError::InvalidName));
}

#[test]
fn parse_rejects_missing_bar() {
    assert_eq!(parse_disj("ab"), Err(ParseError::MissingBar));
    assert_eq!(parse_disj(""), Err(ParseError::MissingBar));
}

#[test]
fn parse_rejects_extra_bars() {
    assert_eq!(parse_disj("a|b|"), Err(ParseError::TooManyBars));
    assert_eq!(parse_disj("||"), Err(ParseError::TooManyBars));
}

#[test]
fn parse_rejects_duplicate_names() {
    assert_eq!(parse_disj("aa|"), Err(ParseError::DuplicateName('a')));
    // A name may not recur even with the other polarity.
    assert_eq!(parse_disj("a|a"), Err(ParseError::DuplicateName('a')));
    assert_eq!(parse_disj("ab|b"), Err(ParseError::DuplicateName('b')));
}

#[test]
fn display_ascii_forms() {
    assert_eq!(Disj::contradiction().display_ascii(), "F");
    assert_eq!(clause(vec![Term::Pos('a')]).display_ascii(), "a");
    assert_eq!(clause(vec![Term::Neg('a')]).display_ascii(), "!a");
    assert_eq!(
        clause(vec![Term::Pos('b'), Term::Neg('a')]).display_ascii(),
        "(!a V b)",
    );
    assert_eq!(
        parse_disj("ab|c").unwrap().display_ascii(),
        "(a V b V !c)",
    );
}

#[test]
fn display_unicode_forms() {
    assert_eq!(Disj::contradiction().display_unicode(), "\u{22a5}");
    assert_eq!(clause(vec![Term::Neg('a')]).display_unicode(), "\u{00ac}a");
    assert_eq!(
        clause(vec![Term::Pos('a'), Term::Neg('b')]).display_unicode(),
        "(a \u{2228} \u{00ac}b)",
    );
    assert_eq!(Term::Pos('x').display_unicode(), "x");
    assert_eq!(Term::Neg('x').display_unicode(), "\u{00ac}x");
    assert_eq!(Term::Pos('x').display_ascii(), "x");
    assert_eq!(Term::Neg('x').display_ascii(), "!x");
}

#[test]
fn output_modes_are_distinct() {
    let modes = vec![
        OutputMode::Ascii,
        OutputMode::LaTeX,
        OutputMode::Silent,
        OutputMode::Unicode,
    ];
    for (i, a) in modes.iter().enumerate() {
        for (j, b) in modes.iter().enumerate() {
            assert_eq!(a == b, i == j);
        }
    }
}

#[test]
fn parse_skips_unicode_whitespace() {
    assert_eq!(
        parse_disj("a\u{00a0}|\u{2003}b").unwrap(),
        clause(vec![Term::Pos('a'), Term::Neg('b')]),
    );
}

#[test]
fn parse_via_from_str() {
    let d: Disj = "ab|c".parse().unwrap();
    assert_eq!(
        d,
        clause(vec![Term::Pos('a'), Term::Pos('b'), Term::Neg('c')]),
    );
    assert_eq!("a||".parse::<Disj>(), Err(ParseError::TooManyBars));
}

#[test]
fn parse_and_display_round_trip() {
    // Parsing a clause and printing it yields the canonical spelling,
    // which parses back to an equal clause.
    let d = parse_disj("ba|c").unwrap();
    let text = d.display_ascii();
    assert_eq!(text, "(a V b V !c)");
    let again = parse_disj("ab|c").unwrap();
    assert_eq!(d, again);
}
