use eval::term::{ParseError, Term};

#[test]
fn parses_and_renders_a_nested_term() {
    let t = Term::parse("  ( +   ?a (* 2\t?b) ) ").unwrap();
    assert_eq!(t.head(), "+");
    assert_eq!(t.arity(), 2);
    assert!(t.args()[0].is_variable());
    assert_eq!(t.args()[1].head(), "*");
    assert_eq!(t.render(), "(+ ?a (* 2 ?b))");
    assert_eq!(t.variables(), vec!["?a".to_string(), "?b".to_string()]);
}

#[test]
fn rejects_malformed_terms() {
    assert_eq!(Term::parse("").err(), Some(ParseError::MalformedTerm));
    assert_eq!(Term::parse("(+ a").err(), Some(ParseError::MalformedTerm));
    assert_eq!(Term::parse(")").err(), Some(ParseError::MalformedTerm));
    assert_eq!(Term::parse("()").err(), Some(ParseError::MalformedTerm));
    assert_eq!(Term::parse("((a) b)").err(), Some(ParseError::MalformedTerm));
    assert_eq!(Term::parse("a b").err(), Some(ParseError::TrailingInput));
}
