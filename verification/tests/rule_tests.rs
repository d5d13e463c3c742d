use eval::rule::Rule;
use eval::term::ParseError;

#[test]
fn parses_a_plain_rule() {
    let (fw, bw) = Rule::from_string("(+ ?a 0) ==> ?a").unwrap();
    assert!(bw.is_none());
    assert_eq!(fw.name(), "(+ ?a 0) ==> ?a");
    assert_eq!(fw.lhs().render(), "(+ ?a 0)");
    assert_eq!(fw.rhs().render(), "?a");
    assert!(fw.cond().is_none());
}

#[test]
fn parses_a_conditional_bidirectional_rule() {
    let (fw, bw) = Rule::from_string("(/ (* ?a ?b) ?b)   <=>  ?a if  (!= ?b 0)").unwrap();
    let bw = bw.unwrap();
    assert_eq!(fw.name(), "(/ (* ?a ?b) ?b) ==> ?a if (!= ?b 0)");
    assert_eq!(bw.name(), "?a ==> (/ (* ?a ?b) ?b) if (!= ?b 0)");
    assert_eq!(fw.cond().unwrap().render(), "(!= ?b 0)");
    assert!(bw.same(&fw.reversed()));
}

#[test]
fn reports_each_parse_error() {
    assert_eq!(Rule::from_string("(+ ?a 0) ?a").err(), Some(ParseError::MissingArrow));
    assert_eq!(Rule::from_string("(+ ?a 0)").err(), Some(ParseError::MissingArrow));
    assert_eq!(Rule::from_string("(+ ?a 0 ==> ?a").err(), Some(ParseError::MalformedTerm));
    assert_eq!(Rule::from_string("?a ==> ").err(), Some(ParseError::MalformedTerm));
    assert_eq!(Rule::from_string("?a ==> ?b if").err(), Some(ParseError::MalformedTerm));
    assert_eq!(Rule::from_string("?a ==> ?b ?c").err(), Some(ParseError::TrailingInput));
    assert_eq!(Rule::from_string("?a ==> ?b if ?c ?d").err(), Some(ParseError::TrailingInput));
    assert_eq!(Rule::from_string("").err(), Some(ParseError::MalformedTerm));
}

#[test]
fn name_reads_back_to_the_same_rule() {
    let texts = [
        "(+ ?a ?b) ==> (+ ?b ?a)",
        " ( min ?x  (max ?x ?y)) ==> ?x ",
        "(< ?a ?b) ==> 1 if (< (+ ?a 1) ?b)",
        "(f) ==> f",
    ];
    for text in texts {
        let (first, _) = Rule::from_string(text).unwrap();
        let (again, none) = Rule::from_string(first.name()).unwrap();
        assert!(none.is_none());
        assert!(again.same(&first));
        assert_eq!(again.name(), first.name());
    }
}
