use eval::conditions::{
    build_implication_lemmas, check_implication, collect, read_implication, render_all, LemmaCheck,
};
use eval::ruleset::{Provenance, Ruleset};
use eval::term::ParseError;

fn set_of(texts: &[&str]) -> Ruleset {
    let lines: Vec<String> = texts.iter().map(|s| s.to_string()).collect();
    Ruleset::from_lines(&lines, Provenance::Reference).ruleset
}

#[test]
fn conditions_of_both_sets_are_collected_once() {
    let a = set_of(&[
        "(/ ?a ?a) ==> 1 if (!= ?a 0)",
        "(+ ?a 0) ==> ?a",
        "(max ?a ?b) ==> ?b if (<= ?a ?b)",
        "(/ (* ?a ?b) ?a) ==> ?b if (!= ?a 0)",
    ]);
    let b = set_of(&[
        "(min ?a ?b) ==> ?a if (<= ?a ?b)",
        "(min ?a ?b) ==> ?b if (< ?b ?a)",
        "(% ?a ?a) ==> 0 if ( !=  ?a 0 )",
    ]);
    let conditions = collect(&a, &b);
    assert_eq!(render_all(&conditions), vec!["(!= ?a 0)", "(<= ?a ?b)", "(< ?b ?a)"]);
    let other_way = collect(&b, &a);
    assert_eq!(render_all(&other_way), vec!["(<= ?a ?b)", "(< ?b ?a)", "(!= ?a 0)"]);
}

#[test]
fn sets_without_conditions_give_no_condition() {
    let a = set_of(&["(+ ?a 0) ==> ?a"]);
    let empty = Ruleset::empty(Provenance::Reference);
    assert!(collect(&a, &empty).is_empty());
    assert!(collect(&empty, &empty).is_empty());
    assert!(render_all(&Vec::new()).is_empty());
}

#[test]
fn an_implication_is_read_as_the_rule_from_premise_to_conclusion() {
    let lemma = read_implication("(< ?a ?b)   implies (<= ?a ?b)").ok().unwrap();
    assert_eq!(lemma.name(), "(< ?a ?b) ==> (<= ?a ?b)");
    assert_eq!(lemma.lhs().render(), "(< ?a ?b)");
    assert_eq!(lemma.rhs().render(), "(<= ?a ?b)");
    assert!(lemma.cond().is_none());
}

#[test]
fn a_text_that_is_no_implication_is_reported() {
    assert_eq!(read_implication("(< ?a ?b) (<= ?a ?b)").err(), Some(ParseError::MissingArrow));
    assert_eq!(read_implication("(< ?a ?b) ==> (<= ?a ?b)").err(), Some(ParseError::MissingArrow));
    assert_eq!(read_implication("(< ?a ?b)").err(), Some(ParseError::MissingArrow));
    assert_eq!(read_implication("(< ?a ?b implies ?c").err(), Some(ParseError::MalformedTerm));
    assert_eq!(read_implication("?a implies").err(), Some(ParseError::MalformedTerm));
    assert_eq!(read_implication("").err(), Some(ParseError::MalformedTerm));
    assert_eq!(read_implication("?a implies ?b implies ?c").err(), Some(ParseError::TrailingInput));
}

#[test]
fn a_proposal_with_a_bound_conclusion_is_accepted() {
    match check_implication("(< ?a ?b) implies (!= ?a ?b)") {
        LemmaCheck::Accepted(lemma) => assert_eq!(lemma.name(), "(< ?a ?b) ==> (!= ?a ?b)"),
        _ => panic!("the lemma was not accepted"),
    }
}

#[test]
fn a_proposal_with_a_free_conclusion_variable_is_rejected_with_both_variable_lists() {
    match check_implication("(< ?b (+ ?a ?b)) implies (< ?a (+ ?c ?b))") {
        LemmaCheck::Rejected { lemma, premise_vars, conclusion_vars } => {
            assert_eq!(lemma.name(), "(< ?b (+ ?a ?b)) ==> (< ?a (+ ?c ?b))");
            assert_eq!(premise_vars, vec!["?b", "?a"]);
            assert_eq!(conclusion_vars, vec!["?a", "?c", "?b"]);
        },
        _ => panic!("the lemma was not rejected"),
    }
}

#[test]
fn a_malformed_proposal_is_told_apart_from_a_rejected_one() {
    assert!(matches!(
        check_implication("(< ?a ?b) entails (<= ?a ?b)"),
        LemmaCheck::Malformed(ParseError::MissingArrow)
    ));
}

#[test]
fn lemmas_are_built_from_the_accepted_proposals_only() {
    let candidates: Vec<String> = [
        "(< ?a ?b) implies (<= ?a ?b)",
        "(< ?a ?b) implies (< ?a ?c)",
        "nonsense",
        "(== ?a ?b) implies (<= ?a ?b)",
        "(<  ?a ?b)  implies  (<= ?a ?b)",
    ]
    .iter()
    .map(|s| s.to_string())
    .collect();
    let built = build_implication_lemmas(&candidates);
    assert_eq!(built.checks.len(), 5);
    assert!(matches!(built.checks[0], LemmaCheck::Accepted(_)));
    assert!(matches!(built.checks[1], LemmaCheck::Rejected { .. }));
    assert!(matches!(built.checks[2], LemmaCheck::Malformed(ParseError::MissingArrow)));
    assert!(matches!(built.checks[3], LemmaCheck::Accepted(_)));
    assert!(matches!(built.checks[4], LemmaCheck::Accepted(_)));
    assert_eq!(built.accepted, vec![0, 3, 4]);
    assert_eq!(
        built.lemmas.names(),
        vec!["(< ?a ?b) ==> (<= ?a ?b)", "(== ?a ?b) ==> (<= ?a ?b)"]
    );
    let none = build_implication_lemmas(&Vec::new());
    assert!(none.checks.is_empty());
    assert!(none.accepted.is_empty());
    assert!(none.lemmas.is_empty());
}
