use eval::rule::Rule;
use eval::ruleset::{
    split_lines, LoadError, Provenance, Ruleset, SkipReason, Skipped,
};
use eval::term::ParseError;

fn lines(texts: &[&str]) -> Vec<String> {
    texts.iter().map(|s| s.to_string()).collect()
}

fn rule(text: &str) -> Rule {
    Rule::from_string(text).unwrap().0
}

#[test]
fn split_lines_cuts_at_line_feeds() {
    assert_eq!(split_lines("a\nb\n\nc"), vec!["a", "b", "", "c"]);
    assert_eq!(split_lines("a\n"), vec!["a", ""]);
    assert_eq!(split_lines(""), vec![""]);
    assert_eq!(split_lines("\n"), vec!["", ""]);
    assert_eq!(split_lines("no feed"), vec!["no feed"]);
    assert_eq!(split_lines("é\nñ"), vec!["é", "ñ"]);
}

#[test]
fn from_lines_reads_rules_in_order_and_ignores_blank_lines() {
    let loaded = Ruleset::from_lines(
        &lines(&["(+ ?a 0) ==> ?a", "", "   ", "(* ?a 1) ==> ?a", "\t"]),
        Provenance::Reference,
    );
    assert_eq!(loaded.ruleset.names(), vec!["(+ ?a 0) ==> ?a", "(* ?a 1) ==> ?a"]);
    assert!(loaded.skipped.is_empty());
    assert!(matches!(loaded.ruleset.provenance(), Provenance::Reference));
}

#[test]
fn from_lines_skips_and_reports_lines_that_are_not_rules() {
    let loaded = Ruleset::from_lines(
        &lines(&["(+ ?a 0) ==> ?a", "(+ ?a 0", "(* ?a 1) ?a", "?a ==> ?b ?c", "(* ?a 1) ==> ?a"]),
        Provenance::Synthesized("rules.txt".to_string()),
    );
    assert_eq!(loaded.ruleset.names(), vec!["(+ ?a 0) ==> ?a", "(* ?a 1) ==> ?a"]);
    assert_eq!(
        loaded.skipped,
        vec![
            Skipped { line: 1, reason: SkipReason::Unparsable(ParseError::MalformedTerm) },
            Skipped { line: 2, reason: SkipReason::Unparsable(ParseError::MissingArrow) },
            Skipped { line: 3, reason: SkipReason::Unparsable(ParseError::TrailingInput) },
        ]
    );
    match loaded.ruleset.provenance() {
        Provenance::Synthesized(path) => assert_eq!(path, "rules.txt"),
        _ => panic!("the tag was changed"),
    }
}

#[test]
fn from_lines_leaves_out_rules_with_unbound_variables() {
    let loaded = Ruleset::from_lines(
        &lines(&["(+ ?a ?b) ==> (+ ?a ?c)", "(+ ?a ?b) ==> (+ ?b ?a)"]),
        Provenance::Reference,
    );
    assert_eq!(loaded.ruleset.names(), vec!["(+ ?a ?b) ==> (+ ?b ?a)"]);
    assert_eq!(loaded.skipped, vec![Skipped { line: 0, reason: SkipReason::UnboundVariable }]);
}

#[test]
fn each_direction_of_a_bidirectional_line_is_checked_on_its_own() {
    let loaded = Ruleset::from_lines(
        &lines(&["(* ?a 0) <=> 0", "(+ ?a ?b) <=> (+ ?b ?a)", "0 <=> (* 0 ?a)", "?x <=> ?y"]),
        Provenance::Reference,
    );
    assert_eq!(
        loaded.ruleset.names(),
        vec![
            "(* ?a 0) ==> 0",
            "(+ ?a ?b) ==> (+ ?b ?a)",
            "(+ ?b ?a) ==> (+ ?a ?b)",
            "(* 0 ?a) ==> 0"
        ]
    );
    assert_eq!(
        loaded.skipped,
        vec![
            Skipped { line: 0, reason: SkipReason::UnboundVariableBackward },
            Skipped { line: 2, reason: SkipReason::UnboundVariable },
            Skipped { line: 3, reason: SkipReason::UnboundVariable },
            Skipped { line: 3, reason: SkipReason::UnboundVariableBackward },
        ]
    );
}

#[test]
fn a_rule_enters_a_set_once() {
    let loaded = Ruleset::from_lines(
        &lines(&["(+ ?a 0) ==> ?a", "( +  ?a   0 )  ==>  ?a", "?a <=> ?a", "(+ ?a 0) ==> ?a"]),
        Provenance::Reference,
    );
    assert_eq!(loaded.ruleset.names(), vec!["(+ ?a 0) ==> ?a", "?a ==> ?a"]);
    assert!(loaded.skipped.is_empty());
}

#[test]
fn a_condition_is_part_of_the_identity_of_a_rule() {
    let loaded = Ruleset::from_lines(
        &lines(&["(/ ?a ?a) ==> 1", "(/ ?a ?a) ==> 1 if (!= ?a 0)"]),
        Provenance::Reference,
    );
    assert_eq!(loaded.ruleset.len(), 2);
    assert_eq!(loaded.ruleset.rules()[1].name(), "(/ ?a ?a) ==> 1 if (!= ?a 0)");
}

#[test]
fn the_strict_reader_refuses_a_bidirectional_line() {
    let r = Ruleset::from_unidirectional_lines(
        &lines(&["(+ ?a 0) ==> ?a", "oops", "(* ?a ?b) <=> (* ?b ?a)", "?a <=> ?a"]),
        Provenance::Reference,
    );
    assert_eq!(r.err(), Some(LoadError::UnexpectedBidirectional(2)));
}

#[test]
fn the_strict_reader_reads_one_directional_lines_as_the_plain_reader_does() {
    let text = lines(&["(+ ?a 0) ==> ?a", "oops", "", "?a ==> (f ?b)"]);
    let strict = Ruleset::from_unidirectional_lines(&text, Provenance::Reference).ok().unwrap();
    let plain = Ruleset::from_lines(&text, Provenance::Reference);
    assert_eq!(strict.ruleset.names(), plain.ruleset.names());
    assert_eq!(strict.ruleset.names(), vec!["(+ ?a 0) ==> ?a"]);
    assert_eq!(strict.skipped, plain.skipped);
    assert_eq!(
        strict.skipped,
        vec![
            Skipped { line: 1, reason: SkipReason::Unparsable(ParseError::MissingArrow) },
            Skipped { line: 3, reason: SkipReason::UnboundVariable },
        ]
    );
}

#[test]
fn from_rules_keeps_the_first_of_equal_rules() {
    let set = Ruleset::from_rules(
        vec![rule("?a ==> ?a"), rule("(f ?a) ==> ?a"), rule(" ?a ==> ?a ")],
        Provenance::Filtered,
    );
    assert_eq!(set.names(), vec!["?a ==> ?a", "(f ?a) ==> ?a"]);
    assert!(set.contains(&rule("(f  ?a) ==> ?a")));
    assert!(!set.contains(&rule("(g ?a) ==> ?a")));
    assert!(!set.is_empty());
    assert!(Ruleset::empty(Provenance::Reference).is_empty());
}

#[test]
fn select_takes_the_flagged_rules() {
    let set = Ruleset::from_rules(
        vec![rule("a ==> b"), rule("b ==> c"), rule("c ==> d")],
        Provenance::Reference,
    );
    let picked = set.select(&vec![true, false, true], Provenance::Filtered);
    assert_eq!(picked.names(), vec!["a ==> b", "c ==> d"]);
    assert!(set.select(&vec![true, false], Provenance::Filtered).is_empty());
    assert!(set.select(&vec![false, false, false], Provenance::Filtered).is_empty());
}

#[test]
fn a_set_is_copied_and_retagged_without_change() {
    let a = Ruleset::from_rules(vec![rule("a ==> b"), rule("b ==> c")], Provenance::Reference);
    let same = a.retagged(Provenance::Filtered);
    assert_eq!(same.names(), a.names());
    assert!(matches!(same.provenance(), Provenance::Filtered));
    assert!(matches!(a.provenance(), Provenance::Reference));
    assert_eq!(a.clone().names(), a.names());
}

#[test]
fn a_text_is_read_line_by_line() {
    let text = "(+ ?a 0) ==> ?a\n\n(* ?a 0) <=> 0\nbroken (\n";
    let loaded = Ruleset::from_lines(&split_lines(text), Provenance::Reference);
    assert_eq!(loaded.ruleset.names(), vec!["(+ ?a 0) ==> ?a", "(* ?a 0) ==> 0"]);
    assert_eq!(
        loaded.skipped,
        vec![
            Skipped { line: 2, reason: SkipReason::UnboundVariableBackward },
            Skipped { line: 3, reason: SkipReason::Unparsable(ParseError::MissingArrow) },
        ]
    );
}

#[test]
fn a_long_text_is_read_in_full() {
    let mut text = String::new();
    for k in 0..3000 {
        text.push_str(&format!("(+ ?a {}) ==> (+ {} ?a)\n", k, k));
    }
    let loaded = Ruleset::from_lines(&split_lines(&text), Provenance::Reference);
    assert_eq!(loaded.ruleset.len(), 3000);
    assert!(loaded.skipped.is_empty());
    assert_eq!(loaded.ruleset.rules()[2999].name(), "(+ ?a 2999) ==> (+ 2999 ?a)");
}
