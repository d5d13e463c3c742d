use eval::filter::{
    default_whitelist, op_whitelist_check, retain_scoped, retain_whitelisted, variable_scope_check,
};
use eval::rule::Rule;
use eval::ruleset::{Provenance, Ruleset};

fn rule(text: &str) -> Rule {
    Rule::from_string(text).unwrap().0
}

#[test]
fn the_default_whitelist_holds_the_operators_of_the_domain() {
    let ops = default_whitelist();
    let expected = [
        "abs", "<", "<=", ">", ">=", "==", "!=", "->", "!", "-", "&&", "||", "^", "+", "*", "/",
        "%", "min", "max", "select", "istrue",
    ];
    assert_eq!(ops, expected.iter().map(|s| s.to_string()).collect::<Vec<String>>());
}

#[test]
fn a_line_of_allowed_operators_passes() {
    let ops = default_whitelist();
    assert!(op_whitelist_check("(+ ?a 0) ==> ?a", &ops));
    assert!(op_whitelist_check("(min ?a (max ?a ?b)) ==> ?a if (<= ?a ?b)", &ops));
    assert!(op_whitelist_check("(select (&& ?a (! ?b)) (abs ?c) (% ?c 2)) <=> ?d", &ops));
    assert!(op_whitelist_check("?a ==> ?a", &ops));
    assert!(op_whitelist_check("", &ops));
}

#[test]
fn a_line_with_one_foreign_operator_is_rejected() {
    let ops = default_whitelist();
    assert!(!op_whitelist_check("(sqrt (* ?a ?a)) ==> (abs ?a)", &ops));
    assert!(!op_whitelist_check("(+ ?a 0) ==> (sqrt ?a)", &ops));
    assert!(!op_whitelist_check("(+ ?a 0) ==> ?a if (sqrt ?a)", &ops));
    assert!(!op_whitelist_check("(+ (* ?a (sqrt ?b)) 0) ==> ?a", &ops));
}

#[test]
fn a_parenthesis_without_a_leading_symbol_is_rejected() {
    let ops = default_whitelist();
    assert!(!op_whitelist_check("((+ ?a ?b)) ==> ?a", &ops));
    assert!(!op_whitelist_check("() ==> ?a", &ops));
    assert!(!op_whitelist_check("?a ==> (", &ops));
    assert!(!op_whitelist_check("(?a 1) ==> ?a", &ops));
}

#[test]
fn the_whitelist_is_the_callers_choice() {
    let only_plus = vec!["+".to_string()];
    assert!(op_whitelist_check("(+ ?a (+ ?b ?c)) ==> ?a", &only_plus));
    assert!(!op_whitelist_check("(+ ?a (* ?b ?c)) ==> ?a", &only_plus));
    assert!(!op_whitelist_check("(+ ?a ?b) ==> ?a", &Vec::new()));
    assert!(op_whitelist_check("?a ==> ?b", &Vec::new()));
}

#[test]
fn whitelisted_lines_are_retained_in_order_and_the_others_dropped() {
    let lines: Vec<String> = [
        "(+ ?a 0) ==> ?a",
        "(sqrt (* ?a ?a)) ==> ?a",
        "",
        "(* ?a 1) ==> ?a",
        "(pow ?a 2) ==> (* ?a ?a)",
        "not a rule but harmless",
    ]
    .iter()
    .map(|s| s.to_string())
    .collect();
    let kept = retain_whitelisted(&lines, &default_whitelist());
    assert_eq!(kept, vec!["(+ ?a 0) ==> ?a", "", "(* ?a 1) ==> ?a", "not a rule but harmless"]);
}

#[test]
fn a_rule_with_an_unbound_right_hand_variable_is_rejected() {
    assert!(!variable_scope_check(&rule("(+ ?a ?b) ==> (+ ?a ?c)")));
    assert!(!variable_scope_check(&rule("0 ==> (* ?a 0)")));
}

#[test]
fn a_well_scoped_rule_is_accepted() {
    assert!(variable_scope_check(&rule("(+ ?a ?b) ==> (+ ?b ?a)")));
    assert!(variable_scope_check(&rule("(* ?a 0) ==> 0")));
    assert!(variable_scope_check(&rule("(+ ?a ?a) ==> (* 2 ?a)")));
    assert!(variable_scope_check(&rule("x ==> y")));
}

#[test]
fn the_scope_check_does_not_look_at_the_condition() {
    assert!(variable_scope_check(&rule("(/ ?a ?a) ==> 1 if (!= ?b 0)")));
}

#[test]
fn retain_scoped_keeps_the_scoped_rules_in_order() {
    let rules = vec![
        rule("(+ ?a ?b) ==> (+ ?b ?a)"),
        rule("(+ ?a ?b) ==> (+ ?a ?c)"),
        rule("(* ?a 1) ==> ?a"),
        rule("?a ==> (+ ?a ?b)"),
    ];
    let set = Ruleset::from_rules(rules, Provenance::Reference);
    assert_eq!(set.len(), 4);
    let kept = retain_scoped(&set);
    assert_eq!(kept.names(), vec!["(+ ?a ?b) ==> (+ ?b ?a)", "(* ?a 1) ==> ?a"]);
    assert!(matches!(kept.provenance(), Provenance::Filtered));
    assert_eq!(set.len(), 4);
}
