use eval::ruleset::{Provenance, Ruleset};
use eval::soundness::{soundness_check, InvalidPolicy, Verdict};

fn set_of(texts: &[&str]) -> Ruleset {
    let lines: Vec<String> = texts.iter().map(|s| s.to_string()).collect();
    Ruleset::from_lines(&lines, Provenance::Reference).ruleset
}

fn sample() -> Ruleset {
    set_of(&["(+ ?a 0) ==> ?a", "(- ?a ?b) ==> (- ?b ?a)", "(/ ?a ?a) ==> 1", "(* ?a 1) ==> ?a"])
}

fn verdicts() -> Vec<Verdict> {
    vec![Verdict::Valid, Verdict::Invalid, Verdict::Unknown, Verdict::Valid]
}

#[test]
fn flagging_counts_invalid_rules_and_keeps_them() {
    let rules = sample();
    let s = soundness_check(&rules, &verdicts(), InvalidPolicy::Flag).unwrap();
    assert_eq!((s.valid, s.invalid, s.unknown), (2, 1, 1));
    assert_eq!(s.kept.names(), rules.names());
}

#[test]
fn pruning_drops_invalid_rules_and_keeps_undecided_ones() {
    let rules = sample();
    let s = soundness_check(&rules, &verdicts(), InvalidPolicy::Prune).unwrap();
    assert_eq!((s.valid, s.invalid, s.unknown), (2, 1, 1));
    assert_eq!(s.kept.names(), vec!["(+ ?a 0) ==> ?a", "(/ ?a ?a) ==> 1", "(* ?a 1) ==> ?a"]);
    assert!(matches!(s.kept.provenance(), Provenance::Filtered));
    assert_eq!(rules.len(), 4);
}

#[test]
fn verdicts_must_match_the_rules_in_number() {
    let rules = sample();
    assert!(soundness_check(&rules, &vec![Verdict::Valid], InvalidPolicy::Flag).is_none());
    assert!(soundness_check(&rules, &Vec::new(), InvalidPolicy::Prune).is_none());
    let empty = Ruleset::empty(Provenance::Reference);
    let s = soundness_check(&empty, &Vec::new(), InvalidPolicy::Prune).unwrap();
    assert_eq!((s.valid, s.invalid, s.unknown), (0, 0, 0));
    assert!(s.kept.is_empty());
}
