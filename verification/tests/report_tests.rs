use eval::compare::{ComparisonRecord, ProofOutcome};
use eval::derivability::{BothSides, DerivabilityResult, ProofStatus};
use eval::report::{
    comparison_report, derivability_check, derivability_report, direction_report, result_entry,
    verdict_label,
};
use eval::ruleset::{Provenance, Ruleset};
use eval::soundness::Verdict;

fn set_of(texts: &[&str]) -> Ruleset {
    let lines: Vec<String> = texts.iter().map(|s| s.to_string()).collect();
    Ruleset::from_lines(&lines, Provenance::Reference).ruleset
}

const PROVED: BothSides = BothSides { lhs: ProofStatus::Proved, rhs: ProofStatus::Proved };
const OPEN: BothSides = BothSides { lhs: ProofStatus::Unknown, rhs: ProofStatus::Unknown };

#[test]
fn verdicts_are_written_in_lower_case() {
    assert_eq!(verdict_label(Verdict::Valid), "valid");
    assert_eq!(verdict_label(Verdict::Invalid), "invalid");
    assert_eq!(verdict_label(Verdict::Unknown), "unknown");
}

#[test]
fn a_direction_report_names_the_rules_of_both_parts() {
    let result = DerivabilityResult {
        derivable: set_of(&["(+ ?a 0) ==> ?a", "(* ?a 1) ==> ?a"]),
        not_derivable: set_of(&["(- ?a ?a) ==> 0"]),
    };
    let report = direction_report(&result);
    assert_eq!(report.can_len, 2);
    assert_eq!(report.cannot_len, 1);
    assert_eq!(report.can, vec!["(+ ?a 0) ==> ?a", "(* ?a 1) ==> ?a"]);
    assert_eq!(report.cannot, vec!["(- ?a ?a) ==> 0"]);
}

#[test]
fn a_derivability_report_holds_both_directions() {
    let forwards = DerivabilityResult {
        derivable: set_of(&["a ==> b"]),
        not_derivable: Ruleset::empty(Provenance::Filtered),
    };
    let backwards = DerivabilityResult {
        derivable: Ruleset::empty(Provenance::Filtered),
        not_derivable: set_of(&["c ==> d", "d ==> e"]),
    };
    let report = derivability_report(&forwards, &backwards);
    assert_eq!((report.forwards.can_len, report.forwards.cannot_len), (1, 0));
    assert_eq!(report.forwards.can, vec!["a ==> b"]);
    assert!(report.forwards.cannot.is_empty());
    assert_eq!((report.backwards.can_len, report.backwards.cannot_len), (0, 2));
    assert!(report.backwards.can.is_empty());
    assert_eq!(report.backwards.cannot, vec!["c ==> d", "d ==> e"]);
}

#[test]
fn one_direction_goes_from_answers_to_names() {
    let rules = set_of(&["a ==> b", "b ==> c", "c ==> d"]);
    let against = set_of(&["x ==> y"]);
    let report = derivability_check(&rules, &against, &vec![OPEN, PROVED, OPEN]).unwrap();
    assert_eq!((report.can_len, report.cannot_len), (1, 2));
    assert_eq!(report.can, vec!["b ==> c"]);
    assert_eq!(report.cannot, vec!["a ==> b", "c ==> d"]);
    assert!(derivability_check(&rules, &against, &vec![PROVED]).is_none());
    let empty = Ruleset::empty(Provenance::Reference);
    let nothing = derivability_check(&rules, &empty, &Vec::new()).unwrap();
    assert_eq!((nothing.can_len, nothing.cannot_len), (0, 3));
    assert_eq!(nothing.cannot, vec!["a ==> b", "b ==> c", "c ==> d"]);
}

#[test]
fn an_entry_keeps_the_results_and_spells_the_verdict() {
    let record = ComparisonRecord::new(
        "(< x x)".to_string(),
        ProofOutcome { status: ProofStatus::Disproved, justification: None },
        ProofOutcome { status: ProofStatus::Proved, justification: Some("step".to_string()) },
        Verdict::Invalid,
    );
    let entry = result_entry(&record);
    assert_eq!(entry.expression, "(< x x)");
    assert_eq!(entry.reference_result.status, ProofStatus::Disproved);
    assert_eq!(entry.reference_result.justification, None);
    assert_eq!(entry.candidate_result.status, ProofStatus::Proved);
    assert_eq!(entry.candidate_result.justification, Some("step".to_string()));
    assert_eq!(entry.oracle_result, "invalid");
}

#[test]
fn a_comparison_report_keeps_the_order_of_rules_and_records() {
    let candidate = set_of(&["(+ ?a 0) ==> ?a", "(* ?a 1) ==> ?a"]);
    let records: Vec<ComparisonRecord> = [("e1", Verdict::Valid), ("e2", Verdict::Unknown)]
        .iter()
        .map(|(e, v)| {
            ComparisonRecord::new(
                e.to_string(),
                ProofOutcome { status: ProofStatus::Proved, justification: None },
                ProofOutcome { status: ProofStatus::Unknown, justification: None },
                *v,
            )
        })
        .collect();
    let report = comparison_report(candidate.names(), &records);
    assert_eq!(report.ruleset, vec!["(+ ?a 0) ==> ?a", "(* ?a 1) ==> ?a"]);
    assert_eq!(report.results.len(), 2);
    assert_eq!(report.results[0].expression, "e1");
    assert_eq!(report.results[0].oracle_result, "valid");
    assert_eq!(report.results[1].expression, "e2");
    assert_eq!(report.results[1].oracle_result, "unknown");
    assert_eq!(report.results[1].candidate_result.status, ProofStatus::Unknown);
}
