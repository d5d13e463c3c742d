use eval::compare::{
    check_corpus, compare, comparison_limits, disagreements, ComparisonRecord, CorpusError,
    ProofOutcome,
};
use eval::derivability::{Limits, ProofStatus};
use eval::soundness::Verdict;
use eval::term::ParseError;

fn outcome(status: ProofStatus, justification: Option<&str>) -> ProofOutcome {
    ProofOutcome { status, justification: justification.map(|s| s.to_string()) }
}

#[test]
fn a_record_keeps_a_proof_beside_a_verdict_of_invalid() {
    let record = ComparisonRecord::new(
        "(< (+ x 1) x)".to_string(),
        outcome(ProofStatus::Unknown, None),
        outcome(ProofStatus::Proved, Some("by rule 7")),
        Verdict::Invalid,
    );
    assert_eq!(record.expression, "(< (+ x 1) x)");
    assert_eq!(record.reference_outcome.status, ProofStatus::Unknown);
    assert_eq!(record.reference_outcome.justification, None);
    assert_eq!(record.candidate_outcome.status, ProofStatus::Proved);
    assert_eq!(record.candidate_outcome.justification, Some("by rule 7".to_string()));
    assert_eq!(record.oracle_verdict, Verdict::Invalid);
    assert!(record.disagrees());
}

#[test]
fn only_a_contradiction_counts_as_a_disagreement() {
    let cases = [
        (ProofStatus::Proved, Verdict::Valid, false),
        (ProofStatus::Proved, Verdict::Invalid, true),
        (ProofStatus::Proved, Verdict::Unknown, false),
        (ProofStatus::Disproved, Verdict::Valid, true),
        (ProofStatus::Disproved, Verdict::Invalid, false),
        (ProofStatus::Disproved, Verdict::Unknown, false),
        (ProofStatus::Unknown, Verdict::Valid, false),
        (ProofStatus::Unknown, Verdict::Invalid, false),
        (ProofStatus::Unknown, Verdict::Unknown, false),
    ];
    for (status, verdict, expected) in cases {
        let record = ComparisonRecord::new(
            "x".to_string(),
            outcome(ProofStatus::Proved, None),
            outcome(status, None),
            verdict,
        );
        assert_eq!(record.disagrees(), expected);
    }
}

#[test]
fn both_rule_sets_run_under_the_same_limits() {
    assert_eq!(
        comparison_limits(),
        Limits { max_nodes: 100000, max_iterations: 100000, time_budget_ms: 3000 }
    );
}

#[test]
fn compare_puts_the_answers_together_in_the_order_of_the_corpus() {
    let expressions = vec!["(== x x)".to_string(), "(< x x)".to_string(), "(<= x y)".to_string()];
    let reference = vec![
        outcome(ProofStatus::Proved, Some("reflexivity")),
        outcome(ProofStatus::Disproved, None),
        outcome(ProofStatus::Unknown, None),
    ];
    let candidate = vec![
        outcome(ProofStatus::Proved, None),
        outcome(ProofStatus::Proved, Some("wrongly")),
        outcome(ProofStatus::Unknown, Some("ran out of time")),
    ];
    let verdicts = vec![Verdict::Valid, Verdict::Invalid, Verdict::Unknown];
    let records = compare(&expressions, &reference, &candidate, &verdicts).unwrap();
    assert_eq!(records.len(), 3);
    for i in 0..3 {
        assert_eq!(records[i].expression, expressions[i]);
        assert_eq!(records[i].reference_outcome.status, reference[i].status);
        assert_eq!(records[i].reference_outcome.justification, reference[i].justification);
        assert_eq!(records[i].candidate_outcome.status, candidate[i].status);
        assert_eq!(records[i].candidate_outcome.justification, candidate[i].justification);
        assert_eq!(records[i].oracle_verdict, verdicts[i]);
    }
    assert_eq!(disagreements(&records), vec![1]);
    let copy = records[1].clone();
    assert_eq!(copy.candidate_outcome.justification, Some("wrongly".to_string()));
}

#[test]
fn compare_needs_one_answer_of_each_kind_for_every_expression() {
    let expressions = vec!["x".to_string(), "y".to_string()];
    let two = vec![outcome(ProofStatus::Proved, None), outcome(ProofStatus::Unknown, None)];
    let one = vec![outcome(ProofStatus::Proved, None)];
    let verdicts = vec![Verdict::Valid, Verdict::Valid];
    assert!(compare(&expressions, &two, &two, &verdicts).is_some());
    assert!(compare(&expressions, &one, &two, &verdicts).is_none());
    assert!(compare(&expressions, &two, &one, &verdicts).is_none());
    assert!(compare(&expressions, &two, &two, &vec![Verdict::Valid]).is_none());
    assert!(compare(&Vec::new(), &Vec::new(), &Vec::new(), &Vec::new()).unwrap().is_empty());
}

#[test]
fn disagreements_are_listed_in_rising_order() {
    let statuses = [
        (ProofStatus::Proved, Verdict::Invalid),
        (ProofStatus::Proved, Verdict::Valid),
        (ProofStatus::Disproved, Verdict::Valid),
        (ProofStatus::Unknown, Verdict::Invalid),
        (ProofStatus::Proved, Verdict::Invalid),
    ];
    let records: Vec<ComparisonRecord> = statuses
        .iter()
        .map(|(s, v)| {
            ComparisonRecord::new(
                "x".to_string(),
                outcome(ProofStatus::Unknown, None),
                outcome(*s, None),
                *v,
            )
        })
        .collect();
    assert_eq!(disagreements(&records), vec![0, 2, 4]);
    assert!(disagreements(&Vec::new()).is_empty());
}

#[test]
fn a_corpus_of_terms_passes() {
    let corpus = vec!["(<= (+ x 1) (+ x 2))".to_string(), "x".to_string(), " (! b) ".to_string()];
    assert_eq!(check_corpus(&corpus), Ok(()));
    assert_eq!(check_corpus(&Vec::new()), Ok(()));
}

#[test]
fn the_first_expression_that_is_no_term_is_reported() {
    let corpus = vec![
        "(<= x y)".to_string(),
        "(<= x".to_string(),
        "x y".to_string(),
        "".to_string(),
    ];
    assert_eq!(
        check_corpus(&corpus),
        Err(CorpusError { index: 1, error: ParseError::MalformedTerm })
    );
    let other = vec!["x".to_string(), "x y".to_string()];
    assert_eq!(
        check_corpus(&other),
        Err(CorpusError { index: 1, error: ParseError::TrailingInput })
    );
}
