//! Records of a comparison over a corpus of expressions.
//!
//! For each expression an outside prover tries a proof under the reference
//! rule set and under the candidate rule set, both under the same limits,
//! and an independent decision procedure gives its verdict. A record holds
//! the three answers as they came. Where the candidate's answer and the
//! verdict disagree nothing is reconciled: to show such a disagreement is
//! what the comparison is for.

use vstd::prelude::*;
use vstd::string::*;
use crate::derivability::{Limits, ProofStatus};
use crate::soundness::Verdict;
use crate::term::{parse_term_text, ParseError, Term, TermView};

verus! {

/// The characters of a string that may be absent.
pub open spec fn opt_str_view(s: Option<String>) -> Option<Seq<char>> {
    match s {
        Some(t) => Some(t@),
        None => None,
    }
}

/// The mathematical form of a proof outcome.
pub struct OutcomeView {
    pub status: ProofStatus,
    pub justification: Option<Seq<char>>,
}

/// How a proof attempt ended, with the prover's own account of the proof
/// where it gave one.
#[derive(Debug)]
pub struct ProofOutcome {
    pub status: ProofStatus,
    pub justification: Option<String>,
}

impl View for ProofOutcome {
    type V = OutcomeView;

    open spec fn view(&self) -> OutcomeView {
        OutcomeView { status: self.status, justification: opt_str_view(self.justification) }
    }
}

impl Clone for ProofOutcome {
    fn clone(&self) -> (res: ProofOutcome)
        ensures
            res@ == self@,
    {
        let justification = match &self.justification {
            Some(j) => Some(j.clone()),
            None => None,
        };
        ProofOutcome { status: self.status, justification }
    }
}

/// The mathematical form of a comparison record.
pub struct RecordView {
    pub expression: Seq<char>,
    pub reference_outcome: OutcomeView,
    pub candidate_outcome: OutcomeView,
    pub oracle_verdict: Verdict,
}

/// The answers for one expression.
#[derive(Debug)]
pub struct ComparisonRecord {
    pub expression: String,
    pub reference_outcome: ProofOutcome,
    pub candidate_outcome: ProofOutcome,
    pub oracle_verdict: Verdict,
}

impl View for ComparisonRecord {
    type V = RecordView;

    open spec fn view(&self) -> RecordView {
        RecordView {
            expression: self.expression@,
            reference_outcome: self.reference_outcome@,
            candidate_outcome: self.candidate_outcome@,
            oracle_verdict: self.oracle_verdict,
        }
    }
}

impl Clone for ComparisonRecord {
    fn clone(&self) -> (res: ComparisonRecord)
        ensures
            res@ == self@,
    {
        ComparisonRecord {
            expression: self.expression.clone(),
            reference_outcome: self.reference_outcome.clone(),
            candidate_outcome: self.candidate_outcome.clone(),
            oracle_verdict: self.oracle_verdict,
        }
    }
}

/// A proof of something the verdict calls invalid, or a refutation of
/// something it calls valid.
pub open spec fn contradicts(status: ProofStatus, verdict: Verdict) -> bool {
    (status is Proved && verdict is Invalid) || (status is Disproved && verdict is Valid)
}

impl ComparisonRecord {
    /// The record of the given answers, each kept as it is.
    pub fn new(
        expression: String,
        reference_outcome: ProofOutcome,
        candidate_outcome: ProofOutcome,
        oracle_verdict: Verdict,
    ) -> (r: ComparisonRecord)
        ensures
            r@.expression == expression@,
            r@.reference_outcome == reference_outcome@,
            r@.candidate_outcome == candidate_outcome@,
            r@.oracle_verdict == oracle_verdict,
    {
        ComparisonRecord { expression, reference_outcome, candidate_outcome, oracle_verdict }
    }

    /// Whether the candidate's answer contradicts the verdict.
    pub fn disagrees(&self) -> (b: bool)
        ensures
            b == contradicts(self@.candidate_outcome.status, self@.oracle_verdict),
    {
        match (self.candidate_outcome.status, self.oracle_verdict) {
            (ProofStatus::Proved, Verdict::Invalid) => true,
            (ProofStatus::Disproved, Verdict::Valid) => true,
            _ => false,
        }
    }
}

/// The limits of a proof attempt in a comparison. They are the same for the
/// reference and for the candidate rule set.
pub fn comparison_limits() -> (l: Limits)
    ensures
        l == (Limits { max_nodes: 100000, max_iterations: 100000, time_budget_ms: 3000 }),
{
    Limits { max_nodes: 100000, max_iterations: 100000, time_budget_ms: 3000 }
}

/// An expression of the corpus that is not a term.
#[derive(Clone, Copy, PartialEq, Eq, Debug, Structural)]
pub struct CorpusError {
    /// The place of the expression, counted from zero.
    pub index: usize,
    /// Why it is not a term.
    pub error: ParseError,
}

/// Checks that every expression of the corpus is a term. The corpus is
/// taken to be validated beforehand, so the first expression that is not a
/// term ends the run.
pub fn check_corpus(expressions: &Vec<String>) -> (r: Result<(), CorpusError>)
    ensures
        match r {
            Ok(_) => forall|k: int|
                0 <= k < expressions@.len() ==> parse_term_text(
                    (#[trigger] expressions@[k])@,
                ) is Ok,
            Err(e) => {
                &&& e.index < expressions@.len()
                &&& parse_term_text(expressions@[e.index as int]@) == Err::<TermView, ParseError>(
                    e.error,
                )
                &&& forall|k: int|
                    0 <= k < e.index ==> parse_term_text((#[trigger] expressions@[k])@) is Ok
            },
        },
{
    let mut i: usize = 0;
    while i < expressions.len()
        invariant
            i <= expressions.len(),
            forall|k: int| 0 <= k < i ==> parse_term_text((#[trigger] expressions@[k])@) is Ok,
        decreases expressions.len() - i,
    {
        match Term::parse(expressions[i].as_str()) {
            Ok(_) => {},
            Err(error) => {
                return Err(CorpusError { index: i, error });
            },
        }
        i += 1;
    }
    Ok(())
}

/// Whether the four sequences hold one answer of each kind for every
/// expression.
pub open spec fn aligned(
    expressions: Seq<String>,
    reference: Seq<ProofOutcome>,
    candidate: Seq<ProofOutcome>,
    verdicts: Seq<Verdict>,
) -> bool {
    reference.len() == expressions.len() && candidate.len() == expressions.len() && verdicts.len()
        == expressions.len()
}

/// Puts the answers for a corpus together, one record for each expression
/// in the order of the corpus. `None` where an answer is missing or left
/// over.
pub fn compare(
    expressions: &Vec<String>,
    reference: &Vec<ProofOutcome>,
    candidate: &Vec<ProofOutcome>,
    verdicts: &Vec<Verdict>,
) -> (r: Option<Vec<ComparisonRecord>>)
    ensures
        r is Some <==> aligned(expressions@, reference@, candidate@, verdicts@),
        r matches Some(records) ==> {
            &&& records@.len() == expressions@.len()
            &&& forall|i: int|
                0 <= i < records@.len() ==> (#[trigger] records@[i])@ == (RecordView {
                    expression: expressions@[i]@,
                    reference_outcome: reference@[i]@,
                    candidate_outcome: candidate@[i]@,
                    oracle_verdict: verdicts@[i],
                })
        },
{
    let n = expressions.len();
    if reference.len() != n || candidate.len() != n || verdicts.len() != n {
        return None;
    }
    let mut records: Vec<ComparisonRecord> = Vec::new();
    let mut i: usize = 0;
    while i < n
        invariant
            i <= n,
            n == expressions.len(),
            reference.len() == n,
            candidate.len() == n,
            verdicts.len() == n,
            records.len() == i,
            forall|k: int|
                0 <= k < i ==> (#[trigger] records@[k])@ == (RecordView {
                    expression: expressions@[k]@,
                    reference_outcome: reference@[k]@,
                    candidate_outcome: candidate@[k]@,
                    oracle_verdict: verdicts@[k],
                }),
        decreases n - i,
    {
        records.push(
            ComparisonRecord::new(
                expressions[i].clone(),
                reference[i].clone(),
                candidate[i].clone(),
                verdicts[i],
            ),
        );
        i += 1;
    }
    Some(records)
}

/// The places of the records in which the candidate's answer contradicts
/// the verdict, in rising order.
pub fn disagreements(records: &Vec<ComparisonRecord>) -> (places: Vec<usize>)
    ensures
        forall|k: int| 0 <= k < places@.len() ==> (#[trigger] places@[k]) < records@.len(),
        forall|k: int, m: int| 0 <= k < m < places@.len() ==> places@[k] < places@[m],
        forall|i: int|
            0 <= i < records@.len() ==> (places@.contains(i as usize) <==> contradicts(
                (#[trigger] records@[i])@.candidate_outcome.status,
                records@[i]@.oracle_verdict,
            )),
{
    let mut places: Vec<usize> = Vec::new();
    let mut i: usize = 0;
    while i < records.len()
        invariant
            i <= records.len(),
            forall|k: int| 0 <= k < places@.len() ==> (#[trigger] places@[k]) < i,
            forall|k: int, m: int| 0 <= k < m < places@.len() ==> places@[k] < places@[m],
            forall|j: int|
                0 <= j < i ==> (places@.contains(j as usize) <==> contradicts(
                    (#[trigger] records@[j])@.candidate_outcome.status,
                    records@[j]@.oracle_verdict,
                )),
        decreases records.len() - i,
    {
        let ghost before = places@;
        if records[i].disagrees() {
            places.push(i);
            proof {
                assert(places@[before.len() as int] == i);
                assert forall|j: int| 0 <= j < i + 1 implies (places@.contains(j as usize)
                    <==> contradicts(
                    (#[trigger] records@[j])@.candidate_outcome.status,
                    records@[j]@.oracle_verdict,
                )) by {
                    if j < i {
                        if before.contains(j as usize) {
                            let k = choose|k: int| 0 <= k < before.len() && before[k] == j as usize;
                            assert(places@[k] == j as usize);
                        }
                        if places@.contains(j as usize) {
                            let k = choose|k: int|
                                0 <= k < places@.len() && places@[k] == j as usize;
                            assert(k < before.len());
                            assert(before[k] == j as usize);
                        }
                    }
                }
            }
        } else {
            assert(!places@.contains(i)) by {
                if places@.contains(i) {
                    let k = choose|k: int| 0 <= k < places@.len() && places@[k] == i;
                    assert(places@[k] < i);
                }
            }
        }
        i += 1;
    }
    places
}

} // verus!
