//! The documents that a run hands out.
//!
//! A report is put together from results that exist already; nothing is
//! proved or decided here. The order of a report is the order of its
//! source: rule names in the order of the rule set, records in the order of
//! the corpus.

use vstd::prelude::*;
use vstd::string::*;
use crate::compare::{ComparisonRecord, OutcomeView, ProofOutcome, RecordView};
use crate::derivability::{derive_of, BothSides, DerivabilityResult, ResultView};
use crate::ruleset::{names_of, Ruleset};
use crate::soundness::Verdict;
use crate::text::strs_view;

verus! {

/// The word for a verdict in a report.
pub open spec fn label_of(v: Verdict) -> Seq<char> {
    match v {
        Verdict::Valid => "valid"@,
        Verdict::Invalid => "invalid"@,
        Verdict::Unknown => "unknown"@,
    }
}

/// The word for a verdict in a report: `valid`, `invalid` or `unknown`.
pub fn verdict_label(v: Verdict) -> (s: &'static str)
    ensures
        s@ == label_of(v),
{
    match v {
        Verdict::Valid => "valid",
        Verdict::Invalid => "invalid",
        Verdict::Unknown => "unknown",
    }
}

/// The mathematical form of a direction report.
pub struct DirectionView {
    pub can_len: nat,
    pub cannot_len: nat,
    pub can: Seq<Seq<char>>,
    pub cannot: Seq<Seq<char>>,
}

/// One direction of a derivability report: the names of the rules that can
/// be derived and of those that cannot, with their numbers.
#[derive(Debug)]
pub struct DirectionReport {
    pub can_len: usize,
    pub cannot_len: usize,
    pub can: Vec<String>,
    pub cannot: Vec<String>,
}

impl View for DirectionReport {
    type V = DirectionView;

    open spec fn view(&self) -> DirectionView {
        DirectionView {
            can_len: self.can_len as nat,
            cannot_len: self.cannot_len as nat,
            can: strs_view(self.can@),
            cannot: strs_view(self.cannot@),
        }
    }
}

/// The report of one direction.
pub open spec fn direction_of(r: ResultView) -> DirectionView {
    DirectionView {
        can_len: r.derivable.len(),
        cannot_len: r.not_derivable.len(),
        can: names_of(r.derivable),
        cannot: names_of(r.not_derivable),
    }
}

/// The report of one direction of a derivability comparison.
pub fn direction_report(result: &DerivabilityResult) -> (d: DirectionReport)
    ensures
        d@ == direction_of(result@),
        d@.can_len == d@.can.len(),
        d@.cannot_len == d@.cannot.len(),
{
    let can = result.derivable.names();
    let cannot = result.not_derivable.names();
    assert(strs_view(can@).len() == can@.len());
    assert(strs_view(cannot@).len() == cannot@.len());
    DirectionReport { can_len: can.len(), cannot_len: cannot.len(), can, cannot }
}

/// One direction of a derivability comparison from the prover's answers to
/// its report: the rules of `ruleset` that can be derived from `against`
/// and those that cannot, by name. `None` where the answers are not as many
/// as the checks of the plan.
pub fn derivability_check(ruleset: &Ruleset, against: &Ruleset, outcomes: &Vec<BothSides>) -> (d:
    Option<DirectionReport>)
    ensures
        match d {
            Some(report) => derive_of(ruleset@, against@, outcomes@) matches Some(res)
                && report@ == direction_of(res),
            None => derive_of(ruleset@, against@, outcomes@) is None,
        },
{
    match crate::derivability::derive(ruleset, against, outcomes) {
        Some(result) => Some(direction_report(&result)),
        None => None,
    }
}

/// The report of a derivability comparison in both directions.
#[derive(Debug)]
pub struct DerivabilityReport {
    pub forwards: DirectionReport,
    pub backwards: DirectionReport,
}

/// The report of a derivability comparison: `forwards` for the first rule
/// set derived from the second, `backwards` for the second from the first.
pub fn derivability_report(forwards: &DerivabilityResult, backwards: &DerivabilityResult) -> (r:
    DerivabilityReport)
    ensures
        r.forwards@ == direction_of(forwards@),
        r.backwards@ == direction_of(backwards@),
{
    DerivabilityReport {
        forwards: direction_report(forwards),
        backwards: direction_report(backwards),
    }
}

/// The mathematical form of an entry of a comparison report.
pub struct EntryView {
    pub expression: Seq<char>,
    pub reference_result: OutcomeView,
    pub candidate_result: OutcomeView,
    pub oracle_result: Seq<char>,
}

/// One entry of a comparison report: the expression, the two proof
/// results, and the word for the verdict.
#[derive(Debug)]
pub struct ResultEntry {
    pub expression: String,
    pub reference_result: ProofOutcome,
    pub candidate_result: ProofOutcome,
    pub oracle_result: String,
}

impl View for ResultEntry {
    type V = EntryView;

    open spec fn view(&self) -> EntryView {
        EntryView {
            expression: self.expression@,
            reference_result: self.reference_result@,
            candidate_result: self.candidate_result@,
            oracle_result: self.oracle_result@,
        }
    }
}

/// The entry for a record.
pub open spec fn entry_of(r: RecordView) -> EntryView {
    EntryView {
        expression: r.expression,
        reference_result: r.reference_outcome,
        candidate_result: r.candidate_outcome,
        oracle_result: label_of(r.oracle_verdict),
    }
}

/// The entry of a comparison report for one record.
pub fn result_entry(record: &ComparisonRecord) -> (e: ResultEntry)
    ensures
        e@ == entry_of(record@),
{
    ResultEntry {
        expression: record.expression.clone(),
        reference_result: record.reference_outcome.clone(),
        candidate_result: record.candidate_outcome.clone(),
        oracle_result: String::from_str(verdict_label(record.oracle_verdict)),
    }
}

/// The report of a comparison over a corpus.
#[derive(Debug)]
pub struct ComparisonReport {
    /// The names of the rules of the candidate rule set, in its order.
    pub ruleset: Vec<String>,
    /// One entry for each expression, in the order of the corpus.
    pub results: Vec<ResultEntry>,
}

/// The report of a comparison: the names of the candidate's rules as they
/// are given, and one entry for each record.
pub fn comparison_report(rule_names: Vec<String>, records: &Vec<ComparisonRecord>) -> (r:
    ComparisonReport)
    ensures
        r.ruleset@ == rule_names@,
        r.results@.len() == records@.len(),
        forall|i: int|
            0 <= i < records@.len() ==> (#[trigger] r.results@[i])@ == entry_of(records@[i]@),
{
    let mut results: Vec<ResultEntry> = Vec::new();
    let mut i: usize = 0;
    while i < records.len()
        invariant
            i <= records.len(),
            results.len() == i,
            forall|k: int| 0 <= k < i ==> (#[trigger] results@[k])@ == entry_of(records@[k]@),
        decreases records.len() - i,
    {
        results.push(result_entry(&records[i]));
        i += 1;
    }
    ComparisonReport { ruleset: rule_names, results }
}

} // verus!
