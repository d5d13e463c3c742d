//! What a run is asked to do.
//!
//! A run is chosen by a mode name and gets its files by path. Both are
//! checked before anything is read: a mode name that is not known and a
//! path that the mode needs and that is missing each end the run at once.

use vstd::prelude::*;
use vstd::string::*;
use crate::compare::opt_str_view;

verus! {

/// The modes of a run.
#[derive(Clone, Copy, PartialEq, Eq, Debug, Structural)]
pub enum EvalMode {
    /// Compare a candidate rule set with the reference over a corpus.
    CaviarComparison,
    /// Check whether two rule sets derive each other.
    DerivabilityComparison,
    /// Write out the proofs found over a corpus.
    Eggsplain,
    /// Ask the decision procedure alone about every expression of a corpus.
    Verify,
    /// Check the rules of the reference rule set for soundness.
    Soundness,
}

/// The mode with the given name.
pub open spec fn mode_of(name: Seq<char>) -> Option<EvalMode> {
    if name == "caviar"@ {
        Some(EvalMode::CaviarComparison)
    } else if name == "derivability"@ {
        Some(EvalMode::DerivabilityComparison)
    } else if name == "verify"@ {
        Some(EvalMode::Verify)
    } else if name == "eggsplain"@ {
        Some(EvalMode::Eggsplain)
    } else if name == "soundness"@ {
        Some(EvalMode::Soundness)
    } else {
        None
    }
}

/// Whether a string holds the characters of `word`.
fn is_word(s: &str, word: &str) -> (b: bool)
    ensures
        b == (s@ == word@),
{
    String::from_str(s) == String::from_str(word)
}

impl EvalMode {
    /// The mode with the given name; `None` for a name that is not known.
    pub fn from(name: &str) -> (m: Option<EvalMode>)
        ensures
            m == mode_of(name@),
    {
        if is_word(name, "caviar") {
            Some(EvalMode::CaviarComparison)
        } else if is_word(name, "derivability") {
            Some(EvalMode::DerivabilityComparison)
        } else if is_word(name, "verify") {
            Some(EvalMode::Verify)
        } else if is_word(name, "eggsplain") {
            Some(EvalMode::Eggsplain)
        } else if is_word(name, "soundness") {
            Some(EvalMode::Soundness)
        } else {
            None
        }
    }
}

/// The paths that a run was given. Which of them must be there depends on
/// the mode.
#[derive(Debug)]
pub struct Paths {
    pub dataset: Option<String>,
    pub chompy_ruleset: Option<String>,
    pub other_ruleset: Option<String>,
    pub ruleset_comparison_output: Option<String>,
    pub explanation_output: Option<String>,
    pub derivability_output: Option<String>,
}

/// The mathematical form of the paths of a run.
pub struct PathsView {
    pub dataset: Option<Seq<char>>,
    pub chompy_ruleset: Option<Seq<char>>,
    pub other_ruleset: Option<Seq<char>>,
    pub ruleset_comparison_output: Option<Seq<char>>,
    pub explanation_output: Option<Seq<char>>,
    pub derivability_output: Option<Seq<char>>,
}

impl View for Paths {
    type V = PathsView;

    open spec fn view(&self) -> PathsView {
        PathsView {
            dataset: opt_str_view(self.dataset),
            chompy_ruleset: opt_str_view(self.chompy_ruleset),
            other_ruleset: opt_str_view(self.other_ruleset),
            ruleset_comparison_output: opt_str_view(self.ruleset_comparison_output),
            explanation_output: opt_str_view(self.explanation_output),
            derivability_output: opt_str_view(self.derivability_output),
        }
    }
}

/// The kinds of path.
#[derive(Clone, Copy, PartialEq, Eq, Debug, Structural)]
pub enum PathKind {
    Dataset,
    ChompyRuleset,
    OtherRuleset,
    RulesetComparisonOutput,
    ExplanationOutput,
    DerivabilityOutput,
}

/// Why a run cannot start.
#[derive(Clone, Copy, PartialEq, Eq, Debug, Structural)]
pub enum ConfigError {
    /// The mode name is not known.
    UnknownMode,
    /// The mode needs this path and it was not given.
    MissingPath(PathKind),
}

/// The mathematical form of a job.
pub enum JobView {
    Compare { dataset: Seq<char>, candidate: Option<Seq<char>>, output: Seq<char> },
    Derive { ruleset: Seq<char>, against: Seq<char>, output: Seq<char> },
    Explain { dataset: Seq<char>, ruleset: Seq<char>, output: Seq<char> },
    Verify { dataset: Seq<char> },
    Soundness { reference: Seq<char> },
}

/// A run with everything it needs.
#[derive(Debug)]
pub enum Job {
    /// Compare the rule set at `candidate` with the reference over the
    /// corpus at `dataset`. Without a candidate the reference is compared
    /// with its own restricted form.
    Compare { dataset: String, candidate: Option<String>, output: String },
    /// Derive the rule set at `ruleset` from the one at `against`, and the
    /// other way round.
    Derive { ruleset: String, against: String, output: String },
    /// Write out the proofs found over the corpus at `dataset` under the
    /// rule set at `ruleset`.
    Explain { dataset: String, ruleset: String, output: String },
    /// Ask the decision procedure about every expression at `dataset`.
    Verify { dataset: String },
    /// Check the rules of the rule set at `reference` for soundness.
    Soundness { reference: String },
}

impl View for Job {
    type V = JobView;

    open spec fn view(&self) -> JobView {
        match self {
            Job::Compare { dataset, candidate, output } => JobView::Compare {
                dataset: dataset@,
                candidate: opt_str_view(*candidate),
                output: output@,
            },
            Job::Derive { ruleset, against, output } => JobView::Derive {
                ruleset: ruleset@,
                against: against@,
                output: output@,
            },
            Job::Explain { dataset, ruleset, output } => JobView::Explain {
                dataset: dataset@,
                ruleset: ruleset@,
                output: output@,
            },
            Job::Verify { dataset } => JobView::Verify { dataset: dataset@ },
            Job::Soundness { reference } => JobView::Soundness { reference: reference@ },
        }
    }
}

/// The job for a mode and the paths given, or the first path that the mode
/// needs and that is missing.
pub open spec fn job_of(mode: EvalMode, paths: PathsView) -> Result<JobView, ConfigError> {
    match mode {
        EvalMode::CaviarComparison => match (paths.dataset, paths.ruleset_comparison_output) {
            (None, _) => Err(ConfigError::MissingPath(PathKind::Dataset)),
            (Some(_), None) => Err(ConfigError::MissingPath(PathKind::RulesetComparisonOutput)),
            (Some(dataset), Some(output)) => Ok(
                JobView::Compare { dataset, candidate: paths.chompy_ruleset, output },
            ),
        },
        EvalMode::DerivabilityComparison => match (
            paths.chompy_ruleset,
            paths.other_ruleset,
            paths.derivability_output,
        ) {
            (None, _, _) => Err(ConfigError::MissingPath(PathKind::ChompyRuleset)),
            (Some(_), None, _) => Err(ConfigError::MissingPath(PathKind::OtherRuleset)),
            (Some(_), Some(_), None) => Err(ConfigError::MissingPath(PathKind::DerivabilityOutput)),
            (Some(ruleset), Some(against), Some(output)) => Ok(
                JobView::Derive { ruleset, against, output },
            ),
        },
        EvalMode::Eggsplain => match (
            paths.dataset,
            paths.chompy_ruleset,
            paths.explanation_output,
        ) {
            (None, _, _) => Err(ConfigError::MissingPath(PathKind::Dataset)),
            (Some(_), None, _) => Err(ConfigError::MissingPath(PathKind::ChompyRuleset)),
            (Some(_), Some(_), None) => Err(ConfigError::MissingPath(PathKind::ExplanationOutput)),
            (Some(dataset), Some(ruleset), Some(output)) => Ok(
                JobView::Explain { dataset, ruleset, output },
            ),
        },
        EvalMode::Verify => match paths.dataset {
            None => Err(ConfigError::MissingPath(PathKind::Dataset)),
            Some(dataset) => Ok(JobView::Verify { dataset }),
        },
        EvalMode::Soundness => match paths.other_ruleset {
            None => Err(ConfigError::MissingPath(PathKind::OtherRuleset)),
            Some(reference) => Ok(JobView::Soundness { reference }),
        },
    }
}

/// The job for a mode name and the paths given.
pub open spec fn plan_of(mode_name: Seq<char>, paths: PathsView) -> Result<JobView, ConfigError> {
    match mode_of(mode_name) {
        None => Err(ConfigError::UnknownMode),
        Some(mode) => job_of(mode, paths),
    }
}

/// Decides what a run has to do, before any file is read. An unknown mode
/// name is reported before a missing path.
pub fn plan_job(mode_name: &str, paths: Paths) -> (r: Result<Job, ConfigError>)
    ensures
        match r {
            Ok(job) => plan_of(mode_name@, paths@) == Ok::<JobView, ConfigError>(job@),
            Err(e) => plan_of(mode_name@, paths@) == Err::<JobView, ConfigError>(e),
        },
{
    let mode = match EvalMode::from(mode_name) {
        None => {
            return Err(ConfigError::UnknownMode);
        },
        Some(mode) => mode,
    };
    let ghost view = paths@;
    let Paths {
        dataset,
        chompy_ruleset,
        other_ruleset,
        ruleset_comparison_output,
        explanation_output,
        derivability_output,
    } = paths;
    match mode {
        EvalMode::CaviarComparison => {
            let dataset = match dataset {
                None => {
                    return Err(ConfigError::MissingPath(PathKind::Dataset));
                },
                Some(p) => p,
            };
            let output = match ruleset_comparison_output {
                None => {
                    return Err(ConfigError::MissingPath(PathKind::RulesetComparisonOutput));
                },
                Some(p) => p,
            };
            Ok(Job::Compare { dataset, candidate: chompy_ruleset, output })
        },
        EvalMode::DerivabilityComparison => {
            let ruleset = match chompy_ruleset {
                None => {
                    return Err(ConfigError::MissingPath(PathKind::ChompyRuleset));
                },
                Some(p) => p,
            };
            let against = match other_ruleset {
                None => {
                    return Err(ConfigError::MissingPath(PathKind::OtherRuleset));
                },
                Some(p) => p,
            };
            let output = match derivability_output {
                None => {
                    return Err(ConfigError::MissingPath(PathKind::DerivabilityOutput));
                },
                Some(p) => p,
            };
            Ok(Job::Derive { ruleset, against, output })
        },
        EvalMode::Eggsplain => {
            let dataset = match dataset {
                None => {
                    return Err(ConfigError::MissingPath(PathKind::Dataset));
                },
                Some(p) => p,
            };
            let ruleset = match chompy_ruleset {
                None => {
                    return Err(ConfigError::MissingPath(PathKind::ChompyRuleset));
                },
                Some(p) => p,
            };
            let output = match explanation_output {
                None => {
                    return Err(ConfigError::MissingPath(PathKind::ExplanationOutput));
                },
                Some(p) => p,
            };
            Ok(Job::Explain { dataset, ruleset, output })
        },
        EvalMode::Verify => {
            match dataset {
                None => Err(ConfigError::MissingPath(PathKind::Dataset)),
                Some(dataset) => Ok(Job::Verify { dataset }),
            }
        },
        EvalMode::Soundness => {
            match other_ruleset {
                None => Err(ConfigError::MissingPath(PathKind::OtherRuleset)),
                Some(reference) => Ok(Job::Soundness { reference }),
            }
        },
    }
}

} // verus!
