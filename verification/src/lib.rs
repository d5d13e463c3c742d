//! Evaluation and comparison of term-rewrite rule sets.
//!
//! Given a reference rule set and a candidate rule set for an expression
//! simplifier, the library reads both into a structured form, keeps out
//! what breaks the scoping and operator-domain invariants, and says what a
//! bounded prover and an independent decision procedure are to be asked and
//! what follows from their answers: which rules of one set are derivable
//! from the other, and how the two sets fare on a corpus of expressions.
//! The prover and the decision procedure themselves are not part of the
//! library; their answers come in as plain values.
//!
//! The modules, from the text upwards:
//!
//! - [`text`]: characters, tokens, and the canonical spacing of tokens;
//! - [`term`]: terms in prefix notation, read from text and written back;
//! - [`rule`]: rewrite rules, their lines of text and their names;
//! - [`ruleset`]: ordered sets of distinct rules, read line by line;
//! - [`filter`]: the operator whitelist and the variable scope check;
//! - [`soundness`]: verdicts on rules and the policy for invalid ones;
//! - [`conditions`]: side conditions and the implication lemmas between
//!   them;
//! - [`derivability`]: the plan of a derivation and the sorting of rules by
//!   the prover's answers;
//! - [`compare`]: the records of a comparison over a corpus;
//! - [`report`]: the documents that a run hands out;
//! - [`config`]: what a run is asked to do.

pub mod compare;
pub mod conditions;
pub mod config;
pub mod derivability;
pub mod filter;
pub mod report;
pub mod rule;
pub mod ruleset;
pub mod soundness;
pub mod term;
pub mod text;
