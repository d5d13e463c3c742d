//! Soundness verdicts of an independent decision procedure, and what
//! follows from them for a rule set.
//!
//! The decision procedure answers for one rule at a time. `Invalid` says
//! that the rule is wrong; `Unknown` says only that the procedure could not
//! decide. The two are counted apart. A rule found invalid leaves the set
//! only where the caller chose the pruning policy; a rule with an unknown
//! verdict never does.

use vstd::prelude::*;
use crate::ruleset::{is_ruleset, pick, Provenance, ProvenanceView, Ruleset};

verus! {

/// The three-valued answer of the decision procedure.
#[derive(Clone, Copy, PartialEq, Eq, Debug, Structural)]
pub enum Verdict {
    Valid,
    Invalid,
    Unknown,
}

/// What a caller wants done with rules found invalid.
#[derive(Clone, Copy, PartialEq, Eq, Debug, Structural)]
pub enum InvalidPolicy {
    /// Count them and keep them.
    Flag,
    /// Count them and leave them out.
    Prune,
}

/// Whether a rule with verdict `v` stays under `policy`.
pub open spec fn stays(v: Verdict, policy: InvalidPolicy) -> bool {
    !(policy is Prune && v is Invalid)
}

/// For each verdict, whether its rule stays.
pub open spec fn keep_flags(verdicts: Seq<Verdict>, policy: InvalidPolicy) -> Seq<bool> {
    verdicts.map_values(|v: Verdict| stays(v, policy))
}

/// How often `v` occurs among the verdicts.
pub open spec fn count_of(verdicts: Seq<Verdict>, v: Verdict) -> nat
    decreases verdicts.len(),
{
    if verdicts.len() == 0 {
        0
    } else {
        count_of(verdicts.drop_last(), v) + if verdicts.last() == v {
            1nat
        } else {
            0nat
        }
    }
}

/// No verdict occurs more often than there are verdicts.
pub proof fn lemma_count_bound(verdicts: Seq<Verdict>, v: Verdict)
    ensures
        count_of(verdicts, v) <= verdicts.len(),
    decreases verdicts.len(),
{
    if verdicts.len() > 0 {
        lemma_count_bound(verdicts.drop_last(), v);
    }
}

/// The rules that stay, and how many rules got each verdict.
#[derive(Debug)]
pub struct SoundnessSummary {
    pub kept: Ruleset,
    pub valid: usize,
    pub invalid: usize,
    pub unknown: usize,
}

/// Counts the verdicts for the rules of `rules` and applies `policy`.
/// `None` where the verdicts are not as many as the rules.
pub fn soundness_check(rules: &Ruleset, verdicts: &Vec<Verdict>, policy: InvalidPolicy) -> (r:
    Option<SoundnessSummary>)
    ensures
        r is Some <==> verdicts@.len() == rules@.len(),
        r matches Some(s) ==> {
            &&& s.kept@ == pick(rules@, keep_flags(verdicts@, policy))
            &&& s.kept.tag() == ProvenanceView::Filtered
            &&& is_ruleset(s.kept@)
            &&& s.valid == count_of(verdicts@, Verdict::Valid)
            &&& s.invalid == count_of(verdicts@, Verdict::Invalid)
            &&& s.unknown == count_of(verdicts@, Verdict::Unknown)
            &&& policy is Flag ==> s.kept@ == rules@
        },
{
    if verdicts.len() != rules.len() {
        return None;
    }
    let mut flags: Vec<bool> = Vec::new();
    let mut valid: usize = 0;
    let mut invalid: usize = 0;
    let mut unknown: usize = 0;
    let mut i: usize = 0;
    assert(verdicts@.take(0) =~= Seq::<Verdict>::empty());
    while i < verdicts.len()
        invariant
            i <= verdicts.len(),
            flags.len() == i,
            forall|k: int| 0 <= k < i ==> flags@[k] == stays(verdicts@[k], policy),
            valid == count_of(verdicts@.take(i as int), Verdict::Valid),
            invalid == count_of(verdicts@.take(i as int), Verdict::Invalid),
            unknown == count_of(verdicts@.take(i as int), Verdict::Unknown),
        decreases verdicts.len() - i,
    {
        proof {
            let done = verdicts@.take(i + 1);
            assert(done.drop_last() =~= verdicts@.take(i as int));
            assert(done.last() == verdicts@[i as int]);
            lemma_count_bound(done, Verdict::Valid);
            lemma_count_bound(done, Verdict::Invalid);
            lemma_count_bound(done, Verdict::Unknown);
        }
        let keep = match (verdicts[i], policy) {
            (Verdict::Invalid, InvalidPolicy::Prune) => false,
            _ => true,
        };
        flags.push(keep);
        match verdicts[i] {
            Verdict::Valid => {
                valid += 1;
            },
            Verdict::Invalid => {
                invalid += 1;
            },
            Verdict::Unknown => {
                unknown += 1;
            },
        }
        i += 1;
    }
    proof {
        assert(verdicts@.take(i as int) =~= verdicts@);
        assert(flags@ =~= keep_flags(verdicts@, policy));
        if policy is Flag {
            crate::ruleset::lemma_pick_all(rules@, flags@);
        }
    }
    let kept = rules.select(&flags, Provenance::Filtered);
    Some(SoundnessSummary { kept, valid, invalid, unknown })
}

} // verus!
