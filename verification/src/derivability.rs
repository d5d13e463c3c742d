//! Derivability of one rule set from another.
//!
//! Every rule of a rule set is checked against the rules of another set
//! together with auxiliary lemmas. The check itself is the work of an
//! outside prover; this module says what the prover is asked and what
//! follows from its answers. A rule counts as derivable only where both of
//! its sides were shown equal to a common normal form: an answer for one
//! side alone is not enough, and an answer that ran out of its budget is no
//! proof. Against an empty rule set nothing is asked and nothing is
//! derivable.

use vstd::prelude::*;
use crate::rule::{opt_term_view, Rule, RuleView};
use crate::ruleset::{
    is_ruleset, lemma_pick, lemma_pick_all, names_of, pick, Provenance, ProvenanceView, Ruleset,
};
use crate::term::{Term, TermView};
use crate::text::strs_view;

verus! {

/// The resources that one check may use.
#[derive(Clone, Copy, PartialEq, Eq, Debug, Structural)]
pub struct Limits {
    /// The largest number of nodes in the prover's graph.
    pub max_nodes: usize,
    /// The largest number of rewriting rounds.
    pub max_iterations: usize,
    /// The time budget, in milliseconds.
    pub time_budget_ms: u64,
}

/// How an attempt to prove something ended.
#[derive(Clone, Copy, PartialEq, Eq, Debug, Structural)]
pub enum ProofStatus {
    /// A proof was found.
    Proved,
    /// The claim was refuted.
    Disproved,
    /// Neither, the budget included.
    Unknown,
}

/// The answers for the two sides of one rule.
#[derive(Clone, Copy, PartialEq, Eq, Debug, Structural)]
pub struct BothSides {
    /// Whether the left-hand side was brought to the common normal form.
    pub lhs: ProofStatus,
    /// Whether the right-hand side was.
    pub rhs: ProofStatus,
}

impl BothSides {
    /// Both sides were proved.
    pub open spec fn derivable(self) -> bool {
        self.lhs is Proved && self.rhs is Proved
    }

    /// Whether both sides were proved.
    pub fn is_derivable(&self) -> (b: bool)
        ensures
            b == self.derivable(),
    {
        match (self.lhs, self.rhs) {
            (ProofStatus::Proved, ProofStatus::Proved) => true,
            _ => false,
        }
    }
}

/// The mathematical form of a check.
pub struct CheckView {
    pub lhs: TermView,
    pub rhs: TermView,
    pub assumption: Option<TermView>,
}

/// One question for the prover: are `lhs` and `rhs` equal, under
/// `assumption` where there is one.
#[derive(Debug)]
pub struct Check {
    pub lhs: Term,
    pub rhs: Term,
    pub assumption: Option<Term>,
}

impl View for Check {
    type V = CheckView;

    open spec fn view(&self) -> CheckView {
        CheckView { lhs: self.lhs@, rhs: self.rhs@, assumption: opt_term_view(self.assumption) }
    }
}

impl CheckView {
    /// The check written as a rule: from `lhs` to `rhs`, under the
    /// assumption where there is one.
    pub open spec fn as_rule(self) -> RuleView {
        RuleView { lhs: self.lhs, rhs: self.rhs, cond: self.assumption }
    }
}

impl Check {
    /// The check written as a rule, for a prover that takes its questions
    /// in that form.
    pub fn as_rule(&self) -> (r: Rule)
        ensures
            r@ == self@.as_rule(),
    {
        let assumption = match &self.assumption {
            Some(c) => Some(c.clone()),
            None => None,
        };
        Rule::new(self.lhs.clone(), self.rhs.clone(), assumption)
    }
}

/// The checks of a vector, each taken by its view.
pub open spec fn checks_view(v: Seq<Check>) -> Seq<CheckView> {
    v.map_values(|c: Check| c@)
}

/// The mathematical form of a plan.
pub struct PlanView {
    pub axioms: Seq<Seq<char>>,
    pub lemmas: Seq<Seq<char>>,
    pub checks: Seq<CheckView>,
    pub limits: Limits,
}

/// What the prover is asked for one direction: one check for each rule
/// under test, and what holds for all of them.
#[derive(Debug)]
pub struct Plan {
    /// The names of the rules that the prover may rewrite with.
    pub axioms: Vec<String>,
    /// The names of the lemmas by which the prover may pass from an assumed
    /// condition to another. A lemma is an implication, not an equation.
    pub lemmas: Vec<String>,
    /// One check for each rule under test, in the order of the rule set.
    pub checks: Vec<Check>,
    /// The limits that hold for each check on its own.
    pub limits: Limits,
}

impl View for Plan {
    type V = PlanView;

    open spec fn view(&self) -> PlanView {
        PlanView {
            axioms: strs_view(self.axioms@),
            lemmas: strs_view(self.lemmas@),
            checks: checks_view(self.checks@),
            limits: self.limits,
        }
    }
}

/// Whether some lemma has the premise `c`.
pub open spec fn has_premise(aux: Seq<RuleView>, c: TermView) -> bool {
    exists|i: int| 0 <= i < aux.len() && (#[trigger] aux[i]).lhs == c
}

/// The condition under which a rule is checked: its own, where a lemma
/// starts from it; none otherwise.
pub open spec fn assumption_for(r: RuleView, aux: Seq<RuleView>) -> Option<TermView> {
    match r.cond {
        Some(c) => if has_premise(aux, c) {
            Some(c)
        } else {
            None
        },
        None => None,
    }
}

/// The check for one rule.
pub open spec fn check_for(r: RuleView, aux: Seq<RuleView>) -> CheckView {
    CheckView { lhs: r.lhs, rhs: r.rhs, assumption: assumption_for(r, aux) }
}

/// The plan for checking `ruleset` against `against` and the lemmas `aux`.
pub open spec fn plan_of(
    ruleset: Seq<RuleView>,
    against: Seq<RuleView>,
    aux: Seq<RuleView>,
    limits: Limits,
) -> PlanView {
    if against.len() == 0 {
        PlanView { axioms: Seq::empty(), lemmas: Seq::empty(), checks: Seq::empty(), limits }
    } else {
        PlanView {
            axioms: names_of(against),
            lemmas: names_of(aux),
            checks: ruleset.map_values(|r: RuleView| check_for(r, aux)),
            limits,
        }
    }
}

/// The mathematical form of a derivability result.
pub struct ResultView {
    pub derivable: Seq<RuleView>,
    pub not_derivable: Seq<RuleView>,
}

/// The rules of a rule set that are derivable from another, and those that
/// are not, each in the order of the rule set.
#[derive(Debug)]
pub struct DerivabilityResult {
    pub derivable: Ruleset,
    pub not_derivable: Ruleset,
}

impl View for DerivabilityResult {
    type V = ResultView;

    open spec fn view(&self) -> ResultView {
        ResultView { derivable: self.derivable@, not_derivable: self.not_derivable@ }
    }
}

/// For each answer, whether it makes its rule derivable.
pub open spec fn flags_of(outcomes: Seq<BothSides>) -> Seq<bool> {
    outcomes.map_values(|o: BothSides| o.derivable())
}

/// For each answer, whether it leaves its rule not derivable.
pub open spec fn misses_of(outcomes: Seq<BothSides>) -> Seq<bool> {
    outcomes.map_values(|o: BothSides| !o.derivable())
}

/// The number of answers that a derivation needs: none against an empty
/// rule set, one for each rule otherwise.
pub open spec fn answers_needed(ruleset: Seq<RuleView>, against: Seq<RuleView>) -> nat {
    if against.len() == 0 {
        0
    } else {
        ruleset.len()
    }
}

/// The result that the answers give. `None` where they are not as many as
/// the derivation needs.
pub open spec fn derive_of(
    ruleset: Seq<RuleView>,
    against: Seq<RuleView>,
    outcomes: Seq<BothSides>,
) -> Option<ResultView> {
    if outcomes.len() != answers_needed(ruleset, against) {
        None
    } else if against.len() == 0 {
        Some(ResultView { derivable: Seq::empty(), not_derivable: ruleset })
    } else {
        Some(
            ResultView {
                derivable: pick(ruleset, flags_of(outcomes)),
                not_derivable: pick(ruleset, misses_of(outcomes)),
            },
        )
    }
}

/// A prover as a function: its answer to a check, given the set of rules
/// that it may rewrite with and the set of lemmas.
pub type Prover = spec_fn(CheckView, Set<RuleView>, Set<RuleView>) -> BothSides;

/// The answers of a prover, one for each rule.
pub open spec fn answers(
    ruleset: Seq<RuleView>,
    against: Seq<RuleView>,
    aux: Seq<RuleView>,
    prover: Prover,
) -> Seq<BothSides> {
    if against.len() == 0 {
        Seq::empty()
    } else {
        ruleset.map_values(|r: RuleView| prover(check_for(r, aux), against.to_set(), aux.to_set()))
    }
}

/// The result of a derivation in which `prover` answers every check.
pub open spec fn derive_with(
    ruleset: Seq<RuleView>,
    against: Seq<RuleView>,
    aux: Seq<RuleView>,
    prover: Prover,
) -> ResultView {
    derive_of(ruleset, against, answers(ruleset, against, aux, prover))->Some_0
}

/// A prover that proves, without an assumption, every unconditional rule
/// that is among the rules it may rewrite with.
pub open spec fn proves_its_axioms(prover: Prover) -> bool {
    forall|c: CheckView, axioms: Set<RuleView>, lemmas: Set<RuleView>|
        c.assumption is None && axioms.contains(RuleView { lhs: c.lhs, rhs: c.rhs, cond: None })
            ==> (#[trigger] prover(c, axioms, lemmas)).derivable()
}

/// A prover that proves with more rules whatever it proves with fewer.
pub open spec fn monotone(prover: Prover) -> bool {
    forall|c: CheckView, fewer: Set<RuleView>, more: Set<RuleView>, lemmas: Set<RuleView>|
        fewer.subset_of(more) && (#[trigger] prover(c, fewer, lemmas)).derivable() ==> (
        #[trigger] prover(c, more, lemmas)).derivable()
}

/// Every rule is in exactly one of the two parts of a result, and each part
/// keeps the order of the rule set.
pub proof fn lemma_derive_partition(
    ruleset: Seq<RuleView>,
    against: Seq<RuleView>,
    outcomes: Seq<BothSides>,
)
    requires
        is_ruleset(ruleset),
        derive_of(ruleset, against, outcomes) is Some,
    ensures
        ({
            let r = derive_of(ruleset, against, outcomes)->Some_0;
            &&& is_ruleset(r.derivable)
            &&& is_ruleset(r.not_derivable)
            &&& forall|x: RuleView|
                ruleset.contains(x) <==> r.derivable.contains(x) || r.not_derivable.contains(x)
            &&& forall|x: RuleView| !(r.derivable.contains(x) && r.not_derivable.contains(x))
            &&& r.derivable.len() + r.not_derivable.len() == ruleset.len()
        }),
{
    let r = derive_of(ruleset, against, outcomes)->Some_0;
    if against.len() == 0 {
        assert(is_ruleset(Seq::<RuleView>::empty()));
    } else {
        let yes = flags_of(outcomes);
        let no = misses_of(outcomes);
        lemma_pick(ruleset, yes);
        lemma_pick(ruleset, no);
        lemma_pick_lengths(ruleset, outcomes);
        assert forall|x: RuleView| ruleset.contains(x) implies r.derivable.contains(x)
            || r.not_derivable.contains(x) by {
            let i = choose|i: int| 0 <= i < ruleset.len() && ruleset[i] == x;
            if yes[i] {
                assert(yes[i] && ruleset[i] == x);
            } else {
                assert(no[i] && ruleset[i] == x);
            }
        }
        assert forall|x: RuleView| !(r.derivable.contains(x) && r.not_derivable.contains(x)) by {
            if r.derivable.contains(x) && r.not_derivable.contains(x) {
                let i = choose|i: int| 0 <= i < ruleset.len() && yes[i] && #[trigger] ruleset[i] == x;
                let j = choose|j: int| 0 <= j < ruleset.len() && no[j] && #[trigger] ruleset[j] == x;
                assert(i == j);
            }
        }
    }
}

/// The two parts of a result have as many rules together as the rule set.
pub proof fn lemma_pick_lengths(ruleset: Seq<RuleView>, outcomes: Seq<BothSides>)
    requires
        outcomes.len() == ruleset.len(),
    ensures
        pick(ruleset, flags_of(outcomes)).len() + pick(ruleset, misses_of(outcomes)).len()
            == ruleset.len(),
    decreases ruleset.len(),
{
    if ruleset.len() > 0 {
        lemma_pick_lengths(ruleset.drop_last(), outcomes.drop_last());
        assert(flags_of(outcomes).drop_last() =~= flags_of(outcomes.drop_last()));
        assert(misses_of(outcomes).drop_last() =~= misses_of(outcomes.drop_last()));
    }
}

/// A prover that answers the checks of a plan one by one, each with the
/// rules and the lemmas that the plan names, gives as many answers as the
/// derivation needs, and the rules sorted by these answers are the result
/// of `derive_with`.
pub proof fn lemma_derive_with(
    ruleset: Seq<RuleView>,
    against: Seq<RuleView>,
    aux: Seq<RuleView>,
    limits: Limits,
    prover: Prover,
)
    ensures
        ({
            let plan = plan_of(ruleset, against, aux, limits);
            let given = answers(ruleset, against, aux, prover);
            &&& given.len() == plan.checks.len()
            &&& given.len() == answers_needed(ruleset, against)
            &&& forall|i: int|
                0 <= i < given.len() ==> (#[trigger] given[i]) == prover(
                    plan.checks[i],
                    against.to_set(),
                    aux.to_set(),
                )
            &&& derive_of(ruleset, against, given) == Some(
                derive_with(ruleset, against, aux, prover),
            )
        }),
{
}

/// Against an empty rule set no rule is derivable and every rule is not
/// derivable, whatever the lemmas and whatever the prover.
pub proof fn lemma_empty_against(ruleset: Seq<RuleView>, aux: Seq<RuleView>, prover: Prover)
    ensures
        derive_with(ruleset, Seq::empty(), aux, prover).derivable == Seq::<RuleView>::empty(),
        derive_with(ruleset, Seq::empty(), aux, prover).not_derivable == ruleset,
{
}

/// A nonempty set of unconditional rules is wholly derivable from itself,
/// without lemmas, by a prover that proves the rules it may use.
pub proof fn lemma_self_derivable(rules: Seq<RuleView>, prover: Prover)
    requires
        is_ruleset(rules),
        rules.len() > 0,
        forall|i: int| 0 <= i < rules.len() ==> (#[trigger] rules[i]).cond is None,
        proves_its_axioms(prover),
    ensures
        derive_with(rules, rules, Seq::empty(), prover).derivable == rules,
        derive_with(rules, rules, Seq::empty(), prover).not_derivable.len() == 0,
{
    let aux = Seq::<RuleView>::empty();
    let outcomes = answers(rules, rules, aux, prover);
    assert forall|i: int| 0 <= i < outcomes.len() implies (#[trigger] outcomes[i]).derivable() by {
        let r = rules[i];
        let c = check_for(r, aux);
        assert(r.cond is None);
        assert(rules.to_set().contains(r));
        assert(rules.to_set().contains(RuleView { lhs: c.lhs, rhs: c.rhs, cond: None }));
        assert(prover(c, rules.to_set(), aux.to_set()).derivable());
    }
    lemma_pick_all(rules, flags_of(outcomes));
    lemma_pick_all(rules, misses_of(outcomes));
}

/// With a monotone prover, whatever is derivable from a rule set is
/// derivable from every rule set that holds its rules.
pub proof fn lemma_derive_monotone(
    ruleset: Seq<RuleView>,
    fewer: Seq<RuleView>,
    more: Seq<RuleView>,
    aux: Seq<RuleView>,
    prover: Prover,
)
    requires
        fewer.to_set().subset_of(more.to_set()),
        monotone(prover),
    ensures
        derive_with(ruleset, fewer, aux, prover).derivable.to_set().subset_of(
            derive_with(ruleset, more, aux, prover).derivable.to_set(),
        ),
{
    let small = derive_with(ruleset, fewer, aux, prover).derivable;
    let large = derive_with(ruleset, more, aux, prover).derivable;
    if fewer.len() > 0 {
        assert(fewer.to_set().contains(fewer[0]));
        assert(more.contains(fewer[0]));
        let few_answers = answers(ruleset, fewer, aux, prover);
        let more_answers = answers(ruleset, more, aux, prover);
        lemma_pick(ruleset, flags_of(few_answers));
        lemma_pick(ruleset, flags_of(more_answers));
        assert forall|x: RuleView| small.to_set().contains(x) implies large.to_set().contains(
            x,
        ) by {
            let i = choose|i: int|
                0 <= i < ruleset.len() && flags_of(few_answers)[i] && #[trigger] ruleset[i] == x;
            let c = check_for(ruleset[i], aux);
            assert(prover(c, fewer.to_set(), aux.to_set()).derivable());
            assert(prover(c, more.to_set(), aux.to_set()).derivable());
            assert(flags_of(more_answers)[i] && ruleset[i] == x);
        }
    } else {
        assert(small =~= Seq::<RuleView>::empty());
    }
}

/// Whether some lemma of `aux` has the premise `c`.
fn premise_known(aux: &Ruleset, c: &Term) -> (b: bool)
    ensures
        b == has_premise(aux@, c@),
{
    let n = aux.len();
    let mut i: usize = 0;
    while i < n
        invariant
            i <= n,
            n == aux@.len(),
            forall|k: int| 0 <= k < i ==> (#[trigger] aux@[k]).lhs != c@,
        decreases n - i,
    {
        if aux.rules()[i].lhs().same(c) {
            assert(aux@[i as int].lhs == c@);
            return true;
        }
        i += 1;
    }
    false
}

/// The check for one rule.
pub fn check_rule(rule: &Rule, aux: &Ruleset) -> (c: Check)
    ensures
        c@ == check_for(rule@, aux@),
{
    let assumption = match rule.cond() {
        Some(c) => if premise_known(aux, c) {
            Some(c.clone())
        } else {
            None
        },
        None => None,
    };
    Check { lhs: rule.lhs().clone(), rhs: rule.rhs().clone(), assumption }
}

/// What the prover is asked in order to derive `ruleset` from `against` and
/// the lemmas `aux`, every check under the same `limits`.
pub fn plan(ruleset: &Ruleset, against: &Ruleset, aux: &Ruleset, limits: Limits) -> (p: Plan)
    ensures
        p@ == plan_of(ruleset@, against@, aux@, limits),
{
    if against.is_empty() {
        let p = Plan { axioms: Vec::new(), lemmas: Vec::new(), checks: Vec::new(), limits };
        assert(p@.axioms =~= Seq::<Seq<char>>::empty());
        assert(p@.lemmas =~= Seq::<Seq<char>>::empty());
        assert(p@.checks =~= Seq::<CheckView>::empty());
        return p;
    }
    let axioms = against.names();
    let lemmas = aux.names();
    let mut checks: Vec<Check> = Vec::new();
    let n = ruleset.len();
    let mut i: usize = 0;
    while i < n
        invariant
            i <= n,
            n == ruleset@.len(),
            checks.len() == i,
            forall|k: int| 0 <= k < i ==> (#[trigger] checks@[k])@ == check_for(ruleset@[k], aux@),
        decreases n - i,
    {
        checks.push(check_rule(&ruleset.rules()[i], aux));
        i += 1;
    }
    let p = Plan { axioms, lemmas, checks, limits };
    assert(p@.checks =~= ruleset@.map_values(|r: RuleView| check_for(r, aux@)));
    p
}

/// The plans for the two directions of a comparison.
#[derive(Debug)]
pub struct MutualPlan {
    /// Deriving the first rule set from the second.
    pub forwards: Plan,
    /// Deriving the second rule set from the first.
    pub backwards: Plan,
}

/// The plans for deriving `first` from `second` and `second` from `first`.
/// Both directions run under the same limits, whatever the sizes of the two
/// rule sets: only then can the two results be compared.
pub fn mutual_plan(first: &Ruleset, second: &Ruleset, aux: &Ruleset, limits: Limits) -> (m:
    MutualPlan)
    ensures
        m.forwards@ == plan_of(first@, second@, aux@, limits),
        m.backwards@ == plan_of(second@, first@, aux@, limits),
        m.forwards@.limits == m.backwards@.limits,
{
    MutualPlan {
        forwards: plan(first, second, aux, limits),
        backwards: plan(second, first, aux, limits),
    }
}

/// Sorts the rules of `ruleset` by the prover's answers into those that are
/// derivable from `against` and those that are not. `None` where the answers
/// are not as many as the plan has checks.
pub fn derive(ruleset: &Ruleset, against: &Ruleset, outcomes: &Vec<BothSides>) -> (r: Option<
    DerivabilityResult,
>)
    ensures
        match r {
            Some(res) => derive_of(ruleset@, against@, outcomes@) == Some(res@),
            None => derive_of(ruleset@, against@, outcomes@) is None,
        },
        against@.len() == 0 && outcomes@.len() == 0 ==> (r matches Some(res) && res@.derivable.len()
            == 0 && res@.not_derivable == ruleset@),
        r matches Some(res) ==> res.derivable.tag() == ProvenanceView::Filtered
            && res.not_derivable.tag() == ProvenanceView::Filtered,
{
    if against.is_empty() {
        if outcomes.len() != 0 {
            return None;
        }
        return Some(
            DerivabilityResult {
                derivable: Ruleset::empty(Provenance::Filtered),
                not_derivable: ruleset.retagged(Provenance::Filtered),
            },
        );
    }
    if outcomes.len() != ruleset.len() {
        return None;
    }
    let mut yes: Vec<bool> = Vec::new();
    let mut no: Vec<bool> = Vec::new();
    let mut i: usize = 0;
    while i < outcomes.len()
        invariant
            i <= outcomes.len(),
            yes.len() == i,
            no.len() == i,
            forall|k: int| 0 <= k < i ==> yes@[k] == outcomes@[k].derivable(),
            forall|k: int| 0 <= k < i ==> no@[k] == !outcomes@[k].derivable(),
        decreases outcomes.len() - i,
    {
        let d = outcomes[i].is_derivable();
        yes.push(d);
        no.push(!d);
        i += 1;
    }
    assert(yes@ =~= flags_of(outcomes@));
    assert(no@ =~= misses_of(outcomes@));
    Some(
        DerivabilityResult {
            derivable: ruleset.select(&yes, Provenance::Filtered),
            not_derivable: ruleset.select(&no, Provenance::Filtered),
        },
    )
}

} // verus!
