//! Side conditions of rules, and the implication lemmas between them.
//!
//! The conditions of two rule sets are collected without repetition. An
//! outside prover proposes lemmas between conditions, each as a text
//! `<premise> implies <conclusion>`. A proposal becomes a lemma, that is a
//! rule from premise to conclusion without a condition, only where the
//! conclusion uses no variable that the premise does not bind: a lemma with
//! a free conclusion variable would be unsound as an axiom. A rejected
//! proposal is handed back with both variable lists.

use vstd::prelude::*;
use vstd::string::*;
use crate::filter::variable_scope_check;
use crate::rule::{rules_view, Rule, RuleView};
use crate::ruleset::{
    add_all, is_ruleset, lemma_add_all, Provenance, ProvenanceView, Ruleset,
};
use crate::term::{
    distinct_variables, lemma_parse_term_wf, lemma_valid_suffix, parse_term, parse_term_at,
    terms_view, lemma_terms_view, ParseError, Term, TermView,
};
use crate::text::{strs_view, tokenize, tokens_of, toks_view, Tok, Token};

verus! {

/// The conditions with `c` at their end, unless `c` is among them already.
pub open spec fn add_condition(cs: Seq<TermView>, c: TermView) -> Seq<TermView> {
    if cs.contains(c) {
        cs
    } else {
        cs.push(c)
    }
}

/// The conditions `cs` and then those of the rules `rs`, each once, in the
/// order in which they first occur.
pub open spec fn collect_from(cs: Seq<TermView>, rs: Seq<RuleView>) -> Seq<TermView>
    decreases rs.len(),
{
    if rs.len() == 0 {
        cs
    } else {
        let before = collect_from(cs, rs.drop_last());
        match rs.last().cond {
            Some(c) => add_condition(before, c),
            None => before,
        }
    }
}

/// The distinct conditions of two rule sets.
pub open spec fn collect_conditions(a: Seq<RuleView>, b: Seq<RuleView>) -> Seq<TermView> {
    collect_from(collect_from(Seq::empty(), a), b)
}

/// Whether some rule of `rs` has the condition `c`.
pub open spec fn has_condition(rs: Seq<RuleView>, c: TermView) -> bool {
    exists|i: int| 0 <= i < rs.len() && (#[trigger] rs[i]).cond == Some(c)
}

/// Collecting keeps what was there, adds exactly the conditions of the
/// rules, and repeats nothing.
pub proof fn lemma_collect_from(cs: Seq<TermView>, rs: Seq<RuleView>)
    requires
        cs.no_duplicates(),
    ensures
        collect_from(cs, rs).no_duplicates(),
        forall|c: TermView|
            #[trigger] collect_from(cs, rs).contains(c) <==> cs.contains(c) || has_condition(rs, c),
    decreases rs.len(),
{
    let out = collect_from(cs, rs);
    if rs.len() == 0 {
    } else {
        let front = rs.drop_last();
        let before = collect_from(cs, front);
        lemma_collect_from(cs, front);
        assert forall|c: TermView| out.contains(c) <==> cs.contains(c) || has_condition(
            rs,
            c,
        ) by {
            if has_condition(rs, c) {
                let i = choose|i: int| 0 <= i < rs.len() && (#[trigger] rs[i]).cond == Some(c);
                if i < front.len() {
                    assert(front[i].cond == Some(c));
                    assert(has_condition(front, c));
                }
            }
            if has_condition(front, c) {
                let i = choose|i: int|
                    0 <= i < front.len() && (#[trigger] front[i]).cond == Some(c);
                assert(rs[i].cond == Some(c));
            }
            match rs.last().cond {
                Some(last) => {
                    assert(rs[rs.len() - 1].cond == Some(last));
                    if !before.contains(last) {
                        assert(out[before.len() as int] == last);
                        if before.contains(c) {
                            let k = choose|k: int| 0 <= k < before.len() && before[k] == c;
                            assert(out[k] == c);
                        }
                    }
                },
                None => {},
            }
        }
    }
}

/// The conditions collected from two rule sets are exactly the conditions
/// that occur in either, each once.
pub proof fn lemma_collect_conditions(a: Seq<RuleView>, b: Seq<RuleView>)
    ensures
        collect_conditions(a, b).no_duplicates(),
        forall|c: TermView|
            #[trigger] collect_conditions(a, b).contains(c) <==> has_condition(a, c)
                || has_condition(b, c),
{
    lemma_collect_from(Seq::empty(), a);
    lemma_collect_from(collect_from(Seq::empty(), a), b);
}

/// The conditions collected from two rule sets do not depend, as a set, on
/// the order in which the rule sets are given.
pub proof fn lemma_collect_symmetric(a: Seq<RuleView>, b: Seq<RuleView>)
    ensures
        collect_conditions(a, b).to_set() == collect_conditions(b, a).to_set(),
{
    lemma_collect_conditions(a, b);
    lemma_collect_conditions(b, a);
    let ab = collect_conditions(a, b);
    let ba = collect_conditions(b, a);
    assert forall|c: TermView| ab.to_set().contains(c) <==> ba.to_set().contains(c) by {
        assert(ab.to_set().contains(c) <==> ab.contains(c));
        assert(ba.to_set().contains(c) <==> ba.contains(c));
    }
    assert(ab.to_set() =~= ba.to_set());
}

/// Whether `t` is among `terms`.
fn holds_term(terms: &Vec<Term>, t: &Term) -> (b: bool)
    ensures
        b == terms_view(terms@).contains(t@),
{
    proof {
        lemma_terms_view(terms@);
    }
    let mut i: usize = 0;
    while i < terms.len()
        invariant
            i <= terms.len(),
            terms_view(terms@).len() == terms.len(),
            forall|k: int| 0 <= k < terms.len() ==> terms_view(terms@)[k] == terms@[k]@,
            forall|k: int| 0 <= k < i ==> terms_view(terms@)[k] != t@,
        decreases terms.len() - i,
    {
        if terms[i].same(t) {
            assert(terms_view(terms@)[i as int] == t@);
            return true;
        }
        i += 1;
    }
    false
}

/// Adds the conditions of `rules` to `found`.
fn collect_into(found: &mut Vec<Term>, rules: &Ruleset)
    ensures
        terms_view(final(found)@) == collect_from(terms_view(old(found)@), rules@),
{
    let ghost start = terms_view(found@);
    let n = rules.len();
    let mut i: usize = 0;
    assert(rules@.take(0) =~= Seq::<RuleView>::empty());
    while i < n
        invariant
            i <= n,
            n == rules@.len(),
            terms_view(found@) == collect_from(start, rules@.take(i as int)),
        decreases n - i,
    {
        proof {
            let done = rules@.take(i + 1);
            assert(done.drop_last() =~= rules@.take(i as int));
            assert(done.last() == rules@[i as int]);
        }
        match rules.rules()[i].cond() {
            Some(c) => {
                if !holds_term(found, c) {
                    let ghost before = found@;
                    found.push(c.clone());
                    proof {
                        lemma_terms_view(before);
                        lemma_terms_view(found@);
                        assert(terms_view(found@) =~= terms_view(before).push(c@));
                    }
                }
            },
            None => {},
        }
        i += 1;
    }
    assert(rules@.take(i as int) =~= rules@);
}

/// The distinct conditions of two rule sets, in the order in which they
/// first occur.
pub fn collect(a: &Ruleset, b: &Ruleset) -> (found: Vec<Term>)
    ensures
        terms_view(found@) == collect_conditions(a@, b@),
        terms_view(found@).no_duplicates(),
        forall|c: TermView|
            #[trigger] terms_view(found@).contains(c) <==> has_condition(a@, c) || has_condition(
                b@,
                c,
            ),
{
    let mut found: Vec<Term> = Vec::new();
    proof {
        lemma_terms_view(found@);
        assert(terms_view(found@) =~= Seq::<TermView>::empty());
    }
    collect_into(&mut found, a);
    collect_into(&mut found, b);
    proof {
        lemma_collect_conditions(a@, b@);
    }
    found
}

/// The canonical texts of terms, in order.
pub fn render_all(terms: &Vec<Term>) -> (texts: Vec<String>)
    ensures
        strs_view(texts@) == terms_view(terms@).map_values(|t: TermView| t.text()),
{
    proof {
        lemma_terms_view(terms@);
    }
    let mut texts: Vec<String> = Vec::new();
    let mut i: usize = 0;
    while i < terms.len()
        invariant
            i <= terms.len(),
            texts.len() == i,
            terms_view(terms@).len() == terms.len(),
            forall|k: int| 0 <= k < terms.len() ==> terms_view(terms@)[k] == terms@[k]@,
            forall|k: int| 0 <= k < i ==> (#[trigger] texts@[k])@ == terms@[k]@.text(),
        decreases terms.len() - i,
    {
        texts.push(terms[i].render());
        i += 1;
    }
    assert(strs_view(texts@) =~= terms_view(terms@).map_values(|t: TermView| t.text()));
    texts
}

/// The word between the premise and the conclusion of a proposed lemma.
pub open spec fn implies_word() -> Seq<char> {
    seq!['i', 'm', 'p', 'l', 'i', 'e', 's']
}

/// Reads the tokens of a proposed lemma: a term, the word `implies`, a
/// term, and nothing more.
pub open spec fn parse_implication_tokens(toks: Seq<Tok>) -> Result<RuleView, ParseError> {
    match parse_term(toks) {
        None => Err(ParseError::MalformedTerm),
        Some((premise, after)) => if after.len() == 0 || after[0] != Tok::Atom(implies_word()) {
            Err(ParseError::MissingArrow)
        } else {
            match parse_term(after.drop_first()) {
                None => Err(ParseError::MalformedTerm),
                Some((conclusion, rest)) => if rest.len() == 0 {
                    Ok(RuleView { lhs: premise, rhs: conclusion, cond: None })
                } else {
                    Err(ParseError::TrailingInput)
                },
            }
        },
    }
}

/// Reads the text of a proposed lemma.
pub open spec fn parse_implication(s: Seq<char>) -> Result<RuleView, ParseError> {
    parse_implication_tokens(tokens_of(s))
}

/// Reads the text of a proposed lemma as the rule from its premise to its
/// conclusion.
pub fn read_implication(text: &str) -> (r: Result<Rule, ParseError>)
    ensures
        match r {
            Ok(rule) => parse_implication(text@) == Ok::<RuleView, ParseError>(rule@) && rule@.wf(),
            Err(e) => parse_implication(text@) == Err::<RuleView, ParseError>(e),
        },
{
    let toks = tokenize(text);
    let ghost all = toks_view(toks@);
    proof {
        reveal_strlit("implies");
        assert("implies"@ =~= implies_word());
        assert(all.skip(0) =~= all);
    }
    let (premise, word_at) = match parse_term_at(&toks, 0) {
        None => {
            return Err(ParseError::MalformedTerm);
        },
        Some(found) => found,
    };
    if word_at >= toks.len() {
        return Err(ParseError::MissingArrow);
    }
    let ghost after = all.skip(word_at as int);
    assert(after[0] == toks@[word_at as int]@);
    assert(after.drop_first() =~= all.skip(word_at + 1));
    let is_word = match &toks[word_at] {
        Token::Atom(a) => *a == String::from_str("implies"),
        _ => false,
    };
    if !is_word {
        return Err(ParseError::MissingArrow);
    }
    match parse_term_at(&toks, word_at + 1) {
        None => Err(ParseError::MalformedTerm),
        Some((conclusion, end_at)) => {
            if end_at != toks.len() {
                return Err(ParseError::TrailingInput);
            }
            Ok(Rule::new(premise, conclusion, None))
        },
    }
}

/// What became of one proposed lemma.
#[derive(Debug)]
pub enum LemmaCheck {
    /// The proposal is a lemma.
    Accepted(Rule),
    /// The conclusion has a variable that the premise does not bind. The
    /// variables of both sides come along, each once, in the order in which
    /// they first occur.
    Rejected { lemma: Rule, premise_vars: Vec<String>, conclusion_vars: Vec<String> },
    /// The text is not of the form `<premise> implies <conclusion>`.
    Malformed(ParseError),
}

/// The mathematical form of a `LemmaCheck`.
pub enum LemmaCheckView {
    Accepted(RuleView),
    Rejected { lemma: RuleView, premise_vars: Seq<Seq<char>>, conclusion_vars: Seq<Seq<char>> },
    Malformed(ParseError),
}

impl View for LemmaCheck {
    type V = LemmaCheckView;

    open spec fn view(&self) -> LemmaCheckView {
        match self {
            LemmaCheck::Accepted(r) => LemmaCheckView::Accepted(r@),
            LemmaCheck::Rejected { lemma, premise_vars, conclusion_vars } => {
                LemmaCheckView::Rejected {
                    lemma: lemma@,
                    premise_vars: strs_view(premise_vars@),
                    conclusion_vars: strs_view(conclusion_vars@),
                }
            },
            LemmaCheck::Malformed(e) => LemmaCheckView::Malformed(*e),
        }
    }
}

/// What becomes of the proposed lemma with the given text.
pub open spec fn check_of(text: Seq<char>) -> LemmaCheckView {
    match parse_implication(text) {
        Err(e) => LemmaCheckView::Malformed(e),
        Ok(r) => if r.well_scoped() {
            LemmaCheckView::Accepted(r)
        } else {
            LemmaCheckView::Rejected {
                lemma: r,
                premise_vars: distinct_variables(r.lhs.tokens()),
                conclusion_vars: distinct_variables(r.rhs.tokens()),
            }
        },
    }
}

/// The lemma of an accepted proposal, nothing for the others.
pub open spec fn accepted_lemma(text: Seq<char>) -> Seq<RuleView> {
    match check_of(text) {
        LemmaCheckView::Accepted(r) => seq![r],
        _ => Seq::empty(),
    }
}

/// The lemmas of the accepted proposals, each once, in order.
pub open spec fn accepted_lemmas(texts: Seq<Seq<char>>) -> Seq<RuleView>
    decreases texts.len(),
{
    if texts.len() == 0 {
        Seq::empty()
    } else {
        add_all(accepted_lemmas(texts.drop_last()), accepted_lemma(texts.last()))
    }
}

/// An accepted lemma is well formed, in scope, and has no condition.
pub proof fn lemma_accepted_lemma(text: Seq<char>)
    ensures
        forall|i: int|
            0 <= i < accepted_lemma(text).len() ==> {
                &&& (#[trigger] accepted_lemma(text)[i]).wf()
                &&& accepted_lemma(text)[i].well_scoped()
                &&& accepted_lemma(text)[i].cond is None
            },
{
    let toks = tokens_of(text);
    crate::text::lemma_tokens_valid(text);
    lemma_parse_term_wf(toks);
    if let Some((premise, after)) = parse_term(toks) {
        if after.len() > 0 {
            lemma_valid_suffix(after, 1);
            lemma_parse_term_wf(after.drop_first());
        }
    }
}

/// The accepted lemmas form a rule set of rules that are in scope and have
/// no condition.
pub proof fn lemma_accepted_lemmas(texts: Seq<Seq<char>>)
    ensures
        is_ruleset(accepted_lemmas(texts)),
        forall|i: int|
            0 <= i < accepted_lemmas(texts).len() ==> {
                &&& (#[trigger] accepted_lemmas(texts)[i]).well_scoped()
                &&& accepted_lemmas(texts)[i].cond is None
            },
    decreases texts.len(),
{
    if texts.len() > 0 {
        let before = accepted_lemmas(texts.drop_last());
        let more = accepted_lemma(texts.last());
        lemma_accepted_lemmas(texts.drop_last());
        lemma_accepted_lemma(texts.last());
        lemma_add_all(before, more);
        let out = accepted_lemmas(texts);
        assert forall|i: int| 0 <= i < out.len() implies {
            &&& (#[trigger] out[i]).well_scoped()
            &&& out[i].cond is None
        } by {
            assert(out.contains(out[i]));
            if before.contains(out[i]) {
                let k = choose|k: int| 0 <= k < before.len() && before[k] == out[i];
                assert(before[k].well_scoped());
            } else {
                let k = choose|k: int| 0 <= k < more.len() && more[k] == out[i];
                assert(more[k].well_scoped());
            }
        }
    }
}

/// Decides what becomes of one proposed lemma.
pub fn check_implication(text: &str) -> (c: LemmaCheck)
    ensures
        c@ == check_of(text@),
{
    match read_implication(text) {
        Err(e) => LemmaCheck::Malformed(e),
        Ok(lemma) => {
            if variable_scope_check(&lemma) {
                LemmaCheck::Accepted(lemma)
            } else {
                let premise_vars = lemma.lhs().variables();
                let conclusion_vars = lemma.rhs().variables();
                LemmaCheck::Rejected { lemma, premise_vars, conclusion_vars }
            }
        },
    }
}

/// The checks of all proposals and the rule set of the accepted lemmas.
#[derive(Debug)]
pub struct LemmaBuild {
    /// One check for each proposal, in the order of the proposals.
    pub checks: Vec<LemmaCheck>,
    /// The places of the accepted proposals, in rising order.
    pub accepted: Vec<usize>,
    /// The accepted lemmas, each once.
    pub lemmas: Ruleset,
}

/// Checks the proposed lemmas and gathers the accepted ones.
pub fn build_implication_lemmas(candidates: &Vec<String>) -> (built: LemmaBuild)
    ensures
        built.checks@.len() == candidates@.len(),
        forall|i: int|
            0 <= i < candidates@.len() ==> (#[trigger] built.checks@[i])@ == check_of(
                candidates@[i]@,
            ),
        forall|k: int, m: int|
            0 <= k < m < built.accepted@.len() ==> built.accepted@[k] < built.accepted@[m],
        forall|k: int|
            0 <= k < built.accepted@.len() ==> (#[trigger] built.accepted@[k]) < candidates@.len(),
        forall|i: int|
            0 <= i < candidates@.len() ==> (built.accepted@.contains(i as usize) <==> check_of(
                (#[trigger] candidates@[i])@,
            ) is Accepted),
        built.lemmas@ == accepted_lemmas(strs_view(candidates@)),
        built.lemmas.tag() == ProvenanceView::Filtered,
        is_ruleset(built.lemmas@),
        forall|i: int|
            0 <= i < built.lemmas@.len() ==> {
                &&& (#[trigger] built.lemmas@[i]).well_scoped()
                &&& built.lemmas@[i].cond is None
            },
{
    let ghost all = strs_view(candidates@);
    let mut checks: Vec<LemmaCheck> = Vec::new();
    let mut places: Vec<usize> = Vec::new();
    let mut accepted: Vec<Rule> = Vec::new();
    let mut i: usize = 0;
    assert(all.take(0) =~= Seq::<Seq<char>>::empty());
    while i < candidates.len()
        invariant
            i <= candidates.len(),
            all == strs_view(candidates@),
            checks.len() == i,
            forall|k: int| 0 <= k < i ==> (#[trigger] checks@[k])@ == check_of(candidates@[k]@),
            add_all(Seq::empty(), rules_view(accepted@)) == accepted_lemmas(all.take(i as int)),
            forall|k: int, m: int| 0 <= k < m < places@.len() ==> places@[k] < places@[m],
            forall|k: int| 0 <= k < places@.len() ==> (#[trigger] places@[k]) < i,
            forall|j: int|
                0 <= j < i ==> (places@.contains(j as usize) <==> check_of(
                    (#[trigger] candidates@[j])@,
                ) is Accepted),
        decreases candidates.len() - i,
    {
        let ghost before = rules_view(accepted@);
        proof {
            let done = all.take(i + 1);
            assert(done.drop_last() =~= all.take(i as int));
            assert(done.last() == candidates@[i as int]@);
        }
        let check = check_implication(candidates[i].as_str());
        let ghost old_places = places@;
        match &check {
            LemmaCheck::Accepted(r) => {
                places.push(i);
                proof {
                    assert(places@[old_places.len() as int] == i);
                    assert forall|j: int| 0 <= j < i + 1 implies (places@.contains(j as usize)
                        <==> check_of((#[trigger] candidates@[j])@) is Accepted) by {
                        if j < i {
                            if old_places.contains(j as usize) {
                                let k = choose|k: int|
                                    0 <= k < old_places.len() && old_places[k] == j as usize;
                                assert(places@[k] == j as usize);
                            }
                            if places@.contains(j as usize) {
                                let k = choose|k: int|
                                    0 <= k < places@.len() && places@[k] == j as usize;
                                assert(old_places[k] == j as usize);
                            }
                        }
                    }
                }
                accepted.push(r.clone());
                proof {
                    let now = rules_view(accepted@);
                    assert(now =~= before.push(r@));
                    assert(now.drop_last() =~= before);
                    let one = seq![r@];
                    assert(one.drop_last() =~= Seq::<RuleView>::empty());
                    assert(add_all(accepted_lemmas(all.take(i as int)), Seq::<RuleView>::empty())
                        == accepted_lemmas(all.take(i as int)));
                }
            },
            _ => {
                assert(add_all(accepted_lemmas(all.take(i as int)), Seq::<RuleView>::empty())
                    == accepted_lemmas(all.take(i as int)));
                assert(!places@.contains(i)) by {
                    if places@.contains(i) {
                        let k = choose|k: int| 0 <= k < places@.len() && places@[k] == i;
                        assert(places@[k] < i);
                    }
                }
            },
        }
        checks.push(check);
        i += 1;
    }
    proof {
        assert(all.take(i as int) =~= all);
        lemma_accepted_lemmas(all);
    }
    let lemmas = Ruleset::from_rules(accepted, Provenance::Filtered);
    LemmaBuild { checks, accepted: places, lemmas }
}

} // verus!
