//! Filters over rule lines, rules and rule sets.
//!
//! Three checks decide what may enter a comparison. The operator whitelist
//! looks at a line of text before it is parsed and rejects it when a
//! parenthesized sub-term starts with anything but an allowed operator. The
//! variable scope check rejects a rule whose right-hand side uses a variable
//! that its left-hand side does not bind. The soundness verdicts of an
//! independent decision procedure are counted, and rules found invalid leave
//! the set only where the caller asks for that.

use vstd::prelude::*;
use vstd::string::*;
use crate::rule::{lemma_rule_opens, parse_line, Rule, RuleView};
use crate::ruleset::{is_ruleset, pick, Provenance, ProvenanceView, Ruleset};
use crate::text::{
    all_contained, contains_string, strs_view, tokenize, tokens_of, toks_view, Tok, Token,
};

verus! {

/// Whether the token after place `i` is an atom from `allowed`.
pub open spec fn leads_allowed(toks: Seq<Tok>, i: int, allowed: Set<Seq<char>>) -> bool {
    i + 1 < toks.len() && (toks[i + 1] matches Tok::Atom(a) && allowed.contains(a))
}

/// Every parenthesized sub-term starts with an allowed operator.
pub open spec fn whitelisted(toks: Seq<Tok>, allowed: Set<Seq<char>>) -> bool {
    forall|i: int|
        0 <= i < toks.len() && (#[trigger] toks[i]) is Open ==> leads_allowed(toks, i, allowed)
}

/// Some parenthesized sub-term starts with the operator `op`.
pub open spec fn uses_operator(toks: Seq<Tok>, op: Seq<char>) -> bool {
    exists|i: int|
        0 <= i < toks.len() && (#[trigger] toks[i]) is Open && i + 1 < toks.len() && toks[i + 1]
            == Tok::Atom(op)
}

/// Whether a line of text passes the operator whitelist.
pub open spec fn line_whitelisted(line: Seq<char>, allowed: Set<Seq<char>>) -> bool {
    whitelisted(tokens_of(line), allowed)
}

/// Every operator that leads a parenthesized sub-term is allowed.
pub open spec fn only_allowed(toks: Seq<Tok>, allowed: Set<Seq<char>>) -> bool {
    forall|op: Seq<char>| uses_operator(toks, op) ==> allowed.contains(op)
}

/// The test that the whitelist filter puts to each line.
pub open spec fn passes(allowed: Set<Seq<char>>) -> spec_fn(Seq<char>) -> bool {
    |line: Seq<char>| line_whitelisted(line, allowed)
}

/// The lines that the whitelist filter retains, in order.
pub open spec fn retained(lines: Seq<Seq<char>>, allowed: Set<Seq<char>>) -> Seq<Seq<char>> {
    lines.filter(passes(allowed))
}

/// The operators of the integer and boolean expression domain.
pub open spec fn default_operators() -> Seq<Seq<char>> {
    seq![
        "abs"@,
        "<"@,
        "<="@,
        ">"@,
        ">="@,
        "=="@,
        "!="@,
        "->"@,
        "!"@,
        "-"@,
        "&&"@,
        "||"@,
        "^"@,
        "+"@,
        "*"@,
        "/"@,
        "%"@,
        "min"@,
        "max"@,
        "select"@,
        "istrue"@,
    ]
}

/// A line that uses an operator outside the whitelist does not pass, and a
/// line all of whose operators are allowed does.
pub proof fn lemma_whitelist(toks: Seq<Tok>, allowed: Set<Seq<char>>, op: Seq<char>)
    ensures
        uses_operator(toks, op) && !allowed.contains(op) ==> !whitelisted(toks, allowed),
        whitelisted(toks, allowed) && uses_operator(toks, op) ==> allowed.contains(op),
{
    if uses_operator(toks, op) {
        let i = choose|i: int|
            0 <= i < toks.len() && (#[trigger] toks[i]) is Open && i + 1 < toks.len() && toks[i
                + 1] == Tok::Atom(op);
        if whitelisted(toks, allowed) {
            assert(leads_allowed(toks, i, allowed));
        }
    }
}

/// A line that is a rule and uses only allowed operators passes the
/// whitelist.
pub proof fn lemma_rule_line_passes(line: Seq<char>, allowed: Set<Seq<char>>)
    requires
        parse_line(line) is Ok,
        only_allowed(tokens_of(line), allowed),
    ensures
        line_whitelisted(line, allowed),
{
    let toks = tokens_of(line);
    lemma_rule_opens(toks);
    assert forall|i: int| 0 <= i < toks.len() && (#[trigger] toks[i]) is Open implies leads_allowed(
        toks,
        i,
        allowed,
    ) by {
        let op = toks[i + 1]->Atom_0;
        assert(toks[i + 1] == Tok::Atom(op));
        assert(uses_operator(toks, op));
    }
}

/// The whitelist filter retains a line exactly where the line passes. So a
/// rule line that uses only allowed operators is always retained, and a
/// line that uses an operator outside the whitelist is always dropped.
pub proof fn lemma_whitelist_filter(
    lines: Seq<Seq<char>>,
    allowed: Set<Seq<char>>,
    i: int,
    op: Seq<char>,
)
    requires
        0 <= i < lines.len(),
    ensures
        retained(lines, allowed).contains(lines[i]) <==> line_whitelisted(lines[i], allowed),
        parse_line(lines[i]) is Ok && only_allowed(tokens_of(lines[i]), allowed) ==> retained(
            lines,
            allowed,
        ).contains(lines[i]),
        uses_operator(tokens_of(lines[i]), op) && !allowed.contains(op) ==> !retained(
            lines,
            allowed,
        ).contains(lines[i]),
{
    let kept = retained(lines, allowed);
    if line_whitelisted(lines[i], allowed) {
        lines.lemma_filter_contains(passes(allowed), i);
    }
    if kept.contains(lines[i]) {
        let k = choose|k: int| 0 <= k < kept.len() && kept[k] == lines[i];
        lines.lemma_filter_pred(passes(allowed), k);
    }
    if parse_line(lines[i]) is Ok && only_allowed(tokens_of(lines[i]), allowed) {
        lemma_rule_line_passes(lines[i], allowed);
    }
    lemma_whitelist(tokens_of(lines[i]), allowed, op);
}

/// The operator whitelist of the integer and boolean expression domain.
pub fn default_whitelist() -> (ops: Vec<String>)
    ensures
        strs_view(ops@) == default_operators(),
{
    let mut ops: Vec<String> = Vec::new();
    ops.push(String::from_str("abs"));
    ops.push(String::from_str("<"));
    ops.push(String::from_str("<="));
    ops.push(String::from_str(">"));
    ops.push(String::from_str(">="));
    ops.push(String::from_str("=="));
    ops.push(String::from_str("!="));
    ops.push(String::from_str("->"));
    ops.push(String::from_str("!"));
    ops.push(String::from_str("-"));
    ops.push(String::from_str("&&"));
    ops.push(String::from_str("||"));
    ops.push(String::from_str("^"));
    ops.push(String::from_str("+"));
    ops.push(String::from_str("*"));
    ops.push(String::from_str("/"));
    ops.push(String::from_str("%"));
    ops.push(String::from_str("min"));
    ops.push(String::from_str("max"));
    ops.push(String::from_str("select"));
    ops.push(String::from_str("istrue"));
    assert(strs_view(ops@) =~= default_operators());
    ops
}

/// Whether every parenthesized sub-term of `line` starts with one of
/// `allowed_ops`. The line is looked at as text: it need not be a rule.
pub fn op_whitelist_check(line: &str, allowed_ops: &Vec<String>) -> (ok: bool)
    ensures
        ok == line_whitelisted(line@, strs_view(allowed_ops@).to_set()),
{
    let toks = tokenize(line);
    let ghost all = toks_view(toks@);
    let ghost allowed = strs_view(allowed_ops@).to_set();
    let mut i: usize = 0;
    while i < toks.len()
        invariant
            i <= toks.len(),
            all == toks_view(toks@),
            all == tokens_of(line@),
            allowed == strs_view(allowed_ops@).to_set(),
            forall|k: int|
                0 <= k < i && (#[trigger] all[k]) is Open ==> leads_allowed(all, k, allowed),
        decreases toks.len() - i,
    {
        assert(all[i as int] == toks@[i as int]@);
        if let Token::Open = &toks[i] {
            assert(all[i as int] is Open);
            if i + 1 >= toks.len() {
                assert(!leads_allowed(all, i as int, allowed));
                return false;
            }
            assert(all[i + 1] == toks@[i + 1]@);
            match &toks[i + 1] {
                Token::Atom(a) => {
                    if !contains_string(allowed_ops, a) {
                        assert(!leads_allowed(all, i as int, allowed));
                        return false;
                    }
                },
                _ => {
                    assert(!leads_allowed(all, i as int, allowed));
                    return false;
                },
            }
        }
        i += 1;
    }
    true
}

/// The lines that pass the operator whitelist, in order.
pub fn retain_whitelisted(lines: &Vec<String>, allowed_ops: &Vec<String>) -> (kept: Vec<String>)
    ensures
        strs_view(kept@) == retained(strs_view(lines@), strs_view(allowed_ops@).to_set()),
{
    let ghost all = strs_view(lines@);
    let ghost test = passes(strs_view(allowed_ops@).to_set());
    let mut kept: Vec<String> = Vec::new();
    let mut i: usize = 0;
    proof {
        assert(all.take(0) =~= Seq::<Seq<char>>::empty());
        assert(all.take(0).filter(test) =~= Seq::<Seq<char>>::empty()) by {
            reveal(Seq::filter);
        }
    }
    while i < lines.len()
        invariant
            i <= lines.len(),
            all == strs_view(lines@),
            test == passes(strs_view(allowed_ops@).to_set()),
            strs_view(kept@) == all.take(i as int).filter(test),
        decreases lines.len() - i,
    {
        let ghost before = strs_view(kept@);
        proof {
            assert(all.take(i + 1) =~= all.take(i as int).push(all[i as int]));
            all.take(i as int).lemma_filter_push(all[i as int], test);
            assert(all[i as int] == lines@[i as int]@);
        }
        if op_whitelist_check(lines[i].as_str(), allowed_ops) {
            kept.push(lines[i].clone());
            assert(strs_view(kept@) =~= before.push(all[i as int]));
        }
        i += 1;
    }
    assert(all.take(i as int) =~= all);
    kept
}

/// Whether the right-hand side of `rule` uses only variables that its
/// left-hand side binds.
pub fn variable_scope_check(rule: &Rule) -> (ok: bool)
    ensures
        ok == rule@.well_scoped(),
{
    let bound = rule.lhs().variables();
    let used = rule.rhs().variables();
    all_contained(&used, &bound)
}

/// The rules of `rules` whose variables are in scope, as a new rule set.
pub fn retain_scoped(rules: &Ruleset) -> (kept: Ruleset)
    ensures
        kept@ == rules@.filter(|r: RuleView| r.well_scoped()),
        kept.tag() == ProvenanceView::Filtered,
        is_ruleset(kept@),
{
    let ghost scoped = |r: RuleView| r.well_scoped();
    let mut flags: Vec<bool> = Vec::new();
    let n = rules.len();
    let mut i: usize = 0;
    proof {
        assert(rules@.take(0) =~= Seq::<RuleView>::empty());
        assert(rules@.take(0).filter(scoped) =~= Seq::<RuleView>::empty()) by {
            reveal(Seq::filter);
        }
    }
    while i < n
        invariant
            i <= n,
            n == rules@.len(),
            flags.len() == i,
            scoped == |r: RuleView| r.well_scoped(),
            pick(rules@.take(i as int), flags@) == rules@.take(i as int).filter(scoped),
        decreases n - i,
    {
        let ok = variable_scope_check(&rules.rules()[i]);
        let ghost old_flags = flags@;
        flags.push(ok);
        proof {
            let done = rules@.take(i + 1);
            assert(done.drop_last() =~= rules@.take(i as int));
            assert(flags@.drop_last() =~= old_flags);
            assert(done =~= rules@.take(i as int).push(rules@[i as int]));
            rules@.take(i as int).lemma_filter_push(rules@[i as int], scoped);
        }
        i += 1;
    }
    assert(rules@.take(i as int) =~= rules@);
    rules.select(&flags, Provenance::Filtered)
}

} // verus!
