//! Rewrite rules and the text they are written in.
//!
//! A line of a rule set reads `<lhs> ==> <rhs>`, optionally followed by
//! `if <cond>`. With `<=>` in place of `==>` the line stands for two rules,
//! one in each direction, both under the same condition. A rule is always
//! one-directional; its name is its canonical text and identifies it.

use vstd::prelude::*;
use vstd::string::*;
use crate::term::{
    lemma_parse_term_opens, lemma_parse_term_rest, lemma_parse_term_tokens, lemma_parse_term_wf,
    lemma_tokens_valid_term, lemma_valid_concat, lemma_valid_suffix, opens_lead, parse_term,
    parse_term_at, ParseError, Term, TermView,
};
use crate::text::{
    lemma_tokens_of_render, render, render_tokens, tokenize, tokens_of, toks_valid, toks_view,
    valid_atom, Tok, Token,
};

verus! {

/// The arrow of a one-directional line.
pub open spec fn arrow() -> Seq<char> {
    seq!['=', '=', '>']
}

/// The arrow of a line that stands for both directions.
pub open spec fn both_ways() -> Seq<char> {
    seq!['<', '=', '>']
}

/// The word that introduces a condition.
pub open spec fn cond_word() -> Seq<char> {
    seq!['i', 'f']
}

/// The mathematical form of a rule.
pub struct RuleView {
    pub lhs: TermView,
    pub rhs: TermView,
    pub cond: Option<TermView>,
}

impl RuleView {
    /// Every term of the rule is well formed.
    pub open spec fn wf(self) -> bool {
        &&& self.lhs.wf()
        &&& self.rhs.wf()
        &&& self.cond matches Some(c) ==> c.wf()
    }

    /// The tokens of the condition suffix; none where there is no condition.
    pub open spec fn cond_tokens(self) -> Seq<Tok> {
        match self.cond {
            Some(c) => seq![Tok::Atom(cond_word())] + c.tokens(),
            None => Seq::empty(),
        }
    }

    /// The tokens of the rule as a one-directional line.
    pub open spec fn tokens(self) -> Seq<Tok> {
        self.lhs.tokens() + seq![Tok::Atom(arrow())] + self.rhs.tokens() + self.cond_tokens()
    }

    /// The name: the canonical text of the rule, with the condition suffix
    /// where there is a condition.
    pub open spec fn name(self) -> Seq<char> {
        render_tokens(self.tokens())
    }

    /// The rule read from right to left, under the same condition.
    pub open spec fn reversed(self) -> RuleView {
        RuleView { lhs: self.rhs, rhs: self.lhs, cond: self.cond }
    }

    /// The right-hand side uses no variable that the left-hand side does not
    /// bind.
    pub open spec fn well_scoped(self) -> bool {
        self.rhs.variables().subset_of(self.lhs.variables())
    }
}

/// The mathematical form of a parsed line.
pub enum LineView {
    Unidirectional(RuleView),
    Bidirectional(RuleView, RuleView),
}

/// Whether a token is one of the two arrows.
pub open spec fn is_arrow(t: Tok) -> bool {
    t == Tok::Atom(arrow()) || t == Tok::Atom(both_ways())
}

/// Reads what may follow the right-hand term: nothing, or `if` and one term.
pub open spec fn parse_condition(toks: Seq<Tok>) -> Result<Option<TermView>, ParseError> {
    if toks.len() == 0 {
        Ok(None)
    } else if toks[0] == Tok::Atom(cond_word()) {
        match parse_term(toks.drop_first()) {
            None => Err(ParseError::MalformedTerm),
            Some((c, rest)) => if rest.len() == 0 {
                Ok(Some(c))
            } else {
                Err(ParseError::TrailingInput)
            },
        }
    } else {
        Err(ParseError::TrailingInput)
    }
}

/// The line that the parts make: one rule, or one in each direction.
pub open spec fn make_line(
    lhs: TermView,
    rhs: TermView,
    cond: Option<TermView>,
    both: bool,
) -> LineView {
    let forward = RuleView { lhs, rhs, cond };
    if both {
        LineView::Bidirectional(forward, forward.reversed())
    } else {
        LineView::Unidirectional(forward)
    }
}

/// Reads the tokens of one line.
pub open spec fn parse_rule_tokens(toks: Seq<Tok>) -> Result<LineView, ParseError> {
    match parse_term(toks) {
        None => Err(ParseError::MalformedTerm),
        Some((lhs, after_lhs)) => if after_lhs.len() == 0 || !is_arrow(after_lhs[0]) {
            Err(ParseError::MissingArrow)
        } else {
            match parse_term(after_lhs.drop_first()) {
                None => Err(ParseError::MalformedTerm),
                Some((rhs, after_rhs)) => match parse_condition(after_rhs) {
                    Err(e) => Err(e),
                    Ok(cond) => Ok(
                        make_line(lhs, rhs, cond, after_lhs[0] == Tok::Atom(both_ways())),
                    ),
                },
            }
        },
    }
}

/// Reads one line of a rule set.
pub open spec fn parse_line(s: Seq<char>) -> Result<LineView, ParseError> {
    parse_rule_tokens(tokens_of(s))
}

/// Every rule of a line is well formed.
pub open spec fn line_wf(l: LineView) -> bool {
    match l {
        LineView::Unidirectional(r) => r.wf(),
        LineView::Bidirectional(f, b) => f.wf() && b.wf(),
    }
}

/// The two arrows and the condition word are valid atoms, and differ.
pub proof fn lemma_keywords()
    ensures
        valid_atom(arrow()),
        valid_atom(both_ways()),
        valid_atom(cond_word()),
        arrow() != both_ways(),
{
    assert(arrow()[0] == '=');
    assert(both_ways()[0] == '<');
}

/// The tokens of a well-formed rule are valid.
pub proof fn lemma_rule_tokens_valid(r: RuleView)
    requires
        r.wf(),
    ensures
        toks_valid(r.tokens()),
{
    lemma_keywords();
    lemma_tokens_valid_term(r.lhs);
    lemma_tokens_valid_term(r.rhs);
    let mid = seq![Tok::Atom(arrow())];
    assert(toks_valid(mid));
    lemma_valid_concat(r.lhs.tokens(), mid);
    lemma_valid_concat(r.lhs.tokens() + mid, r.rhs.tokens());
    match r.cond {
        Some(c) => {
            lemma_tokens_valid_term(c);
            let word = seq![Tok::Atom(cond_word())];
            assert(toks_valid(word));
            lemma_valid_concat(word, c.tokens());
        },
        None => {
            assert(toks_valid(Seq::<Tok>::empty()));
        },
    }
    lemma_valid_concat(r.lhs.tokens() + mid + r.rhs.tokens(), r.cond_tokens());
}

/// Reading the tokens of a well-formed rule gives that rule, as a
/// one-directional line.
pub proof fn lemma_parse_rule_tokens(r: RuleView)
    requires
        r.wf(),
    ensures
        parse_rule_tokens(r.tokens()) == Ok::<LineView, ParseError>(LineView::Unidirectional(r)),
{
    lemma_keywords();
    let tail = r.cond_tokens();
    let after_arrow = r.rhs.tokens() + tail;
    let after_lhs = seq![Tok::Atom(arrow())] + after_arrow;
    assert(r.tokens() =~= r.lhs.tokens() + after_lhs);
    lemma_parse_term_tokens(r.lhs, after_lhs);
    assert(after_lhs[0] == Tok::Atom(arrow()));
    assert(after_lhs.drop_first() =~= after_arrow);
    lemma_parse_term_tokens(r.rhs, tail);
    match r.cond {
        Some(c) => {
            assert(tail[0] == Tok::Atom(cond_word()));
            assert(tail.drop_first() =~= c.tokens() + Seq::<Tok>::empty());
            lemma_parse_term_tokens(c, Seq::empty());
        },
        None => {},
    }
}

/// A line read from valid tokens holds well-formed rules.
pub proof fn lemma_parse_rule_wf(toks: Seq<Tok>)
    requires
        toks_valid(toks),
    ensures
        parse_rule_tokens(toks) matches Ok(l) ==> line_wf(l),
{
    lemma_parse_term_wf(toks);
    if let Some((lhs, after_lhs)) = parse_term(toks) {
        if after_lhs.len() > 0 {
            lemma_valid_suffix(after_lhs, 1);
            lemma_parse_term_wf(after_lhs.drop_first());
            if let Some((rhs, after_rhs)) = parse_term(after_lhs.drop_first()) {
                if after_rhs.len() > 0 {
                    lemma_valid_suffix(after_rhs, 1);
                    lemma_parse_term_wf(after_rhs.drop_first());
                }
            }
        }
    }
}

/// In the tokens of a line that is a rule, every opening parenthesis is
/// followed by an atom: every parenthesized sub-term has a leading symbol.
pub proof fn lemma_rule_opens(toks: Seq<Tok>)
    requires
        parse_rule_tokens(toks) is Ok,
    ensures
        opens_lead(toks, toks.len() as int),
{
    lemma_parse_term_rest(toks);
    lemma_parse_term_opens(toks);
    let after_lhs = parse_term(toks)->Some_0.1;
    let arrow_at = toks.len() - after_lhs.len();
    let from_rhs = after_lhs.drop_first();
    lemma_parse_term_rest(from_rhs);
    lemma_parse_term_opens(from_rhs);
    let after_rhs = parse_term(from_rhs)->Some_0.1;
    let cond_at = toks.len() - after_rhs.len();
    assert(from_rhs =~= toks.skip(arrow_at + 1));
    assert(after_rhs =~= toks.skip(cond_at));
    assert(toks[arrow_at] == after_lhs[0]);
    if after_rhs.len() > 0 {
        let from_cond = after_rhs.drop_first();
        lemma_parse_term_rest(from_cond);
        lemma_parse_term_opens(from_cond);
        assert(from_cond =~= toks.skip(cond_at + 1));
        assert(toks[cond_at] == after_rhs[0]);
    }
    assert forall|i: int| 0 <= i < toks.len() && (#[trigger] toks[i]) is Open implies i + 1
        < toks.len() && toks[i + 1] is Atom by {
        if i < arrow_at {
        } else if i == arrow_at {
        } else if i < cond_at {
            assert(from_rhs[i - (arrow_at + 1)] == toks[i]);
            assert(from_rhs[i - (arrow_at + 1) + 1] == toks[i + 1]);
        } else if i == cond_at {
        } else {
            let from_cond = after_rhs.drop_first();
            assert(from_cond[i - (cond_at + 1)] == toks[i]);
            assert(from_cond[i - (cond_at + 1) + 1] == toks[i + 1]);
        }
    }
}

/// Reading the name of a well-formed rule gives the rule back.
pub proof fn lemma_rule_roundtrip(r: RuleView)
    requires
        r.wf(),
    ensures
        parse_line(r.name()) == Ok::<LineView, ParseError>(LineView::Unidirectional(r)),
{
    lemma_rule_tokens_valid(r);
    lemma_tokens_of_render(r.tokens());
    lemma_parse_rule_tokens(r);
}

/// Every rule that a text parses to is read back from its own name
/// unchanged: parsing, writing and parsing again gives what parsing gave.
pub proof fn lemma_parse_render_parse(text: Seq<char>)
    ensures
        match parse_line(text) {
            Ok(LineView::Unidirectional(r)) => parse_line(r.name()) == parse_line(text),
            Ok(LineView::Bidirectional(f, b)) => {
                &&& parse_line(f.name()) == Ok::<LineView, ParseError>(LineView::Unidirectional(f))
                &&& parse_line(b.name()) == Ok::<LineView, ParseError>(LineView::Unidirectional(b))
            },
            Err(_) => true,
        },
{
    crate::text::lemma_tokens_valid(text);
    lemma_parse_rule_wf(tokens_of(text));
    match parse_line(text) {
        Ok(LineView::Unidirectional(r)) => {
            lemma_rule_roundtrip(r);
        },
        Ok(LineView::Bidirectional(f, b)) => {
            lemma_rule_roundtrip(f);
            lemma_rule_roundtrip(b);
        },
        Err(_) => {},
    }
}

/// Two texts with the same tokens, that is two texts that differ in
/// whitespace only, parse alike.
pub proof fn lemma_parse_ignores_whitespace(a: Seq<char>, b: Seq<char>)
    requires
        tokens_of(a) == tokens_of(b),
    ensures
        parse_line(a) == parse_line(b),
{
}

/// Well-formed rules with the same name are the same rule.
pub proof fn lemma_name_injective(a: RuleView, b: RuleView)
    requires
        a.wf(),
        b.wf(),
        a.name() == b.name(),
    ensures
        a == b,
{
    lemma_rule_roundtrip(a);
    lemma_rule_roundtrip(b);
}

/// A rewrite rule: `lhs` rewrites to `rhs`, under `cond` where there is one.
#[derive(Debug)]
pub struct Rule {
    lhs: Term,
    rhs: Term,
    cond: Option<Term>,
    name: String,
}

impl View for Rule {
    type V = RuleView;

    closed spec fn view(&self) -> RuleView {
        RuleView { lhs: self.lhs@, rhs: self.rhs@, cond: opt_term_view(self.cond) }
    }
}

/// The view of a term that may be absent.
pub open spec fn opt_term_view(c: Option<Term>) -> Option<TermView> {
    match c {
        Some(t) => Some(t@),
        None => None,
    }
}

/// The rules of a vector, each taken by its view.
pub open spec fn rules_view(v: Seq<Rule>) -> Seq<RuleView> {
    v.map_values(|r: Rule| r@)
}

/// A parsed line: one rule, or the two rules of a line written with `<=>`.
#[derive(Debug)]
pub enum ParsedLine {
    Unidirectional(Rule),
    Bidirectional(Rule, Rule),
}

impl View for ParsedLine {
    type V = LineView;

    open spec fn view(&self) -> LineView {
        match self {
            ParsedLine::Unidirectional(r) => LineView::Unidirectional(r@),
            ParsedLine::Bidirectional(f, b) => LineView::Bidirectional(f@, b@),
        }
    }
}

impl ParsedLine {
    /// The rules of the line as independent values: the forward rule, and
    /// the backward rule where the line stands for both directions.
    pub fn explode(self) -> (r: (Rule, Option<Rule>))
        ensures
            match self@ {
                LineView::Unidirectional(f) => r.0@ == f && r.1 is None,
                LineView::Bidirectional(f, b) => r.0@ == f && (r.1 matches Some(back) && back@ == b),
            },
    {
        match self {
            ParsedLine::Unidirectional(f) => (f, None),
            ParsedLine::Bidirectional(f, b) => (f, Some(b)),
        }
    }
}

/// Whether the token is the atom `word`.
fn atom_is(tok: &Token, word: &str) -> (b: bool)
    ensures
        b == (tok@ == Tok::Atom(word@)),
{
    match tok {
        Token::Atom(a) => *a == String::from_str(word),
        _ => false,
    }
}

impl Clone for Rule {
    fn clone(&self) -> (res: Rule)
        ensures
            res@ == self@,
    {
        proof {
            use_type_invariant(self);
        }
        let cond = match &self.cond {
            Some(c) => Some(c.clone()),
            None => None,
        };
        Rule { lhs: self.lhs.clone(), rhs: self.rhs.clone(), cond, name: self.name.clone() }
    }
}

impl Rule {
    #[verifier::type_invariant]
    pub open spec fn inv(&self) -> bool {
        self@.wf() && self.name_view() == self@.name()
    }

    /// The characters of the stored name.
    pub closed spec fn name_view(&self) -> Seq<char> {
        self.name@
    }

    /// The rule with the given sides and condition.
    pub fn new(lhs: Term, rhs: Term, cond: Option<Term>) -> (r: Rule)
        ensures
            r@.lhs == lhs@,
            r@.rhs == rhs@,
            r@.cond == opt_term_view(cond),
            r@.wf(),
    {
        proof {
            use_type_invariant(&lhs);
            use_type_invariant(&rhs);
            reveal_strlit("==>");
            reveal_strlit("if");
            assert("==>"@ =~= arrow());
            assert("if"@ =~= cond_word());
        }
        let ghost view = RuleView { lhs: lhs@, rhs: rhs@, cond: opt_term_view(cond) };
        let mut toks = lhs.tokens();
        let ghost t0 = toks_view(toks@);
        toks.push(Token::Atom(String::from_str("==>")));
        assert(toks_view(toks@) =~= t0 + seq![Tok::Atom(arrow())]);
        rhs.push_tokens(&mut toks);
        let ghost t1 = toks_view(toks@);
        assert(t1 =~= lhs@.tokens() + seq![Tok::Atom(arrow())] + rhs@.tokens());
        match &cond {
            Some(c) => {
                proof {
                    use_type_invariant(c);
                }
                toks.push(Token::Atom(String::from_str("if")));
                let ghost t2 = toks_view(toks@);
                assert(t2 =~= t1 + seq![Tok::Atom(cond_word())]);
                c.push_tokens(&mut toks);
                assert(toks_view(toks@) =~= t1 + (seq![Tok::Atom(cond_word())] + c@.tokens()));
                assert(view.cond_tokens() == seq![Tok::Atom(cond_word())] + c@.tokens());
            },
            None => {
                assert(view.cond_tokens() =~= Seq::<Tok>::empty());
                assert(toks_view(toks@) =~= t1 + Seq::<Tok>::empty());
            },
        }
        assert(toks_view(toks@) =~= view.tokens());
        let name = render(&toks);
        Rule { lhs, rhs, cond, name }
    }

    /// Reads one line of a rule set.
    pub fn parse_line(line: &str) -> (r: Result<ParsedLine, ParseError>)
        ensures
            match r {
                Ok(l) => parse_line(line@) == Ok::<LineView, ParseError>(l@) && line_wf(l@),
                Err(e) => parse_line(line@) == Err::<LineView, ParseError>(e),
            },
    {
        let toks = tokenize(line);
        let ghost all = toks_view(toks@);
        proof {
            reveal_strlit("==>");
            reveal_strlit("<=>");
            reveal_strlit("if");
            assert("==>"@ =~= arrow());
            assert("<=>"@ =~= both_ways());
            assert("if"@ =~= cond_word());
            assert(all.skip(0) =~= all);
            lemma_parse_rule_wf(all);
        }
        let (lhs, arrow_at) = match parse_term_at(&toks, 0) {
            None => {
                return Err(ParseError::MalformedTerm);
            },
            Some(found) => found,
        };
        if arrow_at >= toks.len() {
            return Err(ParseError::MissingArrow);
        }
        let ghost after_lhs = all.skip(arrow_at as int);
        assert(after_lhs[0] == toks@[arrow_at as int]@);
        assert(after_lhs.drop_first() =~= all.skip(arrow_at + 1));
        let both = atom_is(&toks[arrow_at], "<=>");
        if !both && !atom_is(&toks[arrow_at], "==>") {
            return Err(ParseError::MissingArrow);
        }
        let (rhs, cond_at) = match parse_term_at(&toks, arrow_at + 1) {
            None => {
                return Err(ParseError::MalformedTerm);
            },
            Some(found) => found,
        };
        let ghost after_rhs = all.skip(cond_at as int);
        let cond = if cond_at == toks.len() {
            None
        } else {
            assert(after_rhs[0] == toks@[cond_at as int]@);
            assert(after_rhs.drop_first() =~= all.skip(cond_at + 1));
            if !atom_is(&toks[cond_at], "if") {
                return Err(ParseError::TrailingInput);
            }
            match parse_term_at(&toks, cond_at + 1) {
                None => {
                    return Err(ParseError::MalformedTerm);
                },
                Some((c, end_at)) => {
                    if end_at != toks.len() {
                        return Err(ParseError::TrailingInput);
                    }
                    Some(c)
                },
            }
        };
        if both {
            let forward = Rule::new(lhs, rhs, cond);
            let backward = forward.reversed();
            Ok(ParsedLine::Bidirectional(forward, backward))
        } else {
            Ok(ParsedLine::Unidirectional(Rule::new(lhs, rhs, cond)))
        }
    }

    /// Reads one line of a rule set; gives the forward rule and, for a line
    /// written with `<=>`, the backward rule.
    pub fn from_string(line: &str) -> (r: Result<(Rule, Option<Rule>), ParseError>)
        ensures
            match r {
                Ok((f, None)) => parse_line(line@) == Ok::<LineView, ParseError>(
                    LineView::Unidirectional(f@),
                ),
                Ok((f, Some(b))) => parse_line(line@) == Ok::<LineView, ParseError>(
                    LineView::Bidirectional(f@, b@),
                ),
                Err(e) => parse_line(line@) == Err::<LineView, ParseError>(e),
            },
    {
        match Rule::parse_line(line) {
            Ok(l) => Ok(l.explode()),
            Err(e) => Err(e),
        }
    }

    /// The name of the rule: its canonical text.
    pub fn name(&self) -> (n: &str)
        ensures
            n@ == self@.name(),
    {
        proof {
            use_type_invariant(self);
        }
        self.name.as_str()
    }

    /// The left-hand side.
    pub fn lhs(&self) -> (t: &Term)
        ensures
            t@ == self@.lhs,
    {
        &self.lhs
    }

    /// The right-hand side.
    pub fn rhs(&self) -> (t: &Term)
        ensures
            t@ == self@.rhs,
    {
        &self.rhs
    }

    /// The condition, where the rule has one.
    pub fn cond(&self) -> (c: Option<&Term>)
        ensures
            match c {
                Some(t) => self@.cond == Some(t@),
                None => self@.cond is None,
            },
    {
        match &self.cond {
            Some(c) => Some(c),
            None => None,
        }
    }

    /// The rule read from right to left, under the same condition.
    pub fn reversed(&self) -> (r: Rule)
        ensures
            r@ == self@.reversed(),
    {
        let cond = match &self.cond {
            Some(c) => Some(c.clone()),
            None => None,
        };
        Rule::new(self.rhs.clone(), self.lhs.clone(), cond)
    }

    /// Whether two rules are the same rule. Rules are identified by name.
    pub fn same(&self, other: &Rule) -> (b: bool)
        ensures
            b == (self@ == other@),
            b == (self@.name() == other@.name()),
    {
        proof {
            use_type_invariant(self);
            use_type_invariant(other);
            if self@.name() == other@.name() {
                lemma_name_injective(self@, other@);
            }
        }
        self.name == other.name
    }
}

} // verus!
