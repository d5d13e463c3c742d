//! Terms: trees in prefix notation.
//!
//! A term is an operator applied to argument terms, or a leaf: a literal, a
//! nullary symbol, or a pattern variable `?name`. The text `(+ ?a 0)` is the
//! operator `+` applied to the variable `?a` and the literal `0`. A symbol
//! alone in parentheses, `(f)`, is the leaf `f`.

use vstd::prelude::*;
use vstd::string::*;
use crate::text::{
    contains_string, is_valid_atom, is_variable, is_variable_name, lemma_tokens_of_render, render,
    render_tokens, strs_view, tokenize, tokens_of, toks_valid, toks_view, valid_atom, Tok, Token,
};

verus! {

/// Why a text is not a term or a rule.
#[derive(Clone, Copy, PartialEq, Eq, Debug, Structural)]
pub enum ParseError {
    /// A term was expected and the tokens at that place do not form one.
    MalformedTerm,
    /// The first term is not followed by the connective that the text needs:
    /// `==>` or `<=>` in a rule, `implies` in a proposed lemma.
    MissingArrow,
    /// Something other than a condition follows the last term.
    TrailingInput,
}

/// The mathematical form of a term.
pub struct TermView {
    pub head: Seq<char>,
    pub args: Seq<TermView>,
}

impl TermView {
    /// Every symbol in the tree is a valid atom.
    pub open spec fn wf(self) -> bool
        decreases self,
    {
        &&& valid_atom(self.head)
        &&& forall|i: int| 0 <= i < self.args.len() ==> (#[trigger] self.args[i]).wf()
    }

    /// The tokens of the term in prefix notation. A leaf is written without
    /// parentheses.
    pub open spec fn tokens(self) -> Seq<Tok>
        decreases self, 1int,
    {
        if self.args.len() == 0 {
            seq![Tok::Atom(self.head)]
        } else {
            seq![Tok::Open, Tok::Atom(self.head)] + tokens_all(self.args) + seq![Tok::Close]
        }
    }

    /// The canonical text of the term.
    pub open spec fn text(self) -> Seq<char> {
        render_tokens(self.tokens())
    }

    /// The pattern variables that occur in the term: every symbol that
    /// starts with a question mark, wherever it stands.
    pub open spec fn variables(self) -> Set<Seq<char>> {
        tok_variables(self.tokens())
    }
}

/// The tokens of several terms, one after the other.
pub open spec fn tokens_all(ts: Seq<TermView>) -> Seq<Tok>
    decreases ts, 0int,
{
    if ts.len() == 0 {
        Seq::empty()
    } else {
        ts[0].tokens() + tokens_all(ts.drop_first())
    }
}

/// The pattern variables among the atoms of a token sequence.
pub open spec fn tok_variables(toks: Seq<Tok>) -> Set<Seq<char>> {
    Set::new(|a: Seq<char>| is_variable(a) && toks.contains(Tok::Atom(a)))
}

/// The pattern variables of a token sequence, each once, in the order in
/// which they first occur.
pub open spec fn distinct_variables(toks: Seq<Tok>) -> Seq<Seq<char>>
    decreases toks.len(),
{
    if toks.len() == 0 {
        Seq::empty()
    } else {
        let before = distinct_variables(toks.drop_last());
        match toks.last() {
            Tok::Atom(a) => if is_variable(a) && !before.contains(a) {
                before.push(a)
            } else {
                before
            },
            _ => before,
        }
    }
}

/// Reads one term from the front of `toks`; gives the term and the tokens
/// that follow it.
pub open spec fn parse_term(toks: Seq<Tok>) -> Option<(TermView, Seq<Tok>)>
    decreases toks.len(), 0int,
{
    if toks.len() == 0 {
        None
    } else {
        match toks[0] {
            Tok::Atom(a) => Some((TermView { head: a, args: Seq::empty() }, toks.drop_first())),
            Tok::Close => None,
            Tok::Open => if toks.len() >= 2 {
                match toks[1] {
                    Tok::Atom(a) => match parse_args(toks.skip(2)) {
                        Some((args, rest)) => Some((TermView { head: a, args }, rest)),
                        None => None,
                    },
                    _ => None,
                }
            } else {
                None
            },
        }
    }
}

/// Reads argument terms up to the closing parenthesis that ends them; gives
/// the arguments and the tokens after that parenthesis.
pub open spec fn parse_args(toks: Seq<Tok>) -> Option<(Seq<TermView>, Seq<Tok>)>
    decreases toks.len(), 1int,
{
    if toks.len() == 0 {
        None
    } else if toks[0] is Close {
        Some((Seq::empty(), toks.drop_first()))
    } else {
        match parse_term(toks) {
            None => None,
            Some((t, rest)) => if rest.len() < toks.len() {
                match parse_args(rest) {
                    None => None,
                    Some((ts, after)) => Some((seq![t] + ts, after)),
                }
            } else {
                None
            },
        }
    }
}

/// Reads a token sequence that holds exactly one term.
pub open spec fn parse_whole_term(toks: Seq<Tok>) -> Result<TermView, ParseError> {
    match parse_term(toks) {
        None => Err(ParseError::MalformedTerm),
        Some((t, rest)) => if rest.len() == 0 {
            Ok(t)
        } else {
            Err(ParseError::TrailingInput)
        },
    }
}

/// A term that was read leaves a proper suffix of the tokens behind.
pub proof fn lemma_parse_term_rest(toks: Seq<Tok>)
    ensures
        parse_term(toks) matches Some((t, rest)) ==> rest.len() < toks.len() && rest
            == toks.skip(toks.len() - rest.len()),
    decreases toks.len(), 0int,
{
    if toks.len() > 0 {
        match toks[0] {
            Tok::Atom(a) => {},
            Tok::Close => {},
            Tok::Open => {
                if toks.len() >= 2 && toks[1] is Atom {
                    let inner = toks.skip(2);
                    lemma_parse_args_rest(inner);
                    if let Some((args, rest)) = parse_args(inner) {
                        assert(inner.skip(inner.len() - rest.len()) =~= toks.skip(
                            toks.len() - rest.len(),
                        ));
                    }
                }
            },
        }
    }
}

/// Arguments that were read leave a proper suffix of the tokens behind.
pub proof fn lemma_parse_args_rest(toks: Seq<Tok>)
    ensures
        parse_args(toks) matches Some((ts, rest)) ==> rest.len() < toks.len() && rest
            == toks.skip(toks.len() - rest.len()),
    decreases toks.len(), 1int,
{
    if toks.len() == 0 {
    } else if toks[0] is Close {
    } else {
        lemma_parse_term_rest(toks);
        if let Some((t, mid)) = parse_term(toks) {
            lemma_parse_args_rest(mid);
            if let Some((ts, rest)) = parse_args(mid) {
                assert(mid.skip(mid.len() - rest.len()) =~= toks.skip(toks.len() - rest.len()));
            }
        }
    }
}

/// Among the first `upto` tokens every opening parenthesis is followed by
/// an atom.
pub open spec fn opens_lead(toks: Seq<Tok>, upto: int) -> bool {
    forall|i: int|
        0 <= i < upto && (#[trigger] toks[i]) is Open ==> i + 1 < upto && toks[i + 1] is Atom
}

/// In the tokens of a term that was read, every opening parenthesis is
/// followed by an atom.
pub proof fn lemma_parse_term_opens(toks: Seq<Tok>)
    ensures
        parse_term(toks) matches Some((t, rest)) ==> opens_lead(toks, toks.len() - rest.len()),
    decreases toks.len(), 0int,
{
    if let Some((t, rest)) = parse_term(toks) {
        lemma_parse_term_rest(toks);
        let used = toks.len() - rest.len();
        match toks[0] {
            Tok::Atom(a) => {},
            Tok::Close => {},
            Tok::Open => {
                let inner = toks.skip(2);
                lemma_parse_args_opens(inner);
                lemma_parse_args_rest(inner);
                assert forall|i: int| 0 <= i < used && (#[trigger] toks[i]) is Open implies i + 1
                    < used && toks[i + 1] is Atom by {
                    if i >= 2 {
                        assert(inner[i - 2] == toks[i]);
                        assert(inner[i - 2 + 1] == toks[i + 1]);
                    }
                }
            },
        }
    }
}

/// In the tokens of arguments that were read, every opening parenthesis is
/// followed by an atom.
pub proof fn lemma_parse_args_opens(toks: Seq<Tok>)
    ensures
        parse_args(toks) matches Some((ts, rest)) ==> opens_lead(toks, toks.len() - rest.len()),
    decreases toks.len(), 1int,
{
    if let Some((ts, rest)) = parse_args(toks) {
        lemma_parse_args_rest(toks);
        let used = toks.len() - rest.len();
        if toks[0] is Close {
        } else {
            lemma_parse_term_rest(toks);
            lemma_parse_term_opens(toks);
            let mid = parse_term(toks)->Some_0.1;
            let first = toks.len() - mid.len();
            lemma_parse_args_opens(mid);
            lemma_parse_args_rest(mid);
            assert forall|i: int| 0 <= i < used && (#[trigger] toks[i]) is Open implies i + 1
                < used && toks[i + 1] is Atom by {
                if i >= first {
                    assert(mid[i - first] == toks[i]);
                    assert(mid[i - first + 1] == toks[i + 1]);
                }
            }
        }
    }
}

/// A term read from valid tokens is well formed, and so are arguments.
pub proof fn lemma_parse_term_wf(toks: Seq<Tok>)
    requires
        toks_valid(toks),
    ensures
        parse_term(toks) matches Some((t, rest)) ==> t.wf() && toks_valid(rest),
    decreases toks.len(), 0int,
{
    if toks.len() > 0 {
        lemma_parse_term_rest(toks);
        match toks[0] {
            Tok::Atom(a) => {
                let t = TermView { head: a, args: Seq::empty() };
                assert(t.wf());
                lemma_valid_suffix(toks, 1);
            },
            Tok::Close => {},
            Tok::Open => {
                if toks.len() >= 2 && toks[1] is Atom {
                    lemma_valid_suffix(toks, 2);
                    lemma_parse_args_wf(toks.skip(2));
                }
            },
        }
    }
}

/// Arguments read from valid tokens are well formed.
pub proof fn lemma_parse_args_wf(toks: Seq<Tok>)
    requires
        toks_valid(toks),
    ensures
        parse_args(toks) matches Some((ts, rest)) ==> toks_valid(rest) && forall|i: int|
            0 <= i < ts.len() ==> (#[trigger] ts[i]).wf(),
    decreases toks.len(), 1int,
{
    if toks.len() == 0 {
    } else if toks[0] is Close {
        lemma_valid_suffix(toks, 1);
    } else {
        lemma_parse_term_wf(toks);
        lemma_parse_term_rest(toks);
        if let Some((t, mid)) = parse_term(toks) {
            lemma_parse_args_wf(mid);
        }
    }
}

/// A suffix of valid tokens is valid.
pub proof fn lemma_valid_suffix(toks: Seq<Tok>, k: int)
    requires
        toks_valid(toks),
        0 <= k <= toks.len(),
    ensures
        toks_valid(toks.skip(k)),
{
    let rest = toks.skip(k);
    assert forall|i: int| 0 <= i < rest.len() implies ((#[trigger] rest[i]) matches Tok::Atom(a)
        ==> valid_atom(a)) by {
        assert(rest[i] == toks[i + k]);
    }
}

/// Valid token sequences put together are valid.
pub proof fn lemma_valid_concat(a: Seq<Tok>, b: Seq<Tok>)
    requires
        toks_valid(a),
        toks_valid(b),
    ensures
        toks_valid(a + b),
{
    let all = a + b;
    assert forall|i: int| 0 <= i < all.len() implies ((#[trigger] all[i]) matches Tok::Atom(x)
        ==> valid_atom(x)) by {
        if i < a.len() {
            assert(all[i] == a[i]);
        } else {
            assert(all[i] == b[i - a.len()]);
        }
    }
}

/// The tokens of a well-formed term are valid, and a term has at least one.
pub proof fn lemma_tokens_valid_term(t: TermView)
    requires
        t.wf(),
    ensures
        toks_valid(t.tokens()),
        t.tokens().len() > 0,
        !(t.tokens()[0] is Close),
    decreases t, 1int,
{
    if t.args.len() == 0 {
    } else {
        lemma_tokens_valid_all(t.args);
        let front = seq![Tok::Open, Tok::Atom(t.head)];
        assert(toks_valid(front));
        lemma_valid_concat(front, tokens_all(t.args));
        assert(toks_valid(seq![Tok::Close]));
        lemma_valid_concat(front + tokens_all(t.args), seq![Tok::Close]);
    }
}

/// The tokens of well-formed terms are valid.
pub proof fn lemma_tokens_valid_all(ts: Seq<TermView>)
    requires
        forall|i: int| 0 <= i < ts.len() ==> (#[trigger] ts[i]).wf(),
    ensures
        toks_valid(tokens_all(ts)),
    decreases ts, 0int,
{
    if ts.len() == 0 {
    } else {
        assert(ts[0].wf());
        lemma_tokens_valid_term(ts[0]);
        let rest = ts.drop_first();
        assert forall|i: int| 0 <= i < rest.len() implies (#[trigger] rest[i]).wf() by {
            assert(rest[i] == ts[i + 1]);
        }
        lemma_tokens_valid_all(rest);
        lemma_valid_concat(ts[0].tokens(), tokens_all(rest));
    }
}

/// Reading the tokens of a term gives the term back, whatever follows.
pub proof fn lemma_parse_term_tokens(t: TermView, rest: Seq<Tok>)
    requires
        t.wf(),
    ensures
        parse_term(t.tokens() + rest) == Some((t, rest)),
    decreases t, 1int,
{
    let toks = t.tokens() + rest;
    if t.args.len() == 0 {
        assert(toks[0] == Tok::Atom(t.head));
        assert(toks.drop_first() =~= rest);
        assert(t.args =~= Seq::<TermView>::empty());
    } else {
        assert(toks[0] == Tok::Open);
        assert(toks[1] == Tok::Atom(t.head));
        assert(toks.skip(2) =~= tokens_all(t.args) + seq![Tok::Close] + rest);
        lemma_parse_args_tokens(t.args, rest);
    }
}

/// Reading the tokens of arguments and their closing parenthesis gives the
/// arguments back, whatever follows.
pub proof fn lemma_parse_args_tokens(ts: Seq<TermView>, rest: Seq<Tok>)
    requires
        forall|i: int| 0 <= i < ts.len() ==> (#[trigger] ts[i]).wf(),
    ensures
        parse_args(tokens_all(ts) + seq![Tok::Close] + rest) == Some((ts, rest)),
    decreases ts, 0int,
{
    let toks = tokens_all(ts) + seq![Tok::Close] + rest;
    if ts.len() == 0 {
        assert(toks[0] == Tok::Close);
        assert(toks.drop_first() =~= rest);
    } else {
        let first = ts[0];
        let others = ts.drop_first();
        let after = tokens_all(others) + seq![Tok::Close] + rest;
        assert(first.wf());
        lemma_tokens_valid_term(first);
        assert(toks =~= first.tokens() + after);
        assert(toks[0] == first.tokens()[0]);
        lemma_parse_term_tokens(first, after);
        assert forall|i: int| 0 <= i < others.len() implies (#[trigger] others[i]).wf() by {
            assert(others[i] == ts[i + 1]);
        }
        lemma_parse_args_tokens(others, rest);
        assert(after.len() < toks.len());
        assert(seq![first] + others =~= ts);
    }
}

/// The tokens of terms put together are the tokens of each put together.
pub proof fn lemma_tokens_all_concat(a: Seq<TermView>, b: Seq<TermView>)
    ensures
        tokens_all(a + b) == tokens_all(a) + tokens_all(b),
    decreases a.len(),
{
    if a.len() == 0 {
        assert(a + b =~= b);
        assert(tokens_all(a) + tokens_all(b) =~= tokens_all(b));
    } else {
        let all = a + b;
        assert(all[0] == a[0]);
        assert(all.drop_first() =~= a.drop_first() + b);
        lemma_tokens_all_concat(a.drop_first(), b);
        assert(tokens_all(all) =~= tokens_all(a) + tokens_all(b));
    }
}

/// The distinct variables of a token sequence are its variables, each once.
pub proof fn lemma_distinct_variables(toks: Seq<Tok>)
    ensures
        distinct_variables(toks).no_duplicates(),
        distinct_variables(toks).to_set() == tok_variables(toks),
    decreases toks.len(),
{
    let out = distinct_variables(toks);
    if toks.len() == 0 {
        assert(out.to_set() =~= tok_variables(toks));
    } else {
        let front = toks.drop_last();
        let before = distinct_variables(front);
        lemma_distinct_variables(front);
        assert forall|a: Seq<char>| out.to_set().contains(a) <==> tok_variables(toks).contains(
            a,
        ) by {
            if out.contains(a) {
                if before.contains(a) {
                    assert(before.to_set().contains(a));
                    let k = choose|k: int| 0 <= k < front.len() && front[k] == Tok::Atom(a);
                    assert(toks[k] == Tok::Atom(a));
                } else {
                    assert(toks.last() == Tok::Atom(a));
                }
            }
            if tok_variables(toks).contains(a) {
                let k = choose|k: int| 0 <= k < toks.len() && toks[k] == Tok::Atom(a);
                if k < front.len() {
                    assert(front[k] == Tok::Atom(a));
                    assert(tok_variables(front).contains(a));
                    assert(before.to_set().contains(a));
                    let m = choose|m: int| 0 <= m < before.len() && before[m] == a;
                    assert(out[m] == a);
                } else {
                    if !before.contains(a) {
                        assert(out.last() == a);
                    } else {
                        let m = choose|m: int| 0 <= m < before.len() && before[m] == a;
                        assert(out[m] == a);
                    }
                }
            }
        }
        assert(out.to_set() =~= tok_variables(toks));
    }
}

/// A term: an operator or leaf symbol and its argument terms.
#[derive(Debug)]
pub struct Term {
    head: String,
    args: Vec<Term>,
}

/// The mathematical form of a term.
pub closed spec fn term_view(t: Term) -> TermView
    decreases t, 1int,
{
    TermView { head: t.head@, args: terms_view(t.args@) }
}

/// The mathematical forms of a sequence of terms.
pub closed spec fn terms_view(ts: Seq<Term>) -> Seq<TermView>
    decreases ts, 0int,
{
    if ts.len() == 0 {
        Seq::empty()
    } else {
        terms_view(ts.drop_last()).push(term_view(ts.last()))
    }
}

/// `terms_view` goes element by element.
pub proof fn lemma_terms_view(ts: Seq<Term>)
    ensures
        terms_view(ts).len() == ts.len(),
        forall|i: int| 0 <= i < ts.len() ==> (#[trigger] terms_view(ts)[i]) == ts[i]@,
    decreases ts.len(),
{
    if ts.len() > 0 {
        lemma_terms_view(ts.drop_last());
        assert forall|i: int| 0 <= i < ts.len() implies (#[trigger] terms_view(ts)[i])
            == ts[i]@ by {
            if i < ts.len() - 1 {
                assert(ts.drop_last()[i] == ts[i]);
            }
        }
    }
}

impl View for Term {
    type V = TermView;

    open spec fn view(&self) -> TermView {
        term_view(*self)
    }
}

impl Clone for Term {
    fn clone(&self) -> (res: Term)
        ensures
            res@ == self@,
        decreases self,
    {
        proof {
            use_type_invariant(self);
            lemma_terms_view(self.args@);
        }
        let mut args: Vec<Term> = Vec::new();
        let mut i: usize = 0;
        while i < self.args.len()
            invariant
                i <= self.args.len(),
                args.len() == i,
                forall|k: int| 0 <= k < i ==> (#[trigger] args@[k])@ == self.args@[k]@,
            decreases self.args.len() - i,
        {
            let a = self.args[i].clone();
            args.push(a);
            i += 1;
        }
        proof {
            lemma_terms_view(args@);
            assert(terms_view(args@) =~= terms_view(self.args@));
        }
        Term { head: self.head.clone(), args }
    }
}

/// The answer of `parse_args` with `front` put before the arguments.
pub open spec fn with_front(
    front: Seq<TermView>,
    r: Option<(Seq<TermView>, Seq<Tok>)>,
) -> Option<(Seq<TermView>, Seq<Tok>)> {
    match r {
        None => None,
        Some((ts, rest)) => Some((front + ts, rest)),
    }
}

/// Reads a text that holds exactly one term.
pub open spec fn parse_term_text(s: Seq<char>) -> Result<TermView, ParseError> {
    parse_whole_term(tokens_of(s))
}

/// Reading the canonical text of a well-formed term gives the term back.
pub proof fn lemma_term_roundtrip(t: TermView)
    requires
        t.wf(),
    ensures
        parse_term_text(t.text()) == Ok::<TermView, ParseError>(t),
{
    lemma_tokens_valid_term(t);
    lemma_tokens_of_render(t.tokens());
    lemma_parse_term_tokens(t, Seq::empty());
    assert(t.tokens() + Seq::<Tok>::empty() =~= t.tokens());
}

impl Term {
    #[verifier::type_invariant]
    pub open spec fn inv(&self) -> bool {
        self@.wf()
    }

    /// A leaf: a literal, a nullary symbol or a pattern variable. `None`
    /// where `sym` is not a valid atom.
    pub fn leaf(sym: &str) -> (r: Option<Term>)
        ensures
            r is Some <==> valid_atom(sym@),
            r matches Some(t) ==> t@ == (TermView { head: sym@, args: Seq::empty() }),
    {
        if is_valid_atom(sym) {
            let t = Term { head: String::from_str(sym), args: Vec::new() };
            assert(t@.args =~= Seq::<TermView>::empty());
            Some(t)
        } else {
            None
        }
    }

    /// The operator `head` applied to `args`. `None` where `head` is not a
    /// valid atom.
    pub fn app(head: &str, args: Vec<Term>) -> (r: Option<Term>)
        ensures
            r is Some <==> valid_atom(head@),
            r matches Some(t) ==> t@ == (TermView { head: head@, args: terms_view(args@) }),
    {
        if is_valid_atom(head) {
            let mut i: usize = 0;
            while i < args.len()
                invariant
                    i <= args.len(),
                    forall|k: int| 0 <= k < i ==> (#[trigger] args@[k])@.wf(),
                decreases args.len() - i,
            {
                let a = &args[i];
                proof {
                    use_type_invariant(a);
                }
                i += 1;
            }
            proof {
                lemma_terms_view(args@);
            }
            Some(Term { head: String::from_str(head), args })
        } else {
            None
        }
    }

    /// The operator or leaf symbol.
    pub fn head(&self) -> (h: &str)
        ensures
            h@ == self@.head,
            valid_atom(h@),
    {
        proof {
            use_type_invariant(self);
        }
        self.head.as_str()
    }

    /// The number of arguments.
    pub fn arity(&self) -> (n: usize)
        ensures
            n == self@.args.len(),
    {
        proof {
            lemma_terms_view(self.args@);
        }
        self.args.len()
    }

    /// The arguments, in order.
    pub fn args(&self) -> (a: &Vec<Term>)
        ensures
            terms_view(a@) == self@.args,
            a@.len() == self@.args.len(),
            forall|i: int| 0 <= i < a@.len() ==> (#[trigger] a@[i])@ == self@.args[i],
    {
        proof {
            lemma_terms_view(self.args@);
        }
        &self.args
    }

    /// Whether the term is a pattern variable.
    pub fn is_variable(&self) -> (b: bool)
        ensures
            b == (self@.args.len() == 0 && is_variable(self@.head)),
    {
        proof {
            lemma_terms_view(self.args@);
        }
        self.args.len() == 0 && is_variable_name(self.head.as_str())
    }

    /// Whether two terms are the same tree.
    pub fn same(&self, other: &Term) -> (b: bool)
        ensures
            b == (self@ == other@),
        decreases self,
    {
        proof {
            lemma_terms_view(self.args@);
            lemma_terms_view(other.args@);
        }
        if !(self.head == other.head) || self.args.len() != other.args.len() {
            return false;
        }
        let mut i: usize = 0;
        while i < self.args.len()
            invariant
                i <= self.args.len(),
                self.args.len() == other.args.len(),
                self@.args.len() == self.args.len(),
                other@.args.len() == other.args.len(),
                forall|k: int| 0 <= k < self.args.len() ==> self@.args[k] == self.args@[k]@,
                forall|k: int| 0 <= k < other.args.len() ==> other@.args[k] == other.args@[k]@,
                forall|k: int| 0 <= k < i ==> self@.args[k] == other@.args[k],
            decreases self.args.len() - i,
        {
            if !self.args[i].same(&other.args[i]) {
                assert(self@.args[i as int] != other@.args[i as int]);
                return false;
            }
            i += 1;
        }
        assert(self@.args =~= other@.args);
        true
    }

    /// Appends the tokens of the term to `out`.
    pub fn push_tokens(&self, out: &mut Vec<Token>)
        ensures
            toks_view(final(out)@) == toks_view(old(out)@) + self@.tokens(),
        decreases self,
    {
        proof {
            lemma_terms_view(self.args@);
        }
        let ghost start = toks_view(out@);
        if self.args.len() == 0 {
            out.push(Token::Atom(self.head.clone()));
            assert(toks_view(out@) =~= start + self@.tokens());
        } else {
            out.push(Token::Open);
            out.push(Token::Atom(self.head.clone()));
            let ghost front = seq![Tok::Open, Tok::Atom(self@.head)];
            assert(toks_view(out@) =~= start + front + tokens_all(self@.args.take(0)));
            let mut i: usize = 0;
            while i < self.args.len()
                invariant
                    i <= self.args.len(),
                    self@.args.len() == self.args.len(),
                    forall|k: int| 0 <= k < self.args.len() ==> self@.args[k] == self.args@[k]@,
                    toks_view(out@) == start + front + tokens_all(self@.args.take(i as int)),
                decreases self.args.len() - i,
            {
                let ghost before = toks_view(out@);
                self.args[i].push_tokens(out);
                proof {
                    let done = self@.args.take(i as int);
                    let one = seq![self@.args[i as int]];
                    assert(self@.args.take(i + 1) =~= done + one);
                    lemma_tokens_all_concat(done, one);
                    assert(one.drop_first() =~= Seq::<TermView>::empty());
                    assert(tokens_all(Seq::<TermView>::empty()) =~= Seq::<Tok>::empty());
                    assert(tokens_all(one) =~= self@.args[i as int].tokens());
                    assert(toks_view(out@) =~= start + front + tokens_all(
                        self@.args.take(i + 1),
                    ));
                }
                i += 1;
            }
            let ghost inner = toks_view(out@);
            out.push(Token::Close);
            assert(self@.args.take(i as int) =~= self@.args);
            assert(toks_view(out@) =~= inner.push(Tok::Close));
            assert(self@.tokens() =~= front + tokens_all(self@.args) + seq![Tok::Close]);
            assert(toks_view(out@) =~= start + self@.tokens());
        }
    }

    /// The tokens of the term in prefix notation.
    pub fn tokens(&self) -> (out: Vec<Token>)
        ensures
            toks_view(out@) == self@.tokens(),
            toks_valid(toks_view(out@)),
    {
        let mut out: Vec<Token> = Vec::new();
        self.push_tokens(&mut out);
        proof {
            use_type_invariant(self);
            lemma_tokens_valid_term(self@);
            assert(toks_view(out@) =~= self@.tokens());
        }
        out
    }

    /// The canonical text of the term.
    pub fn render(&self) -> (s: String)
        ensures
            s@ == self@.text(),
    {
        let toks = self.tokens();
        render(&toks)
    }

    /// The pattern variables of the term, each once, in the order in which
    /// they first occur.
    pub fn variables(&self) -> (vars: Vec<String>)
        ensures
            strs_view(vars@) == distinct_variables(self@.tokens()),
            strs_view(vars@).no_duplicates(),
            strs_view(vars@).to_set() == self@.variables(),
    {
        let toks = self.tokens();
        let vars = variables_of(&toks);
        proof {
            lemma_distinct_variables(self@.tokens());
        }
        vars
    }

    /// Reads a text that holds exactly one term.
    pub fn parse(text: &str) -> (r: Result<Term, ParseError>)
        ensures
            match r {
                Ok(t) => parse_term_text(text@) == Ok::<TermView, ParseError>(t@),
                Err(e) => parse_term_text(text@) == Err::<TermView, ParseError>(e),
            },
    {
        let toks = tokenize(text);
        assert(toks_view(toks@).skip(0) =~= toks_view(toks@));
        match parse_term_at(&toks, 0) {
            None => Err(ParseError::MalformedTerm),
            Some((t, next)) => {
                if next == toks.len() {
                    Ok(t)
                } else {
                    Err(ParseError::TrailingInput)
                }
            },
        }
    }
}

/// The pattern variables among `toks`, each once, in the order in which they
/// first occur.
pub fn variables_of(toks: &Vec<Token>) -> (vars: Vec<String>)
    ensures
        strs_view(vars@) == distinct_variables(toks_view(toks@)),
{
    let ghost all = toks_view(toks@);
    let mut vars: Vec<String> = Vec::new();
    let mut i: usize = 0;
    assert(strs_view(vars@) =~= distinct_variables(all.take(0)));
    while i < toks.len()
        invariant
            i <= toks.len(),
            all == toks_view(toks@),
            strs_view(vars@) == distinct_variables(all.take(i as int)),
        decreases toks.len() - i,
    {
        let ghost before = strs_view(vars@);
        proof {
            let done = all.take(i + 1);
            assert(done.drop_last() =~= all.take(i as int));
            assert(done.last() == toks@[i as int]@);
        }
        match &toks[i] {
            Token::Atom(a) => {
                if is_variable_name(a.as_str()) && !contains_string(&vars, a) {
                    vars.push(a.clone());
                    assert(strs_view(vars@) =~= before.push(a@));
                }
            },
            _ => {},
        }
        i += 1;
    }
    assert(all.take(i as int) =~= all);
    vars
}

/// Reads one term that starts at place `pos`; gives the term and the place
/// after it.
pub(crate) fn parse_term_at(toks: &Vec<Token>, pos: usize) -> (r: Option<(Term, usize)>)
    requires
        pos <= toks.len(),
        toks_valid(toks_view(toks@)),
    ensures
        match r {
            Some((t, next)) => pos < next <= toks.len() && parse_term(
                toks_view(toks@).skip(pos as int),
            ) == Some((t@, toks_view(toks@).skip(next as int))),
            None => parse_term(toks_view(toks@).skip(pos as int)) is None,
        },
    decreases toks.len() - pos, 0int,
{
    let ghost all = toks_view(toks@);
    let ghost here = all.skip(pos as int);
    if pos >= toks.len() {
        return None;
    }
    proof {
        lemma_valid_suffix(all, pos as int);
        lemma_parse_term_wf(here);
        assert(here[0] == toks@[pos as int]@);
        assert(here.drop_first() =~= all.skip(pos + 1));
    }
    match &toks[pos] {
        Token::Atom(a) => {
            let t = Term { head: a.clone(), args: Vec::new() };
            assert(t@.args =~= Seq::<TermView>::empty());
            Some((t, pos + 1))
        },
        Token::Close => None,
        Token::Open => {
            if pos + 1 >= toks.len() {
                return None;
            }
            proof {
                assert(here[1] == toks@[pos + 1]@);
                assert(here.skip(2) =~= all.skip(pos + 2));
            }
            match &toks[pos + 1] {
                Token::Atom(a) => {
                    match parse_args_at(toks, pos + 2) {
                        Some((args, next)) => {
                            let t = Term { head: a.clone(), args };
                            Some((t, next))
                        },
                        None => None,
                    }
                },
                _ => None,
            }
        },
    }
}

/// Reads the arguments that start at place `pos` up to their closing
/// parenthesis; gives the arguments and the place after that parenthesis.
pub(crate) fn parse_args_at(toks: &Vec<Token>, pos: usize) -> (r: Option<(Vec<Term>, usize)>)
    requires
        pos <= toks.len(),
        toks_valid(toks_view(toks@)),
    ensures
        match r {
            Some((args, next)) => pos < next <= toks.len() && parse_args(
                toks_view(toks@).skip(pos as int),
            ) == Some((terms_view(args@), toks_view(toks@).skip(next as int))),
            None => parse_args(toks_view(toks@).skip(pos as int)) is None,
        },
    decreases toks.len() - pos, 1int,
{
    let ghost all = toks_view(toks@);
    let ghost goal = parse_args(all.skip(pos as int));
    let mut args: Vec<Term> = Vec::new();
    let mut cur: usize = pos;
    proof {
        let r = parse_args(all.skip(pos as int));
        if let Some((ts, rest)) = r {
            assert(terms_view(args@) + ts =~= ts);
        }
    }
    loop
        invariant
            pos <= cur <= toks.len(),
            all == toks_view(toks@),
            toks_valid(all),
            goal == parse_args(all.skip(pos as int)),
            goal == with_front(terms_view(args@), parse_args(all.skip(cur as int))),
        decreases toks.len() - cur,
    {
        let ghost here = all.skip(cur as int);
        if cur >= toks.len() {
            return None;
        }
        proof {
            assert(here[0] == toks@[cur as int]@);
            assert(here.drop_first() =~= all.skip(cur + 1));
        }
        if let Token::Close = &toks[cur] {
            assert(terms_view(args@) + Seq::<TermView>::empty() =~= terms_view(args@));
            return Some((args, cur + 1));
        }
        match parse_term_at(toks, cur) {
            None => {
                return None;
            },
            Some((t, next)) => {
                proof {
                    let front = terms_view(args@);
                    let after = all.skip(next as int);
                    let r = parse_args(after);
                    assert(!(here[0] is Close));
                    assert(parse_term(here) == Some((t@, after)));
                    assert(after.len() < here.len());
                    assert(parse_args(here) == with_front(seq![t@], r));
                    if let Some((ts, rest)) = r {
                        assert(front + (seq![t@] + ts) =~= front.push(t@) + ts);
                    }
                }
                let ghost front = args@;
                args.push(t);
                assert(args@.drop_last() =~= front);
                cur = next;
            },
        }
    }
}

} // verus!
