//! The lexical layer: characters, tokens, and the canonical spacing of a
//! token sequence.
//!
//! Rule sets are written in a parenthesized prefix notation. A line of text is
//! cut into three kinds of tokens: an opening parenthesis, a closing
//! parenthesis, and an atom (a maximal run of characters that are neither
//! whitespace nor parentheses). Everything above this layer works on tokens,
//! so two texts that differ only in whitespace are indistinguishable to the
//! rest of the library.

use vstd::prelude::*;
use vstd::string::*;

verus! {

/// Whitespace separates tokens and is otherwise ignored.
pub open spec fn is_space(c: char) -> bool {
    c == ' ' || c == '\t' || c == '\n' || c == '\r'
}

/// A delimiter ends an atom: whitespace or a parenthesis.
pub open spec fn is_delim(c: char) -> bool {
    is_space(c) || c == '(' || c == ')'
}

/// An atom is a nonempty run of characters none of which is a delimiter.
pub open spec fn valid_atom(a: Seq<char>) -> bool {
    a.len() > 0 && forall|i: int| 0 <= i < a.len() ==> !is_delim(#[trigger] a[i])
}

/// A pattern variable is an atom that starts with a question mark.
pub open spec fn is_variable(a: Seq<char>) -> bool {
    a.len() > 0 && a[0] == '?'
}

/// The mathematical form of a token.
pub enum Tok {
    Open,
    Close,
    Atom(Seq<char>),
}

/// A token of rule text.
#[derive(Debug)]
pub enum Token {
    Open,
    Close,
    Atom(String),
}

impl View for Token {
    type V = Tok;

    open spec fn view(&self) -> Tok {
        match self {
            Token::Open => Tok::Open,
            Token::Close => Tok::Close,
            Token::Atom(a) => Tok::Atom(a@),
        }
    }
}

impl Clone for Token {
    fn clone(&self) -> (res: Token)
        ensures
            res@ == self@,
    {
        match self {
            Token::Open => Token::Open,
            Token::Close => Token::Close,
            Token::Atom(a) => Token::Atom(a.clone()),
        }
    }
}

/// The tokens of a vector, each taken by its view.
pub open spec fn toks_view(v: Seq<Token>) -> Seq<Tok> {
    v.map_values(|t: Token| t@)
}

/// The strings of a vector, each taken by its view.
pub open spec fn strs_view(v: Seq<String>) -> Seq<Seq<char>> {
    v.map_values(|s: String| s@)
}

/// Every atom among `toks` is a valid atom.
pub open spec fn toks_valid(toks: Seq<Tok>) -> bool {
    forall|i: int|
        0 <= i < toks.len() ==> ((#[trigger] toks[i]) matches Tok::Atom(a) ==> valid_atom(a))
}

/// The number of characters at the front of `s` that belong to one atom.
pub open spec fn atom_len(s: Seq<char>) -> nat
    decreases s.len(),
{
    if s.len() == 0 || is_delim(s[0]) {
        0
    } else {
        1 + atom_len(s.drop_first())
    }
}

/// The tokens of a text, in order.
pub open spec fn tokens_of(s: Seq<char>) -> Seq<Tok>
    decreases s.len(),
{
    if s.len() == 0 {
        Seq::empty()
    } else if is_space(s[0]) {
        tokens_of(s.drop_first())
    } else if s[0] == '(' {
        seq![Tok::Open] + tokens_of(s.drop_first())
    } else if s[0] == ')' {
        seq![Tok::Close] + tokens_of(s.drop_first())
    } else {
        let n = atom_len(s) as int;
        proof {
            lemma_atom_len_bounds(s);
        }
        seq![Tok::Atom(s.take(n))] + tokens_of(s.skip(n))
    }
}

/// The characters of one token.
pub open spec fn tok_text(t: Tok) -> Seq<char> {
    match t {
        Tok::Open => seq!['('],
        Tok::Close => seq![')'],
        Tok::Atom(a) => a,
    }
}

/// Whether the canonical text puts a blank between `t` and the token `next`
/// that follows it: always, except after an opening and before a closing
/// parenthesis.
pub open spec fn needs_blank(t: Tok, next: Tok) -> bool {
    !(t is Open) && !(next is Close)
}

/// The canonical text of a token sequence: one blank between neighbours,
/// none inside the parentheses.
pub open spec fn render_tokens(toks: Seq<Tok>) -> Seq<char>
    decreases toks.len(),
{
    if toks.len() == 0 {
        Seq::empty()
    } else if toks.len() == 1 {
        tok_text(toks[0])
    } else if needs_blank(toks[0], toks[1]) {
        tok_text(toks[0]) + seq![' '] + render_tokens(toks.drop_first())
    } else {
        tok_text(toks[0]) + render_tokens(toks.drop_first())
    }
}

/// An atom's characters never outnumber the text, and a text that starts
/// with a character of an atom has at least one.
pub proof fn lemma_atom_len_bounds(s: Seq<char>)
    ensures
        atom_len(s) <= s.len(),
        s.len() > 0 && !is_delim(s[0]) ==> atom_len(s) >= 1,
        forall|i: int| 0 <= i < atom_len(s) ==> !is_delim(#[trigger] s[i]),
        atom_len(s) < s.len() ==> is_delim(s[atom_len(s) as int]),
    decreases s.len(),
{
    if s.len() == 0 || is_delim(s[0]) {
    } else {
        let rest = s.drop_first();
        lemma_atom_len_bounds(rest);
        assert forall|i: int| 0 <= i < atom_len(s) implies !is_delim(#[trigger] s[i]) by {
            if i > 0 {
                assert(s[i] == rest[i - 1]);
            }
        }
        if atom_len(s) < s.len() {
            assert(s[atom_len(s) as int] == rest[atom_len(rest) as int]);
        }
    }
}

/// Tokenizing yields valid atoms only.
pub proof fn lemma_tokens_valid(s: Seq<char>)
    ensures
        toks_valid(tokens_of(s)),
    decreases s.len(),
{
    if s.len() == 0 {
    } else if is_space(s[0]) || s[0] == '(' || s[0] == ')' {
        lemma_tokens_valid(s.drop_first());
    } else {
        let n = atom_len(s) as int;
        lemma_atom_len_bounds(s);
        lemma_tokens_valid(s.skip(n));
        assert(valid_atom(s.take(n)));
    }
}

/// An atom followed by the end of the text or by a delimiter is read back
/// whole.
pub proof fn lemma_atom_len_prefix(a: Seq<char>, rest: Seq<char>)
    requires
        forall|i: int| 0 <= i < a.len() ==> !is_delim(#[trigger] a[i]),
        rest.len() == 0 || is_delim(rest[0]),
    ensures
        atom_len(a + rest) == a.len(),
    decreases a.len(),
{
    let s = a + rest;
    if a.len() == 0 {
        assert(s =~= rest);
    } else {
        assert(s[0] == a[0]);
        assert(s.drop_first() =~= a.drop_first() + rest);
        lemma_atom_len_prefix(a.drop_first(), rest);
    }
}

/// The first character of the canonical text of a nonempty sequence of valid
/// tokens is a delimiter exactly when the first token is a parenthesis.
pub proof fn lemma_render_first(toks: Seq<Tok>)
    requires
        toks.len() > 0,
        toks_valid(toks),
    ensures
        render_tokens(toks).len() > 0,
        toks[0] is Open ==> render_tokens(toks)[0] == '(',
        toks[0] is Close ==> render_tokens(toks)[0] == ')',
        toks[0] is Atom ==> !is_delim(render_tokens(toks)[0]),
{
    let t = toks[0];
    assert(t matches Tok::Atom(a) ==> valid_atom(a));
    if let Tok::Atom(a) = t {
        assert(!is_delim(a[0]));
    }
}

/// Reading the canonical text of a token sequence gives the sequence back.
pub proof fn lemma_tokens_of_render(toks: Seq<Tok>)
    requires
        toks_valid(toks),
    ensures
        tokens_of(render_tokens(toks)) == toks,
    decreases toks.len(),
{
    if toks.len() == 0 {
    } else {
        let t = toks[0];
        let rest = toks.drop_first();
        assert(toks_valid(rest)) by {
            assert forall|i: int| 0 <= i < rest.len() implies ((#[trigger] rest[i]) matches Tok::Atom(
                a,
            ) ==> valid_atom(a)) by {
                assert(rest[i] == toks[i + 1]);
            }
        }
        lemma_tokens_of_render(rest);
        let blank = toks.len() > 1 && needs_blank(toks[0], toks[1]);
        // What follows the first token's own characters.
        let tail = if toks.len() == 1 {
            Seq::<char>::empty()
        } else if blank {
            seq![' '] + render_tokens(rest)
        } else {
            render_tokens(rest)
        };
        let text = render_tokens(toks);
        assert(text =~= tok_text(t) + tail);
        assert(tokens_of(tail) == rest) by {
            if toks.len() == 1 {
                assert(rest =~= Seq::<Tok>::empty());
            } else if blank {
                assert(tail[0] == ' ');
                assert(tail.drop_first() =~= render_tokens(rest));
            }
        }
        if toks.len() > 1 {
            assert(rest[0] == toks[1]);
            lemma_render_first(rest);
        }
        match t {
            Tok::Open => {
                assert(text[0] == '(');
                assert(text.drop_first() =~= tail);
            },
            Tok::Close => {
                assert(text[0] == ')');
                assert(text.drop_first() =~= tail);
            },
            Tok::Atom(a) => {
                assert(valid_atom(a));
                assert(tail.len() == 0 || is_delim(tail[0]));
                lemma_atom_len_prefix(a, tail);
                assert(text[0] == a[0]);
                assert(text.take(a.len() as int) =~= a);
                assert(text.skip(a.len() as int) =~= tail);
            },
        }
        assert(tokens_of(text) =~= seq![t] + rest);
        assert(toks =~= seq![t] + rest);
    }
}

/// Whether `c` is whitespace.
pub fn is_space_char(c: char) -> (b: bool)
    ensures
        b == is_space(c),
{
    c == ' ' || c == '\t' || c == '\n' || c == '\r'
}

/// Whether `c` ends an atom.
pub fn is_delim_char(c: char) -> (b: bool)
    ensures
        b == is_delim(c),
{
    is_space_char(c) || c == '(' || c == ')'
}

/// The characters of a text, one by one.
pub fn to_chars(s: &str) -> (v: Vec<char>)
    ensures
        v@ == s@,
{
    let mut v: Vec<char> = Vec::new();
    for c in it: s.chars()
        invariant
            v@ == it.seq().take(it.index() as int),
            it.seq() == s@,
    {
        v.push(c);
    }
    v
}

/// The characters of `text` from place `from` up to place `to`. A text of
/// ASCII characters is cut in constant time.
pub(crate) fn piece<'a>(text: &'a str, ascii: bool, from: usize, to: usize) -> (p: &'a str)
    requires
        ascii ==> text.is_ascii(),
        from <= to <= text@.len(),
    ensures
        p@ == text@.subrange(from as int, to as int),
{
    if ascii {
        text.substring_ascii(from, to)
    } else {
        text.substring_char(from, to)
    }
}

/// Cuts a text into its tokens.
pub fn tokenize(s: &str) -> (out: Vec<Token>)
    ensures
        toks_view(out@) == tokens_of(s@),
        toks_valid(toks_view(out@)),
{
    let chars = to_chars(s);
    let ascii = s.is_ascii();
    let n = chars.len();
    let mut out: Vec<Token> = Vec::new();
    let mut i: usize = 0;
    assert(s@.skip(0) =~= s@);
    while i < n
        invariant
            chars@ == s@,
            ascii ==> s.is_ascii(),
            n == chars.len(),
            i <= n,
            tokens_of(s@) == toks_view(out@) + tokens_of(s@.skip(i as int)),
        decreases n - i,
    {
        let ghost here = s@.skip(i as int);
        let ghost before = toks_view(out@);
        let c = chars[i];
        assert(here[0] == c);
        assert(here.drop_first() =~= s@.skip(i + 1));
        if is_space_char(c) {
            i += 1;
        } else if c == '(' {
            out.push(Token::Open);
            i += 1;
            assert(toks_view(out@) =~= before + seq![Tok::Open]);
        } else if c == ')' {
            out.push(Token::Close);
            i += 1;
            assert(toks_view(out@) =~= before + seq![Tok::Close]);
        } else {
            let mut j: usize = i + 1;
            assert(atom_len(here) == 1 + atom_len(here.drop_first()));
            while j < n && !is_delim_char(chars[j])
                invariant
                    chars@ == s@,
                    n == chars.len(),
                    i < j <= n,
                    atom_len(s@.skip(i as int)) == (j - i) + atom_len(s@.skip(j as int)),
                decreases n - j,
            {
                let ghost at = s@.skip(j as int);
                assert(at[0] == chars[j as int]);
                assert(at.drop_first() =~= s@.skip(j + 1));
                j += 1;
            }
            proof {
                let at = s@.skip(j as int);
                if j < n {
                    assert(at[0] == chars[j as int]);
                }
                assert(atom_len(at) == 0);
                assert(here.take((j - i) as int) =~= s@.subrange(i as int, j as int));
                assert(here.skip((j - i) as int) =~= at);
            }
            let atom = String::from_str(piece(s, ascii, i, j));
            out.push(Token::Atom(atom));
            assert(toks_view(out@) =~= before + seq![Tok::Atom(here.take((j - i) as int))]);
            i = j;
        }
    }
    proof {
        assert(s@.skip(n as int) =~= Seq::<char>::empty());
        assert(toks_view(out@) =~= tokens_of(s@));
        lemma_tokens_valid(s@);
    }
    out
}

/// Writes a token sequence in its canonical spacing.
pub fn render(toks: &Vec<Token>) -> (out: String)
    ensures
        out@ == render_tokens(toks_view(toks@)),
{
    let ghost all = toks_view(toks@);
    let mut out = String::new();
    let n = toks.len();
    let mut i: usize = 0;
    proof {
        reveal_strlit("(");
        reveal_strlit(")");
        reveal_strlit(" ");
        assert("("@ =~= seq!['(']);
        assert(")"@ =~= seq![')']);
        assert(" "@ =~= seq![' ']);
        assert(all.skip(0) =~= all);
    }
    while i < n
        invariant
            n == toks.len(),
            i <= n,
            all == toks_view(toks@),
            "("@ == seq!['('],
            ")"@ == seq![')'],
            " "@ == seq![' '],
            render_tokens(all) == out@ + render_tokens(all.skip(i as int)),
        decreases n - i,
    {
        let ghost here = all.skip(i as int);
        let ghost before = out@;
        assert(here[0] == toks[i as int]@);
        assert(here.drop_first() =~= all.skip(i + 1));
        match &toks[i] {
            Token::Open => {
                out.append("(");
            },
            Token::Close => {
                out.append(")");
            },
            Token::Atom(a) => {
                out.append(a.as_str());
            },
        }
        assert(out@ == before + tok_text(here[0]));
        if i + 1 < n {
            assert(here[1] == toks[i + 1]@);
            let blank = match (&toks[i], &toks[i + 1]) {
                (Token::Open, _) => false,
                (_, Token::Close) => false,
                _ => true,
            };
            assert(blank == needs_blank(here[0], here[1]));
            if blank {
                out.append(" ");
            }
        }
        assert(render_tokens(all) =~= out@ + render_tokens(all.skip(i + 1)));
        i += 1;
    }
    assert(all.skip(n as int) =~= Seq::<Tok>::empty());
    assert(out@ =~= render_tokens(all));
    out
}

/// Whether a text is a valid atom.
pub fn is_valid_atom(s: &str) -> (b: bool)
    ensures
        b == valid_atom(s@),
{
    let chars = to_chars(s);
    if chars.len() == 0 {
        return false;
    }
    let mut i: usize = 0;
    while i < chars.len()
        invariant
            chars@ == s@,
            i <= chars.len(),
            forall|k: int| 0 <= k < i ==> !is_delim(#[trigger] chars@[k]),
        decreases chars.len() - i,
    {
        if is_delim_char(chars[i]) {
            return false;
        }
        i += 1;
    }
    true
}

/// Whether an atom names a pattern variable.
pub fn is_variable_name(s: &str) -> (b: bool)
    ensures
        b == is_variable(s@),
{
    s.unicode_len() > 0 && s.get_char(0) == '?'
}

/// Whether `s` is among the strings of `v`.
pub fn contains_string(v: &Vec<String>, s: &String) -> (b: bool)
    ensures
        b == strs_view(v@).contains(s@),
{
    let mut i: usize = 0;
    while i < v.len()
        invariant
            i <= v.len(),
            forall|k: int| 0 <= k < i ==> strs_view(v@)[k] != s@,
        decreases v.len() - i,
    {
        if v[i] == *s {
            assert(strs_view(v@)[i as int] == s@);
            return true;
        }
        i += 1;
    }
    false
}

/// Whether every string of `a` is among the strings of `b`.
pub fn all_contained(a: &Vec<String>, b: &Vec<String>) -> (r: bool)
    ensures
        r == strs_view(a@).to_set().subset_of(strs_view(b@).to_set()),
{
    let mut i: usize = 0;
    while i < a.len()
        invariant
            i <= a.len(),
            forall|k: int| 0 <= k < i ==> strs_view(b@).contains(#[trigger] strs_view(a@)[k]),
        decreases a.len() - i,
    {
        if !contains_string(b, &a[i]) {
            assert(strs_view(a@).to_set().contains(strs_view(a@)[i as int]));
            return false;
        }
        i += 1;
    }
    assert forall|x: Seq<char>|
        strs_view(a@).to_set().contains(x) implies strs_view(b@).to_set().contains(x) by {
        let k = choose|k: int| 0 <= k < strs_view(a@).len() && strs_view(a@)[k] == x;
        assert(strs_view(b@).contains(strs_view(a@)[k]));
    }
    true
}

} // verus!
