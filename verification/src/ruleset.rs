//! Rule sets: ordered collections of distinct rules, and how they are read
//! from text.
//!
//! A rule-set text is a sequence of lines. A blank line is ignored. A line
//! that does not parse is skipped and reported, and so is a rule whose
//! right-hand side uses a variable that its left-hand side does not bind.
//! A line written with `<=>` contributes its two directions independently.
//! A rule that is already in the set is not added again.

use vstd::prelude::*;
use vstd::string::*;
use crate::rule::{parse_line, rules_view, LineView, ParsedLine, Rule, RuleView};
use crate::term::ParseError;
use crate::text::{piece, strs_view, to_chars, tokens_of};

verus! {

/// Where a rule set comes from.
#[derive(Debug)]
pub enum Provenance {
    /// The reference rule set.
    Reference,
    /// A synthesized rule set, with the path it was read from.
    Synthesized(String),
    /// A rule set made from another by filtering.
    Filtered,
}

/// The mathematical form of a provenance tag.
pub enum ProvenanceView {
    Reference,
    Synthesized(Seq<char>),
    Filtered,
}

impl View for Provenance {
    type V = ProvenanceView;

    open spec fn view(&self) -> ProvenanceView {
        match self {
            Provenance::Reference => ProvenanceView::Reference,
            Provenance::Synthesized(p) => ProvenanceView::Synthesized(p@),
            Provenance::Filtered => ProvenanceView::Filtered,
        }
    }
}

impl Clone for Provenance {
    fn clone(&self) -> (res: Provenance)
        ensures
            res@ == self@,
    {
        match self {
            Provenance::Reference => Provenance::Reference,
            Provenance::Synthesized(p) => Provenance::Synthesized(p.clone()),
            Provenance::Filtered => Provenance::Filtered,
        }
    }
}

/// A sequence of rules is a rule set when its rules are well formed and no
/// rule occurs twice.
pub open spec fn is_ruleset(rs: Seq<RuleView>) -> bool {
    &&& rs.no_duplicates()
    &&& forall|i: int| 0 <= i < rs.len() ==> (#[trigger] rs[i]).wf()
}

/// The sequence with `r` at its end, unless `r` is in it already.
pub open spec fn add_rule(rs: Seq<RuleView>, r: RuleView) -> Seq<RuleView> {
    if rs.contains(r) {
        rs
    } else {
        rs.push(r)
    }
}

/// The sequence with the rules of `more` added one by one.
pub open spec fn add_all(rs: Seq<RuleView>, more: Seq<RuleView>) -> Seq<RuleView>
    decreases more.len(),
{
    if more.len() == 0 {
        rs
    } else {
        add_rule(add_all(rs, more.drop_last()), more.last())
    }
}

/// The rules whose flag is set, in order. Nothing where the flags do not
/// match the rules in number.
pub open spec fn pick(rs: Seq<RuleView>, flags: Seq<bool>) -> Seq<RuleView>
    decreases rs.len(),
{
    if rs.len() == 0 || flags.len() != rs.len() {
        Seq::empty()
    } else if flags.last() {
        pick(rs.drop_last(), flags.drop_last()).push(rs.last())
    } else {
        pick(rs.drop_last(), flags.drop_last())
    }
}

/// The names of the rules, in order.
pub open spec fn names_of(rs: Seq<RuleView>) -> Seq<Seq<char>> {
    rs.map_values(|r: RuleView| r.name())
}

/// The number of characters before the first line feed.
pub open spec fn line_len(s: Seq<char>) -> nat
    decreases s.len(),
{
    if s.len() == 0 || s[0] == '\n' {
        0
    } else {
        1 + line_len(s.drop_first())
    }
}

/// The pieces of a text between line feeds. A text without a line feed is
/// one line; a text that ends in a line feed has an empty last line.
pub open spec fn lines_of(s: Seq<char>) -> Seq<Seq<char>>
    decreases s.len(),
{
    let n = line_len(s) as int;
    if n >= s.len() {
        seq![s]
    } else {
        seq![s.take(n)] + lines_of(s.skip(n + 1))
    }
}

/// A line without a token.
pub open spec fn is_blank(line: Seq<char>) -> bool {
    tokens_of(line).len() == 0
}

/// The rule alone where its variables are in scope, nothing otherwise.
pub open spec fn scoped(r: RuleView) -> Seq<RuleView> {
    if r.well_scoped() {
        seq![r]
    } else {
        Seq::empty()
    }
}

/// The rules that one line contributes.
pub open spec fn line_rules(line: Seq<char>) -> Seq<RuleView> {
    match parse_line(line) {
        Err(_) => Seq::empty(),
        Ok(LineView::Unidirectional(r)) => scoped(r),
        Ok(LineView::Bidirectional(f, b)) => scoped(f) + scoped(b),
    }
}

/// The rules that the lines contribute, without repetition, in the order in
/// which they first occur.
pub open spec fn load_lines(lines: Seq<Seq<char>>) -> Seq<RuleView>
    decreases lines.len(),
{
    if lines.len() == 0 {
        Seq::empty()
    } else {
        add_all(load_lines(lines.drop_last()), line_rules(lines.last()))
    }
}

/// Why a line, or one direction of it, did not enter the rule set.
#[derive(Clone, Copy, PartialEq, Eq, Debug, Structural)]
pub enum SkipReason {
    /// The line is not a rule.
    Unparsable(ParseError),
    /// The rule, read left to right, has a right-hand variable that its
    /// left-hand side does not bind.
    UnboundVariable,
    /// The same, for the backward direction of a line written with `<=>`.
    UnboundVariableBackward,
}

/// One report of a line that was skipped, with the line's place counted
/// from zero.
#[derive(Clone, Copy, PartialEq, Eq, Debug, Structural)]
pub struct Skipped {
    pub line: usize,
    pub reason: SkipReason,
}

/// The reasons for which one line, or a direction of it, is skipped.
pub open spec fn line_skips(line: Seq<char>) -> Seq<SkipReason> {
    if is_blank(line) {
        Seq::empty()
    } else {
        match parse_line(line) {
            Err(e) => seq![SkipReason::Unparsable(e)],
            Ok(LineView::Unidirectional(r)) => if r.well_scoped() {
                Seq::empty()
            } else {
                seq![SkipReason::UnboundVariable]
            },
            Ok(LineView::Bidirectional(f, b)) => (if f.well_scoped() {
                Seq::<SkipReason>::empty()
            } else {
                seq![SkipReason::UnboundVariable]
            }) + (if b.well_scoped() {
                Seq::<SkipReason>::empty()
            } else {
                seq![SkipReason::UnboundVariableBackward]
            }),
        }
    }
}

/// The reports for the lines, in order.
pub open spec fn skips_of(lines: Seq<Seq<char>>) -> Seq<Skipped>
    decreases lines.len(),
{
    if lines.len() == 0 {
        Seq::empty()
    } else {
        let at = (lines.len() - 1) as usize;
        skips_of(lines.drop_last()) + line_skips(lines.last()).map_values(
            |reason: SkipReason| Skipped { line: at, reason },
        )
    }
}

/// A line written with `<=>`.
pub open spec fn is_bidirectional(line: Seq<char>) -> bool {
    parse_line(line) matches Ok(LineView::Bidirectional(_, _))
}

/// In a rule set no two rules have the same name: the name identifies the
/// rule.
pub proof fn lemma_names_distinct(rs: Seq<RuleView>)
    requires
        is_ruleset(rs),
    ensures
        names_of(rs).no_duplicates(),
{
    assert forall|i: int, j: int|
        0 <= i < rs.len() && 0 <= j < rs.len() && i != j implies names_of(rs)[i] != names_of(
        rs,
    )[j] by {
        if rs[i].name() == rs[j].name() {
            crate::rule::lemma_name_injective(rs[i], rs[j]);
        }
    }
}

/// Adding a rule to a rule set gives a rule set.
pub proof fn lemma_add_rule(rs: Seq<RuleView>, r: RuleView)
    requires
        is_ruleset(rs),
        r.wf(),
    ensures
        is_ruleset(add_rule(rs, r)),
        add_rule(rs, r).contains(r),
        forall|x: RuleView| rs.contains(x) ==> add_rule(rs, r).contains(x),
        forall|x: RuleView| add_rule(rs, r).contains(x) ==> rs.contains(x) || x == r,
{
    let out = add_rule(rs, r);
    if !rs.contains(r) {
        assert(out[rs.len() as int] == r);
        assert forall|x: RuleView| rs.contains(x) implies out.contains(x) by {
            let k = choose|k: int| 0 <= k < rs.len() && rs[k] == x;
            assert(out[k] == x);
        }
    }
}

/// Adding rules to a rule set gives a rule set that holds exactly the old
/// rules and the new ones.
pub proof fn lemma_add_all(rs: Seq<RuleView>, more: Seq<RuleView>)
    requires
        is_ruleset(rs),
        forall|i: int| 0 <= i < more.len() ==> (#[trigger] more[i]).wf(),
    ensures
        is_ruleset(add_all(rs, more)),
        forall|x: RuleView| add_all(rs, more).contains(x) <==> rs.contains(x) || more.contains(x),
    decreases more.len(),
{
    if more.len() > 0 {
        let front = more.drop_last();
        let mid = add_all(rs, front);
        assert forall|i: int| 0 <= i < front.len() implies (#[trigger] front[i]).wf() by {
            assert(front[i] == more[i]);
        }
        lemma_add_all(rs, front);
        assert(more.last().wf());
        lemma_add_rule(mid, more.last());
        assert forall|x: RuleView| add_all(rs, more).contains(x) <==> rs.contains(x)
            || more.contains(x) by {
            if more.contains(x) {
                let k = choose|k: int| 0 <= k < more.len() && more[k] == x;
                if k < front.len() {
                    assert(front[k] == x);
                }
            }
            if front.contains(x) {
                let k = choose|k: int| 0 <= k < front.len() && front[k] == x;
                assert(more[k] == x);
            }
        }
    }
}

/// The rules that a line contributes are well formed and in scope.
pub proof fn lemma_line_rules(line: Seq<char>)
    ensures
        forall|i: int|
            0 <= i < line_rules(line).len() ==> (#[trigger] line_rules(line)[i]).wf()
                && line_rules(line)[i].well_scoped(),
{
    crate::text::lemma_tokens_valid(line);
    crate::rule::lemma_parse_rule_wf(tokens_of(line));
}

/// What is read from lines is a rule set, and each of its rules is in scope.
pub proof fn lemma_load_lines(lines: Seq<Seq<char>>)
    ensures
        is_ruleset(load_lines(lines)),
        forall|i: int|
            0 <= i < load_lines(lines).len() ==> (#[trigger] load_lines(lines)[i]).well_scoped(),
    decreases lines.len(),
{
    if lines.len() > 0 {
        let before = load_lines(lines.drop_last());
        let more = line_rules(lines.last());
        lemma_load_lines(lines.drop_last());
        lemma_line_rules(lines.last());
        lemma_add_all(before, more);
        let out = load_lines(lines);
        assert forall|i: int| 0 <= i < out.len() implies (#[trigger] out[i]).well_scoped() by {
            assert(out.contains(out[i]));
            if before.contains(out[i]) {
                let k = choose|k: int| 0 <= k < before.len() && before[k] == out[i];
                assert(before[k].well_scoped());
            } else {
                let k = choose|k: int| 0 <= k < more.len() && more[k] == out[i];
                assert(more[k].well_scoped());
            }
        }
    }
}

/// A rule is read from lines exactly where some line contributes it.
pub proof fn lemma_load_membership(lines: Seq<Seq<char>>, r: RuleView)
    ensures
        load_lines(lines).contains(r) <==> exists|i: int|
            0 <= i < lines.len() && line_rules(#[trigger] lines[i]).contains(r),
    decreases lines.len(),
{
    if lines.len() > 0 {
        let front = lines.drop_last();
        let before = load_lines(front);
        let more = line_rules(lines.last());
        lemma_load_membership(front, r);
        lemma_load_lines(front);
        lemma_line_rules(lines.last());
        lemma_add_all(before, more);
        if exists|i: int| 0 <= i < lines.len() && line_rules(#[trigger] lines[i]).contains(r) {
            let i = choose|i: int|
                0 <= i < lines.len() && line_rules(#[trigger] lines[i]).contains(r);
            if i < front.len() {
                assert(line_rules(front[i]).contains(r));
            }
        }
        if before.contains(r) {
            let i = choose|i: int|
                0 <= i < front.len() && line_rules(#[trigger] front[i]).contains(r);
            assert(line_rules(lines[i]).contains(r));
        }
        if more.contains(r) {
            assert(line_rules(lines[lines.len() - 1]).contains(r));
        }
    }
}

/// A rule set: distinct rules in a fixed order, with a provenance tag.
#[derive(Debug)]
pub struct Ruleset {
    rules: Vec<Rule>,
    provenance: Provenance,
}

impl View for Ruleset {
    type V = Seq<RuleView>;

    closed spec fn view(&self) -> Seq<RuleView> {
        rules_view(self.rules@)
    }
}

/// A rule set and the reports of what was skipped while it was read.
#[derive(Debug)]
pub struct Loaded {
    pub ruleset: Ruleset,
    pub skipped: Vec<Skipped>,
}

/// Why a rule set that must hold one-directional lines only was not read.
#[derive(Clone, Copy, PartialEq, Eq, Debug, Structural)]
pub enum LoadError {
    /// The line at this place, counted from zero, is written with `<=>`.
    UnexpectedBidirectional(usize),
}

/// Whether `rule` is among `rules`.
fn holds(rules: &Vec<Rule>, rule: &Rule) -> (b: bool)
    ensures
        b == rules_view(rules@).contains(rule@),
{
    let mut i: usize = 0;
    while i < rules.len()
        invariant
            i <= rules.len(),
            forall|k: int| 0 <= k < i ==> rules_view(rules@)[k] != rule@,
        decreases rules.len() - i,
    {
        if rules[i].same(rule) {
            assert(rules_view(rules@)[i as int] == rule@);
            return true;
        }
        i += 1;
    }
    false
}

/// Puts `rule` at the end of `rules` unless it is there already.
fn put(rules: &mut Vec<Rule>, rule: Rule)
    ensures
        rules_view(final(rules)@) == add_rule(rules_view(old(rules)@), rule@),
{
    if !holds(rules, &rule) {
        let ghost before = rules_view(rules@);
        rules.push(rule);
        assert(rules_view(rules@) =~= before.push(rule@));
    }
}

/// Puts `rule` into `rules` where its variables are in scope; says whether
/// they are.
fn put_scoped(rules: &mut Vec<Rule>, rule: Rule) -> (ok: bool)
    ensures
        ok == rule@.well_scoped(),
        rules_view(final(rules)@) == add_all(rules_view(old(rules)@), scoped(rule@)),
{
    let ghost before = rules_view(rules@);
    let ok = crate::filter::variable_scope_check(&rule);
    proof {
        let one = seq![rule@];
        assert(one.drop_last() =~= Seq::<RuleView>::empty());
        assert(add_all(before, Seq::<RuleView>::empty()) == before);
        assert(add_all(before, one) == add_rule(before, rule@));
    }
    if ok {
        put(rules, rule);
    }
    ok
}

impl Clone for Ruleset {
    fn clone(&self) -> (res: Ruleset)
        ensures
            res@ == self@,
            res.tag() == self.tag(),
    {
        proof {
            use_type_invariant(self);
        }
        let mut rules: Vec<Rule> = Vec::new();
        let mut i: usize = 0;
        while i < self.rules.len()
            invariant
                i <= self.rules.len(),
                rules_view(rules@) == self@.take(i as int),
            decreases self.rules.len() - i,
        {
            let ghost before = rules_view(rules@);
            rules.push(self.rules[i].clone());
            assert(rules_view(rules@) =~= before.push(self@[i as int]));
            assert(rules_view(rules@) =~= self@.take(i + 1));
            i += 1;
        }
        assert(self@.take(i as int) =~= self@);
        Ruleset { rules, provenance: self.provenance.clone() }
    }
}

impl Ruleset {
    #[verifier::type_invariant]
    pub open spec fn inv(&self) -> bool {
        is_ruleset(self@)
    }

    /// The provenance tag.
    pub closed spec fn tag(&self) -> ProvenanceView {
        self.provenance@
    }

    /// The rule set without a rule.
    pub fn empty(provenance: Provenance) -> (rs: Ruleset)
        ensures
            rs@ == Seq::<RuleView>::empty(),
            rs.tag() == provenance@,
    {
        let rules: Vec<Rule> = Vec::new();
        assert(rules_view(rules@) =~= Seq::<RuleView>::empty());
        Ruleset { rules, provenance }
    }

    /// The same rules under another tag.
    pub fn retagged(&self, provenance: Provenance) -> (rs: Ruleset)
        ensures
            rs@ == self@,
            rs.tag() == provenance@,
    {
        proof {
            use_type_invariant(self);
        }
        let copy = self.clone();
        Ruleset { rules: copy.rules, provenance }
    }

    /// The rule set of the given rules, in their order, each once.
    pub fn from_rules(rules: Vec<Rule>, provenance: Provenance) -> (rs: Ruleset)
        ensures
            rs@ == add_all(Seq::empty(), rules_view(rules@)),
            rs.tag() == provenance@,
            is_ruleset(rs@),
    {
        let ghost all = rules_view(rules@);
        let mut kept: Vec<Rule> = Vec::new();
        let mut i: usize = 0;
        assert(rules_view(kept@) =~= add_all(Seq::empty(), all.take(0)));
        assert(is_ruleset(Seq::<RuleView>::empty()));
        while i < rules.len()
            invariant
                i <= rules.len(),
                all == rules_view(rules@),
                rules_view(kept@) == add_all(Seq::empty(), all.take(i as int)),
                is_ruleset(rules_view(kept@)),
            decreases rules.len() - i,
        {
            let r = rules[i].clone();
            proof {
                use_type_invariant(&r);
                assert(all.take(i + 1).drop_last() =~= all.take(i as int));
                assert(all.take(i + 1).last() == r@);
                lemma_add_rule(rules_view(kept@), r@);
            }
            put(&mut kept, r);
            i += 1;
        }
        assert(all.take(i as int) =~= all);
        Ruleset { rules: kept, provenance }
    }

    /// Reads a rule set from lines. Lines that are not rules and rules with
    /// an unbound right-hand variable are left out and reported.
    pub fn from_lines(lines: &Vec<String>, provenance: Provenance) -> (out: Loaded)
        ensures
            out.ruleset@ == load_lines(strs_view(lines@)),
            out.ruleset.tag() == provenance@,
            out.skipped@ == skips_of(strs_view(lines@)),
            is_ruleset(out.ruleset@),
            forall|i: int|
                0 <= i < out.ruleset@.len() ==> (#[trigger] out.ruleset@[i]).well_scoped(),
    {
        let ghost all = strs_view(lines@);
        let mut rules: Vec<Rule> = Vec::new();
        let mut skipped: Vec<Skipped> = Vec::new();
        let mut i: usize = 0;
        assert(rules_view(rules@) =~= load_lines(all.take(0)));
        assert(skipped@ =~= skips_of(all.take(0)));
        while i < lines.len()
            invariant
                i <= lines.len(),
                all == strs_view(lines@),
                rules_view(rules@) == load_lines(all.take(i as int)),
                skipped@ == skips_of(all.take(i as int)),
            decreases lines.len() - i,
        {
            let ghost line = all[i as int];
            let ghost done = all.take(i + 1);
            let ghost old_skipped = skipped@;
            let ghost wrap = |reason: SkipReason| Skipped { line: i, reason };
            proof {
                assert(done.drop_last() =~= all.take(i as int));
                assert(done.last() == line);
                assert(line == lines@[i as int]@);
                assert(skips_of(done) == old_skipped + line_skips(line).map_values(wrap));
            }
            let text = lines[i].as_str();
            let blank = crate::text::tokenize(text).len() == 0;
            match Rule::parse_line(text) {
                Err(e) => {
                    assert(add_all(rules_view(rules@), Seq::<RuleView>::empty()) == rules_view(
                        rules@,
                    ));
                    if !blank {
                        skipped.push(Skipped { line: i, reason: SkipReason::Unparsable(e) });
                        assert(line_skips(line).map_values(wrap) =~= seq![
                            Skipped { line: i, reason: SkipReason::Unparsable(e) },
                        ]);
                    } else {
                        assert(line_skips(line).map_values(wrap) =~= Seq::<Skipped>::empty());
                    }
                    assert(skipped@ =~= skips_of(done));
                },
                Ok(ParsedLine::Unidirectional(r)) => {
                    assert(!is_blank(line));
                    let ok = put_scoped(&mut rules, r);
                    if !ok {
                        skipped.push(Skipped { line: i, reason: SkipReason::UnboundVariable });
                        assert(line_skips(line).map_values(wrap) =~= seq![
                            Skipped { line: i, reason: SkipReason::UnboundVariable },
                        ]);
                    } else {
                        assert(line_skips(line).map_values(wrap) =~= Seq::<Skipped>::empty());
                    }
                    assert(skipped@ =~= skips_of(done));
                },
                Ok(ParsedLine::Bidirectional(f, b)) => {
                    assert(!is_blank(line));
                    let ghost start = rules_view(rules@);
                    let ghost fv = f@;
                    let ghost bv = b@;
                    let ok_f = put_scoped(&mut rules, f);
                    let ok_b = put_scoped(&mut rules, b);
                    proof {
                        lemma_add_all_concat(start, scoped(fv), scoped(bv));
                    }
                    if !ok_f {
                        skipped.push(Skipped { line: i, reason: SkipReason::UnboundVariable });
                    }
                    if !ok_b {
                        skipped.push(
                            Skipped { line: i, reason: SkipReason::UnboundVariableBackward },
                        );
                    }
                    assert(skipped@ =~= old_skipped + line_skips(line).map_values(wrap));
                },
            }
            i += 1;
        }
        proof {
            assert(all.take(i as int) =~= all);
            lemma_load_lines(all);
        }
        Loaded { ruleset: Ruleset { rules, provenance }, skipped }
    }

    /// Reads a rule set that must consist of one-directional lines. The
    /// first line written with `<=>` is an error; without such a line the
    /// result is that of `from_lines`.
    pub fn from_unidirectional_lines(lines: &Vec<String>, provenance: Provenance) -> (out: Result<
        Loaded,
        LoadError,
    >)
        ensures
            match out {
                Ok(loaded) => {
                    &&& forall|k: int|
                        0 <= k < lines@.len() ==> !is_bidirectional(#[trigger] lines@[k]@)
                    &&& loaded.ruleset@ == load_lines(strs_view(lines@))
                    &&& loaded.ruleset.tag() == provenance@
                    &&& loaded.skipped@ == skips_of(strs_view(lines@))
                },
                Err(LoadError::UnexpectedBidirectional(i)) => {
                    &&& i < lines@.len()
                    &&& is_bidirectional(lines@[i as int]@)
                    &&& forall|k: int| 0 <= k < i ==> !is_bidirectional(#[trigger] lines@[k]@)
                },
            },
    {
        let mut i: usize = 0;
        while i < lines.len()
            invariant
                i <= lines.len(),
                forall|k: int| 0 <= k < i ==> !is_bidirectional(#[trigger] lines@[k]@),
            decreases lines.len() - i,
        {
            match Rule::parse_line(lines[i].as_str()) {
                Ok(ParsedLine::Bidirectional(_, _)) => {
                    return Err(LoadError::UnexpectedBidirectional(i));
                },
                _ => {},
            }
            i += 1;
        }
        Ok(Ruleset::from_lines(lines, provenance))
    }

    /// The number of rules.
    pub fn len(&self) -> (n: usize)
        ensures
            n == self@.len(),
    {
        self.rules.len()
    }

    /// Whether the set holds no rule.
    pub fn is_empty(&self) -> (b: bool)
        ensures
            b == (self@.len() == 0),
    {
        self.rules.len() == 0
    }

    /// The rules, in the order of the set.
    pub fn rules(&self) -> (r: &Vec<Rule>)
        ensures
            rules_view(r@) == self@,
            r@.len() == self@.len(),
            forall|i: int| 0 <= i < r@.len() ==> (#[trigger] r@[i])@ == self@[i],
    {
        &self.rules
    }

    /// The provenance tag.
    pub fn provenance(&self) -> (p: &Provenance)
        ensures
            p@ == self.tag(),
    {
        &self.provenance
    }

    /// Whether `rule` is in the set.
    pub fn contains(&self, rule: &Rule) -> (b: bool)
        ensures
            b == self@.contains(rule@),
    {
        holds(&self.rules, rule)
    }

    /// The names of the rules, in the order of the set.
    pub fn names(&self) -> (names: Vec<String>)
        ensures
            strs_view(names@) == names_of(self@),
            strs_view(names@).no_duplicates(),
    {
        proof {
            use_type_invariant(self);
            lemma_names_distinct(self@);
        }
        let mut names: Vec<String> = Vec::new();
        let mut i: usize = 0;
        while i < self.rules.len()
            invariant
                i <= self.rules.len(),
                names.len() == i,
                forall|k: int| 0 <= k < i ==> (#[trigger] names@[k])@ == self@[k].name(),
            decreases self.rules.len() - i,
        {
            names.push(String::from_str(self.rules[i].name()));
            i += 1;
        }
        assert(strs_view(names@) =~= names_of(self@));
        names
    }

    /// The rules whose flag is set, in order, as a new set with the given
    /// tag. The empty set where the flags do not match the rules in number.
    pub fn select(&self, flags: &Vec<bool>, provenance: Provenance) -> (rs: Ruleset)
        ensures
            rs@ == pick(self@, flags@),
            rs.tag() == provenance@,
            is_ruleset(rs@),
    {
        proof {
            use_type_invariant(self);
            assert(is_ruleset(Seq::<RuleView>::empty()));
        }
        let mut rules: Vec<Rule> = Vec::new();
        if flags.len() != self.rules.len() {
            return Ruleset { rules, provenance };
        }
        let mut i: usize = 0;
        while i < self.rules.len()
            invariant
                i <= self.rules.len(),
                flags.len() == self.rules.len(),
                rules_view(rules@) == pick(self@.take(i as int), flags@.take(i as int)),
            decreases self.rules.len() - i,
        {
            let ghost before = rules_view(rules@);
            proof {
                assert(self@.take(i + 1).drop_last() =~= self@.take(i as int));
                assert(flags@.take(i + 1).drop_last() =~= flags@.take(i as int));
            }
            if flags[i] {
                rules.push(self.rules[i].clone());
                assert(rules_view(rules@) =~= before.push(self@[i as int]));
            }
            i += 1;
        }
        proof {
            assert(self@.take(i as int) =~= self@);
            assert(flags@.take(i as int) =~= flags@);
            lemma_pick(self@, flags@);
        }
        Ruleset { rules, provenance }
    }
}

/// What `pick` takes from a rule set is a rule set, and holds exactly the
/// rules whose flag is set.
pub proof fn lemma_pick(rs: Seq<RuleView>, flags: Seq<bool>)
    requires
        flags.len() == rs.len(),
    ensures
        pick(rs, flags).len() <= rs.len(),
        forall|x: RuleView|
            pick(rs, flags).contains(x) <==> exists|i: int|
                0 <= i < rs.len() && flags[i] && #[trigger] rs[i] == x,
        is_ruleset(rs) ==> is_ruleset(pick(rs, flags)),
    decreases rs.len(),
{
    let out = pick(rs, flags);
    if rs.len() > 0 {
        let front = rs.drop_last();
        let fflags = flags.drop_last();
        let before = pick(front, fflags);
        lemma_pick(front, fflags);
        let last = rs.len() - 1;
        assert forall|x: RuleView| out.contains(x) <==> exists|i: int|
            0 <= i < rs.len() && flags[i] && #[trigger] rs[i] == x by {
            if out.contains(x) {
                if before.contains(x) {
                    let i = choose|i: int| 0 <= i < front.len() && fflags[i] && #[trigger] front[i] == x;
                    assert(flags[i] && rs[i] == x);
                } else {
                    assert(flags[last] && rs[last] == x);
                }
            }
            if exists|i: int| 0 <= i < rs.len() && flags[i] && #[trigger] rs[i] == x {
                let i = choose|i: int| 0 <= i < rs.len() && flags[i] && #[trigger] rs[i] == x;
                if i < last {
                    assert(fflags[i] && front[i] == x);
                    assert(before.contains(x));
                    let k = choose|k: int| 0 <= k < before.len() && before[k] == x;
                    assert(out[k] == x);
                } else {
                    assert(out[out.len() - 1] == x);
                }
            }
        }
        if is_ruleset(rs) {
            assert(is_ruleset(front)) by {
                assert forall|i: int| 0 <= i < front.len() implies (#[trigger] front[i]).wf() by {
                    assert(front[i] == rs[i]);
                }
                assert forall|i: int, j: int|
                    0 <= i < front.len() && 0 <= j < front.len() && i != j implies front[i]
                    != front[j] by {
                    assert(front[i] == rs[i] && front[j] == rs[j]);
                }
            }
            if flags.last() {
                assert(!before.contains(rs.last())) by {
                    if before.contains(rs.last()) {
                        let i = choose|i: int|
                            0 <= i < front.len() && fflags[i] && #[trigger] front[i] == rs.last();
                        assert(rs[i] == rs[last]);
                    }
                }
                assert(rs.last().wf());
                assert(out == add_rule(before, rs.last()));
                lemma_add_rule(before, rs.last());
            }
        }
    }
}

/// With all flags set, `pick` takes every rule; with none set, no rule.
pub proof fn lemma_pick_all(rs: Seq<RuleView>, flags: Seq<bool>)
    requires
        flags.len() == rs.len(),
    ensures
        (forall|i: int| 0 <= i < flags.len() ==> flags[i]) ==> pick(rs, flags) == rs,
        (forall|i: int| 0 <= i < flags.len() ==> !flags[i]) ==> pick(rs, flags).len() == 0,
    decreases rs.len(),
{
    if rs.len() > 0 {
        let front = rs.drop_last();
        let fflags = flags.drop_last();
        lemma_pick_all(front, fflags);
        assert(flags.last() == flags[flags.len() - 1]);
        assert forall|i: int| 0 <= i < fflags.len() implies fflags[i] == flags[i] by {}
        if forall|i: int| 0 <= i < flags.len() ==> flags[i] {
            assert(pick(rs, flags) =~= rs);
        }
    } else {
        assert(pick(rs, flags) =~= rs);
    }
}

/// Adding two batches one after the other is adding them put together.
pub proof fn lemma_add_all_concat(rs: Seq<RuleView>, a: Seq<RuleView>, b: Seq<RuleView>)
    ensures
        add_all(add_all(rs, a), b) == add_all(rs, a + b),
    decreases b.len(),
{
    if b.len() == 0 {
        assert(a + b =~= a);
    } else {
        lemma_add_all_concat(rs, a, b.drop_last());
        assert((a + b).drop_last() =~= a + b.drop_last());
        assert((a + b).last() == b.last());
    }
}

/// Cuts a text into its lines.
pub fn split_lines(text: &str) -> (lines: Vec<String>)
    ensures
        strs_view(lines@) == lines_of(text@),
{
    let chars = to_chars(text);
    let ascii = text.is_ascii();
    let n = chars.len();
    let mut lines: Vec<String> = Vec::new();
    let mut start: usize = 0;
    assert(text@.skip(0) =~= text@);
    loop
        invariant
            chars@ == text@,
            ascii ==> text.is_ascii(),
            n == chars.len(),
            start <= n,
            lines_of(text@) == strs_view(lines@) + lines_of(text@.skip(start as int)),
        decreases n - start,
    {
        let ghost here = text@.skip(start as int);
        let ghost before = strs_view(lines@);
        let mut end: usize = start;
        while end < n && chars[end] != '\n'
            invariant
                chars@ == text@,
                n == chars.len(),
                start <= end <= n,
                line_len(text@.skip(start as int)) == (end - start) + line_len(
                    text@.skip(end as int),
                ),
            decreases n - end,
        {
            let ghost at = text@.skip(end as int);
            assert(at[0] == chars@[end as int]);
            assert(at.drop_first() =~= text@.skip(end + 1));
            end += 1;
        }
        proof {
            let at = text@.skip(end as int);
            if end < n {
                assert(at[0] == chars@[end as int]);
            }
            assert(line_len(at) == 0);
            assert(here.take((end - start) as int) =~= text@.subrange(start as int, end as int));
        }
        lines.push(String::from_str(piece(text, ascii, start, end)));
        assert(strs_view(lines@) =~= before + seq![here.take((end - start) as int)]);
        if end >= n {
            assert(here.take((end - start) as int) =~= here);
            assert(strs_view(lines@) =~= lines_of(text@));
            return lines;
        }
        assert(here.skip((end - start) + 1) =~= text@.skip(end + 1));
        start = end + 1;
    }
}

} // verus!
