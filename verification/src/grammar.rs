//! Grammar data model: symbols, alternatives, rules and whole grammars,
//! together with their textual renderings.
//!
//! Rendering is the shared basis for alternative equality: two alternatives
//! are the same exactly when they render to the same text.
use vstd::prelude::*;

verus! {

broadcast use vstd::seq_lib::group_seq_lib_default;

/// An ASCII letter: what every symbol name is made of.
pub open spec fn is_letter(c: char) -> bool {
    ('a' <= c && c <= 'z') || ('A' <= c && c <= 'Z')
}

/// A well-formed symbol name: nonempty and made of letters only, so it can
/// never collide with the punctuation of the textual grammar notations.
pub open spec fn valid_name(n: Seq<char>) -> bool {
    n.len() >= 1 && forall|i: int| 0 <= i < n.len() ==> is_letter(#[trigger] n[i])
}

/// Mathematical model of a lexical symbol: a terminal or nonterminal name.
pub enum SymView {
    NonTerm { name: Seq<char> },
    Term { name: Seq<char> },
}

impl SymView {
    /// The bare name of the symbol, without any quoting.
    pub open spec fn name(self) -> Seq<char> {
        match self {
            SymView::NonTerm { name } => name,
            SymView::Term { name } => name,
        }
    }
}

/// A nonterminal symbol: rendered as its bare name.
pub struct NonTermSymbol {
    tok: String,
}

impl View for NonTermSymbol {
    type V = Seq<char>;

    closed spec fn view(&self) -> Seq<char> {
        self.tok@
    }
}

impl NonTermSymbol {
    pub fn new(tok: String) -> (s: Self)
        ensures
            s@ == tok@,
    {
        NonTermSymbol { tok }
    }

    /// The symbol's name.
    pub fn name(&self) -> (r: &str)
        ensures
            r@ == self@,
    {
        self.tok.as_str()
    }

    /// Equality is name-sensitive.
    pub fn eq(&self, other: &Self) -> (r: bool)
        ensures
            r == (self@ == other@),
    {
        self.tok == other.tok
    }
}

/// A terminal symbol: rendered quoted, `'name'`.
pub struct TermSymbol {
    tok: String,
}

impl View for TermSymbol {
    type V = Seq<char>;

    closed spec fn view(&self) -> Seq<char> {
        self.tok@
    }
}

impl TermSymbol {
    pub fn new(tok: String) -> (s: Self)
        ensures
            s@ == tok@,
    {
        TermSymbol { tok }
    }

    /// The symbol's name, without the quotes.
    pub fn name(&self) -> (r: &str)
        ensures
            r@ == self@,
    {
        self.tok.as_str()
    }

    /// Equality is name-sensitive.
    pub fn eq(&self, other: &Self) -> (r: bool)
        ensures
            r == (self@ == other@),
    {
        self.tok == other.tok
    }
}

/// A lexical symbol: either a terminal or a nonterminal. A terminal and a
/// nonterminal with the same spelling are distinct and render differently.
pub enum LexSymbol {
    NonTerm(NonTermSymbol),
    Term(TermSymbol),
}

impl View for LexSymbol {
    type V = SymView;

    open spec fn view(&self) -> SymView {
        match self {
            LexSymbol::NonTerm(nt) => SymView::NonTerm { name: nt@ },
            LexSymbol::Term(t) => SymView::Term { name: t@ },
        }
    }
}

impl DeepView for LexSymbol {
    type V = SymView;

    open spec fn deep_view(&self) -> SymView {
        self@
    }
}

/// How a single symbol renders: nonterminals bare, terminals quoted.
pub open spec fn spec_render_sym(s: SymView) -> Seq<char> {
    match s {
        SymView::NonTerm { name } => name,
        SymView::Term { name } => seq!['\''] + name + seq!['\''],
    }
}

impl LexSymbol {
    pub fn clone(&self) -> (r: Self)
        ensures
            r@ == self@,
    {
        match self {
            LexSymbol::NonTerm(nt) => LexSymbol::NonTerm(NonTermSymbol { tok: nt.tok.clone() }),
            LexSymbol::Term(t) => LexSymbol::Term(TermSymbol { tok: t.tok.clone() }),
        }
    }

    /// Renders the symbol: a nonterminal bare, a terminal in single quotes.
    pub fn render(&self) -> (r: String)
        ensures
            r@ == spec_render_sym(self@),
    {
        match self {
            LexSymbol::NonTerm(nt) => nt.tok.clone(),
            LexSymbol::Term(t) => {
                let mut s = String::from_str("'");
                s.append(t.tok.as_str());
                s.append("'");
                proof {
                    reveal_strlit("'");
                    assert(s@ =~= spec_render_sym(self@));
                }
                s
            },
        }
    }

    /// Equality is type-and-name sensitive.
    pub fn eq(&self, other: &Self) -> (r: bool)
        ensures
            r == (self@ == other@),
    {
        match (self, other) {
            (LexSymbol::NonTerm(a), LexSymbol::NonTerm(b)) => a.eq(b),
            (LexSymbol::Term(a), LexSymbol::Term(b)) => a.eq(b),
            _ => false,
        }
    }
}

/// How an alternative renders: its symbols separated by single spaces; the
/// empty alternative renders as the empty string.
pub open spec fn spec_render_alt(a: Seq<SymView>) -> Seq<char>
    decreases a.len(),
{
    if a.len() == 0 {
        Seq::empty()
    } else if a.len() == 1 {
        spec_render_sym(a[0])
    } else {
        spec_render_sym(a[0]) + seq![' '] + spec_render_alt(a.drop_first())
    }
}

/// Appending one symbol appends a space (after a nonempty prefix) and the
/// symbol's rendering.
pub proof fn lemma_render_alt_push(a: Seq<SymView>, x: SymView)
    ensures
        spec_render_alt(a.push(x)) == if a.len() == 0 {
            spec_render_sym(x)
        } else {
            (spec_render_alt(a) + seq![' '] + spec_render_sym(x))
        },
    decreases a.len(),
{
    if a.len() == 0 {
        assert(a.push(x)[0] == x);
        assert(spec_render_alt(a.push(x)) == spec_render_sym(x));
    } else if a.len() == 1 {
        let q = a.push(x);
        assert(q.len() == 2);
        assert(q[0] == a[0]);
        assert(q.drop_first() =~= seq![x]);
        assert(q.drop_first().len() == 1 && q.drop_first()[0] == x);
        assert(spec_render_alt(q.drop_first()) == spec_render_sym(x));
        assert(spec_render_alt(q) == spec_render_sym(a[0]) + seq![' '] + spec_render_sym(x));
        assert(spec_render_alt(a) == spec_render_sym(a[0]));
    } else {
        lemma_render_alt_push(a.drop_first(), x);
        assert(a.push(x).drop_first() =~= a.drop_first().push(x));
        assert(spec_render_alt(a.push(x)) == spec_render_sym(a[0]) + seq![' '] + (spec_render_alt(
            a.drop_first(),
        ) + seq![' '] + spec_render_sym(x)));
        assert(spec_render_sym(a[0]) + seq![' '] + (spec_render_alt(a.drop_first()) + seq![' ']
            + spec_render_sym(x)) =~= (spec_render_sym(a[0]) + seq![' '] + spec_render_alt(
            a.drop_first(),
        )) + seq![' '] + spec_render_sym(x));
    }
}

/// An alternative: one ordered right-hand-side choice of a rule, possibly
/// empty (the epsilon production).
pub struct RuleAlt {
    lex_symbols: Vec<LexSymbol>,
}

impl View for RuleAlt {
    type V = Seq<SymView>;

    closed spec fn view(&self) -> Seq<SymView> {
        self.lex_symbols.deep_view()
    }
}

impl DeepView for RuleAlt {
    type V = Seq<SymView>;

    open spec fn deep_view(&self) -> Seq<SymView> {
        self@
    }
}

impl RuleAlt {
    pub fn new(lex_symbols: Vec<LexSymbol>) -> (a: Self)
        ensures
            a@ == lex_symbols.deep_view(),
    {
        RuleAlt { lex_symbols }
    }

    /// The symbols of the alternative, in order.
    pub fn symbols(&self) -> (r: &Vec<LexSymbol>)
        ensures
            r.deep_view() == self@,
    {
        &self.lex_symbols
    }

    pub fn clone(&self) -> (r: Self)
        ensures
            r@ == self@,
    {
        let mut syms: Vec<LexSymbol> = Vec::new();
        let mut i: usize = 0;
        while i < self.lex_symbols.len()
            invariant
                i <= self.lex_symbols@.len(),
                syms@.len() == i,
                forall|j: int| 0 <= j < i ==> syms@[j]@ == self.lex_symbols@[j]@,
            decreases self.lex_symbols@.len() - i,
        {
            syms.push(self.lex_symbols[i].clone());
            i = i + 1;
        }
        proof {
            assert(syms.deep_view() =~= self@);
        }
        RuleAlt { lex_symbols: syms }
    }

    /// Renders the alternative: symbols joined by single spaces.
    pub fn render(&self) -> (r: String)
        ensures
            r@ == spec_render_alt(self@),
    {
        let mut s = String::new();
        let mut i: usize = 0;
        while i < self.lex_symbols.len()
            invariant
                i <= self.lex_symbols@.len(),
                self@.len() == self.lex_symbols@.len(),
                forall|j: int| 0 <= j < self@.len() ==> self@[j] == self.lex_symbols@[j]@,
                s@ == spec_render_alt(self@.subrange(0, i as int)),
            decreases self.lex_symbols@.len() - i,
        {
            if i > 0 {
                s.append(" ");
            }
            let piece = self.lex_symbols[i].render();
            s.append(piece.as_str());
            proof {
                reveal_strlit(" ");
                let prev = self@.subrange(0, i as int);
                let cur = self@.subrange(0, i + 1 as int);
                assert(cur =~= prev.push(self@[i as int]));
                lemma_render_alt_push(prev, self@[i as int]);
                assert(s@ =~= spec_render_alt(cur));
            }
            i = i + 1;
        }
        proof {
            assert(self@.subrange(0, self@.len() as int) =~= self@);
        }
        s
    }

    /// Renders the alternative with an empty action block attached.
    pub fn as_lrpar(&self) -> (r: String)
        ensures
            r@ == spec_render_alt_lrpar(self@),
    {
        let mut s = self.render();
        s.append(" { }");
        proof {
            reveal_strlit(" { }");
            assert(s@ =~= spec_render_alt_lrpar(self@));
        }
        s
    }

    /// Two alternatives are equal exactly when they render to the same text.
    pub fn eq(&self, other: &Self) -> (r: bool)
        ensures
            r == (spec_render_alt(self@) == spec_render_alt(other@)),
    {
        let a = self.render();
        let b = other.render();
        a == b
    }
}


/// Mathematical model of a rule: a left-hand-side name and its alternatives.
pub struct RuleView {
    pub lhs: Seq<char>,
    pub alts: Seq<Seq<SymView>>,
}

/// How a rule's right-hand side renders: alternatives joined by ` | `.
pub open spec fn spec_render_alts(alts: Seq<Seq<SymView>>) -> Seq<char>
    decreases alts.len(),
{
    if alts.len() == 0 {
        Seq::empty()
    } else if alts.len() == 1 {
        spec_render_alt(alts[0])
    } else {
        spec_render_alt(alts[0]) + seq![' ', '|', ' '] + spec_render_alts(alts.drop_first())
    }
}

pub proof fn lemma_render_alts_push(alts: Seq<Seq<SymView>>, x: Seq<SymView>)
    ensures
        spec_render_alts(alts.push(x)) == if alts.len() == 0 {
            spec_render_alt(x)
        } else {
            (spec_render_alts(alts) + seq![' ', '|', ' '] + spec_render_alt(x))
        },
    decreases alts.len(),
{
    let sep = seq![' ', '|', ' '];
    if alts.len() == 0 {
        assert(alts.push(x)[0] == x);
        assert(spec_render_alts(alts.push(x)) == spec_render_alt(x));
    } else if alts.len() == 1 {
        let q = alts.push(x);
        assert(q.len() == 2);
        assert(q[0] == alts[0]);
        assert(q.drop_first() =~= seq![x]);
        assert(q.drop_first().len() == 1 && q.drop_first()[0] == x);
        assert(spec_render_alts(q.drop_first()) == spec_render_alt(x));
        assert(spec_render_alts(q) == spec_render_alt(alts[0]) + sep + spec_render_alt(x));
        assert(spec_render_alts(alts) == spec_render_alt(alts[0]));
    } else {
        lemma_render_alts_push(alts.drop_first(), x);
        assert(alts.push(x).drop_first() =~= alts.drop_first().push(x));
        assert(spec_render_alts(alts.push(x)) == spec_render_alt(alts[0]) + sep + (
        spec_render_alts(alts.drop_first()) + sep + spec_render_alt(x)));
        assert(spec_render_alt(alts[0]) + sep + (spec_render_alts(alts.drop_first()) + sep
            + spec_render_alt(x)) =~= (spec_render_alt(alts[0]) + sep + spec_render_alts(
            alts.drop_first(),
        )) + sep + spec_render_alt(x));
    }
}

/// How a whole rule renders: `LHS: alt | alt | ...`.
pub open spec fn spec_render_rule(r: RuleView) -> Seq<char> {
    r.lhs + seq![':', ' '] + spec_render_alts(r.alts)
}

/// How a rule body renders: rules in order, each closed by a `;` line.
pub open spec fn spec_render_rules(rs: Seq<RuleView>) -> Seq<char>
    decreases rs.len(),
{
    if rs.len() == 0 {
        Seq::empty()
    } else {
        spec_render_rule(rs[0]) + seq!['\n', ';', '\n'] + spec_render_rules(rs.drop_first())
    }
}

pub proof fn lemma_render_rules_push(rs: Seq<RuleView>, r: RuleView)
    ensures
        spec_render_rules(rs.push(r)) == spec_render_rules(rs) + spec_render_rule(r) + seq![
            '\n',
            ';',
            '\n',
        ],
    decreases rs.len(),
{
    let term = seq!['\n', ';', '\n'];
    if rs.len() == 0 {
        let q = rs.push(r);
        assert(q.len() == 1);
        assert(q[0] == r);
        assert(q.drop_first() =~= Seq::<RuleView>::empty());
        assert(spec_render_rules(q.drop_first()) == Seq::<char>::empty());
        assert(spec_render_rules(q) == spec_render_rule(r) + term + Seq::<char>::empty());
        assert(spec_render_rule(r) + term + Seq::<char>::empty() =~= Seq::<char>::empty()
            + spec_render_rule(r) + term);
        assert(spec_render_rules(rs) == Seq::<char>::empty());
    } else {
        lemma_render_rules_push(rs.drop_first(), r);
        assert(rs.push(r).drop_first() =~= rs.drop_first().push(r));
        assert(spec_render_rules(rs.push(r)) == spec_render_rule(rs[0]) + term + (
        spec_render_rules(rs.drop_first()) + spec_render_rule(r) + term));
        assert(spec_render_rule(rs[0]) + term + (spec_render_rules(rs.drop_first())
            + spec_render_rule(r) + term) =~= (spec_render_rule(rs[0]) + term + spec_render_rules(
            rs.drop_first(),
        )) + spec_render_rule(r) + term);
    }
}

/// The action-annotated rendering of an alternative: an empty action block
/// is attached after the symbols.
pub open spec fn spec_render_alt_lrpar(a: Seq<SymView>) -> Seq<char> {
    spec_render_alt(a) + seq![' ', '{', ' ', '}']
}

pub open spec fn spec_render_alts_lrpar(alts: Seq<Seq<SymView>>) -> Seq<char>
    decreases alts.len(),
{
    if alts.len() == 0 {
        Seq::empty()
    } else if alts.len() == 1 {
        spec_render_alt_lrpar(alts[0])
    } else {
        spec_render_alt_lrpar(alts[0]) + seq![' ', '|', ' '] + spec_render_alts_lrpar(
            alts.drop_first(),
        )
    }
}

pub proof fn lemma_render_alts_lrpar_push(alts: Seq<Seq<SymView>>, x: Seq<SymView>)
    ensures
        spec_render_alts_lrpar(alts.push(x)) == if alts.len() == 0 {
            spec_render_alt_lrpar(x)
        } else {
            (spec_render_alts_lrpar(alts) + seq![' ', '|', ' '] + spec_render_alt_lrpar(x))
        },
    decreases alts.len(),
{
    let sep = seq![' ', '|', ' '];
    if alts.len() == 0 {
        assert(alts.push(x)[0] == x);
        assert(spec_render_alts_lrpar(alts.push(x)) == spec_render_alt_lrpar(x));
    } else if alts.len() == 1 {
        let q = alts.push(x);
        assert(q.len() == 2);
        assert(q[0] == alts[0]);
        assert(q.drop_first() =~= seq![x]);
        assert(q.drop_first().len() == 1 && q.drop_first()[0] == x);
        assert(spec_render_alts_lrpar(q.drop_first()) == spec_render_alt_lrpar(x));
        assert(spec_render_alts_lrpar(q) == spec_render_alt_lrpar(alts[0]) + sep
            + spec_render_alt_lrpar(x));
        assert(spec_render_alts_lrpar(alts) == spec_render_alt_lrpar(alts[0]));
    } else {
        lemma_render_alts_lrpar_push(alts.drop_first(), x);
        assert(alts.push(x).drop_first() =~= alts.drop_first().push(x));
        assert(spec_render_alts_lrpar(alts.push(x)) == spec_render_alt_lrpar(alts[0]) + sep + (
        spec_render_alts_lrpar(alts.drop_first()) + sep + spec_render_alt_lrpar(x)));
        assert(spec_render_alt_lrpar(alts[0]) + sep + (spec_render_alts_lrpar(alts.drop_first())
            + sep + spec_render_alt_lrpar(x)) =~= (spec_render_alt_lrpar(alts[0]) + sep
            + spec_render_alts_lrpar(alts.drop_first())) + sep + spec_render_alt_lrpar(x));
    }
}

/// The action-annotated rendering of a rule: `LHS ->: alt { } | ...`.
pub open spec fn spec_render_rule_lrpar(r: RuleView) -> Seq<char> {
    r.lhs + seq![' ', '-', '>', ':', ' '] + spec_render_alts_lrpar(r.alts)
}

pub open spec fn spec_render_rules_lrpar(rs: Seq<RuleView>) -> Seq<char>
    decreases rs.len(),
{
    if rs.len() == 0 {
        Seq::empty()
    } else {
        spec_render_rule_lrpar(rs[0]) + seq!['\n', ';', '\n'] + spec_render_rules_lrpar(
            rs.drop_first(),
        )
    }
}

pub proof fn lemma_render_rules_lrpar_push(rs: Seq<RuleView>, r: RuleView)
    ensures
        spec_render_rules_lrpar(rs.push(r)) == spec_render_rules_lrpar(rs) + spec_render_rule_lrpar(
            r,
        ) + seq!['\n', ';', '\n'],
    decreases rs.len(),
{
    let term = seq!['\n', ';', '\n'];
    if rs.len() == 0 {
        let q = rs.push(r);
        assert(q.len() == 1);
        assert(q[0] == r);
        assert(q.drop_first() =~= Seq::<RuleView>::empty());
        assert(spec_render_rules_lrpar(q.drop_first()) == Seq::<char>::empty());
        assert(spec_render_rules_lrpar(q) == spec_render_rule_lrpar(r) + term
            + Seq::<char>::empty());
        assert(spec_render_rule_lrpar(r) + term + Seq::<char>::empty() =~= Seq::<char>::empty()
            + spec_render_rule_lrpar(r) + term);
        assert(spec_render_rules_lrpar(rs) == Seq::<char>::empty());
    } else {
        lemma_render_rules_lrpar_push(rs.drop_first(), r);
        assert(rs.push(r).drop_first() =~= rs.drop_first().push(r));
        assert(spec_render_rules_lrpar(rs.push(r)) == spec_render_rule_lrpar(rs[0]) + term + (
        spec_render_rules_lrpar(rs.drop_first()) + spec_render_rule_lrpar(r) + term));
        assert(spec_render_rule_lrpar(rs[0]) + term + (spec_render_rules_lrpar(rs.drop_first())
            + spec_render_rule_lrpar(r) + term) =~= (spec_render_rule_lrpar(rs[0]) + term
            + spec_render_rules_lrpar(rs.drop_first())) + spec_render_rule_lrpar(r) + term);
    }
}

/// The grammar notation shared by the plainest oracle: a start declaration,
/// the rule body, and a trailer.
pub open spec fn spec_as_hyacc(rs: Seq<RuleView>) -> Seq<char>
    recommends
        rs.len() > 0,
{
    "%start "@ + rs[0].lhs + "\n\n%%\n\n"@ + spec_render_rules(rs) + "\n\n%%"@
}

/// The strict-LR notation: the shared notation under one extra directive.
pub open spec fn spec_as_yacc(rs: Seq<RuleView>) -> Seq<char>
    recommends
        rs.len() > 0,
{
    "%define lr.type canonical-lr\n\n"@ + spec_as_hyacc(rs)
}

/// The action-annotated notation.
pub open spec fn spec_as_lrpar(rs: Seq<RuleView>) -> Seq<char>
    recommends
        rs.len() > 0,
{
    "%start "@ + rs[0].lhs + "\n\n%%\n\n"@ + spec_render_rules_lrpar(rs) + "\n\n%%"@
}


/// A rule: a left-hand-side nonterminal name plus its ordered alternatives.
pub struct CfgRule {
    lhs: String,
    rhs: Vec<RuleAlt>,
}

impl View for CfgRule {
    type V = RuleView;

    closed spec fn view(&self) -> RuleView {
        RuleView { lhs: self.lhs@, alts: self.rhs.deep_view() }
    }
}

impl DeepView for CfgRule {
    type V = RuleView;

    open spec fn deep_view(&self) -> RuleView {
        self@
    }
}

impl CfgRule {
    pub fn new(lhs: String, rhs: Vec<RuleAlt>) -> (r: Self)
        ensures
            r@.lhs == lhs@,
            r@.alts == rhs.deep_view(),
    {
        CfgRule { lhs, rhs }
    }

    /// The rule's left-hand-side name.
    pub fn lhs(&self) -> (r: &str)
        ensures
            r@ == self@.lhs,
    {
        self.lhs.as_str()
    }

    /// The rule's alternatives, in order.
    pub fn alts(&self) -> (r: &Vec<RuleAlt>)
        ensures
            r.deep_view() == self@.alts,
    {
        &self.rhs
    }

    /// Renders the rule as `LHS: alt | alt | ...`.
    pub fn render(&self) -> (r: String)
        ensures
            r@ == spec_render_rule(self@),
    {
        let mut s = String::new();
        s.append(self.lhs.as_str());
        s.append(": ");
        let mut i: usize = 0;
        proof {
            reveal_strlit(": ");
            assert(self@.alts.subrange(0, 0) =~= Seq::<Seq<SymView>>::empty());
            assert(s@ =~= self@.lhs + seq![':', ' '] + spec_render_alts(self@.alts.subrange(0, 0)));
        }
        while i < self.rhs.len()
            invariant
                i <= self.rhs@.len(),
                self@.alts.len() == self.rhs@.len(),
                forall|j: int| 0 <= j < self@.alts.len() ==> self@.alts[j] == self.rhs@[j]@,
                s@ == self@.lhs + seq![':', ' '] + spec_render_alts(self@.alts.subrange(0, i as int)),
            decreases self.rhs@.len() - i,
        {
            if i > 0 {
                s.append(" | ");
            }
            let piece = self.rhs[i].render();
            s.append(piece.as_str());
            proof {
                reveal_strlit(" | ");
                let prev = self@.alts.subrange(0, i as int);
                let cur = self@.alts.subrange(0, i + 1 as int);
                assert(cur =~= prev.push(self@.alts[i as int]));
                lemma_render_alts_push(prev, self@.alts[i as int]);
                assert(s@ =~= self@.lhs + seq![':', ' '] + spec_render_alts(cur));
            }
            i = i + 1;
        }
        proof {
            assert(self@.alts.subrange(0, self@.alts.len() as int) =~= self@.alts);
        }
        s
    }

    /// Renders the rule in the action-annotated notation, `LHS ->: alt { } | ...`.
    pub fn as_lrpar(&self) -> (r: String)
        ensures
            r@ == spec_render_rule_lrpar(self@),
    {
        let mut s = String::new();
        s.append(self.lhs.as_str());
        s.append(" ->: ");
        let mut i: usize = 0;
        proof {
            reveal_strlit(" ->: ");
            assert(self@.alts.subrange(0, 0) =~= Seq::<Seq<SymView>>::empty());
            assert(s@ =~= self@.lhs + seq![' ', '-', '>', ':', ' '] + spec_render_alts_lrpar(
                self@.alts.subrange(0, 0),
            ));
        }
        while i < self.rhs.len()
            invariant
                i <= self.rhs@.len(),
                self@.alts.len() == self.rhs@.len(),
                forall|j: int| 0 <= j < self@.alts.len() ==> self@.alts[j] == self.rhs@[j]@,
                s@ == self@.lhs + seq![' ', '-', '>', ':', ' '] + spec_render_alts_lrpar(
                    self@.alts.subrange(0, i as int),
                ),
            decreases self.rhs@.len() - i,
        {
            if i > 0 {
                s.append(" | ");
            }
            let piece = self.rhs[i].as_lrpar();
            s.append(piece.as_str());
            proof {
                reveal_strlit(" | ");
                let prev = self@.alts.subrange(0, i as int);
                let cur = self@.alts.subrange(0, i + 1 as int);
                assert(cur =~= prev.push(self@.alts[i as int]));
                lemma_render_alts_lrpar_push(prev, self@.alts[i as int]);
                assert(s@ =~= self@.lhs + seq![' ', '-', '>', ':', ' '] + spec_render_alts_lrpar(
                    cur,
                ));
            }
            i = i + 1;
        }
        proof {
            assert(self@.alts.subrange(0, self@.alts.len() as int) =~= self@.alts);
        }
        s
    }
}

/// A grammar: an ordered list of rules whose first rule is the root.
pub struct Cfg {
    rules: Vec<CfgRule>,
}

impl View for Cfg {
    type V = Seq<RuleView>;

    closed spec fn view(&self) -> Seq<RuleView> {
        self.rules.deep_view()
    }
}

impl Cfg {
    pub fn new(rules: Vec<CfgRule>) -> (g: Self)
        ensures
            g@ == rules.deep_view(),
    {
        Cfg { rules }
    }

    /// The rules of the grammar, the root rule first.
    pub fn rules(&self) -> (r: &Vec<CfgRule>)
        ensures
            r.deep_view() == self@,
    {
        &self.rules
    }

    /// The distinguished root rule, if the grammar has any rule at all.
    pub fn start_rule(&self) -> (r: Option<&CfgRule>)
        ensures
            match r {
                Some(rule) => self@.len() > 0 && rule@ == self@[0],
                None => self@.len() == 0,
            },
    {
        if self.rules.len() > 0 {
            Some(&self.rules[0])
        } else {
            None
        }
    }

    /// Renders the rule body: each rule closed by a `;` line.
    pub fn render(&self) -> (r: String)
        ensures
            r@ == spec_render_rules(self@),
    {
        let mut s = String::new();
        let mut i: usize = 0;
        proof {
            assert(self@.subrange(0, 0) =~= Seq::<RuleView>::empty());
        }
        while i < self.rules.len()
            invariant
                i <= self.rules@.len(),
                self@.len() == self.rules@.len(),
                forall|j: int| 0 <= j < self@.len() ==> self@[j] == self.rules@[j]@,
                s@ == spec_render_rules(self@.subrange(0, i as int)),
            decreases self.rules@.len() - i,
        {
            let piece = self.rules[i].render();
            s.append(piece.as_str());
            s.append("\n;\n");
            proof {
                reveal_strlit("\n;\n");
                let prev = self@.subrange(0, i as int);
                let cur = self@.subrange(0, i + 1 as int);
                assert(cur =~= prev.push(self@[i as int]));
                lemma_render_rules_push(prev, self@[i as int]);
                assert(s@ =~= spec_render_rules(cur));
            }
            i = i + 1;
        }
        proof {
            assert(self@.subrange(0, self@.len() as int) =~= self@);
        }
        s
    }

    /// Renders the grammar in the plainest oracle's notation.
    pub fn as_hyacc(&self) -> (r: String)
        requires
            self@.len() > 0,
        ensures
            r@ == spec_as_hyacc(self@),
    {
        let mut s = String::from_str("%start ");
        s.append(self.rules[0].lhs());
        s.append("\n\n%%\n\n");
        let body = self.render();
        s.append(body.as_str());
        s.append("\n\n%%");
        proof {
            assert(s@ =~= spec_as_hyacc(self@));
        }
        s
    }

    /// Renders the grammar in the strict-LR oracle's notation.
    pub fn as_yacc(&self) -> (r: String)
        requires
            self@.len() > 0,
        ensures
            r@ == spec_as_yacc(self@),
    {
        let mut s = String::from_str("%define lr.type canonical-lr\n\n");
        let rest = self.as_hyacc();
        s.append(rest.as_str());
        proof {
            assert(s@ =~= spec_as_yacc(self@));
        }
        s
    }

    /// Renders the grammar in the action-annotated oracle's notation.
    pub fn as_lrpar(&self) -> (r: String)
        requires
            self@.len() > 0,
        ensures
            r@ == spec_as_lrpar(self@),
    {
        let mut s = String::from_str("%start ");
        s.append(self.rules[0].lhs());
        s.append("\n\n%%\n\n");
        let mut i: usize = 0;
        let ghost header = "%start "@ + self@[0].lhs + "\n\n%%\n\n"@;
        proof {
            assert(self@.subrange(0, 0) =~= Seq::<RuleView>::empty());
            assert(s@ =~= header + spec_render_rules_lrpar(self@.subrange(0, 0)));
        }
        while i < self.rules.len()
            invariant
                i <= self.rules@.len(),
                self@.len() == self.rules@.len(),
                forall|j: int| 0 <= j < self@.len() ==> self@[j] == self.rules@[j]@,
                s@ == header + spec_render_rules_lrpar(self@.subrange(0, i as int)),
            decreases self.rules@.len() - i,
        {
            let piece = self.rules[i].as_lrpar();
            s.append(piece.as_str());
            s.append("\n;\n");
            proof {
                reveal_strlit("\n;\n");
                let prev = self@.subrange(0, i as int);
                let cur = self@.subrange(0, i + 1 as int);
                assert(cur =~= prev.push(self@[i as int]));
                lemma_render_rules_lrpar_push(prev, self@[i as int]);
                assert(s@ =~= header + spec_render_rules_lrpar(cur));
            }
            i = i + 1;
        }
        s.append("\n\n%%");
        proof {
            assert(self@.subrange(0, self@.len() as int) =~= self@);
            assert(s@ =~= spec_as_lrpar(self@));
        }
        s
    }
}


/// Whether two string slices hold the same text.
pub fn str_eq(a: &str, b: &str) -> (r: bool)
    ensures
        r == (a@ == b@),
{
    let a_owned = String::from_str(a);
    let b_owned = String::from_str(b);
    a_owned == b_owned
}

/// Whether some accepted alternative renders to the same text as `alt`.
pub fn contains_alt(alts: &Vec<RuleAlt>, alt: &RuleAlt) -> (r: bool)
    ensures
        r == exists|j: int|
            0 <= j < alts.deep_view().len() && spec_render_alt(
                #[trigger] alts.deep_view()[j],
            ) == spec_render_alt(alt@),
{
    let mut i: usize = 0;
    while i < alts.len()
        invariant
            i <= alts@.len(),
            forall|j: int|
                0 <= j < i ==> spec_render_alt(#[trigger] alts.deep_view()[j]) != spec_render_alt(
                    alt@,
                ),
        decreases alts@.len() - i,
    {
        if alts[i].eq(alt) {
            proof {
                assert(spec_render_alt(alts.deep_view()[i as int]) == spec_render_alt(alt@));
            }
            return true;
        }
        i = i + 1;
    }
    false
}

} // verus!
