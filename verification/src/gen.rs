//! The randomized grammar generator: builds one candidate grammar from a
//! sampled symbol alphabet and size parameters, enforcing reachability,
//! productivity and non-degeneracy by construction or by rejection.
use vstd::prelude::*;

use crate::analysis::alt_nts;
use crate::analysis::discovered_by;
use crate::counts::cfg_names_valid;
use crate::counts::cfg_rules_nonempty;
use crate::counts::lemma_round_trip_hyacc;
use crate::counts::lemma_round_trip_lrpar;
use crate::counts::lemma_round_trip_yacc;
use crate::counts::parsed_alts;
use crate::counts::parsed_rules;
use crate::counts::parsed_syms;
use crate::counts::total_alts;
use crate::counts::total_syms;
use crate::analysis::lemma_nts_card;
use crate::analysis::lemma_worklist_reachable;
use crate::analysis::worklist_discovery;
use crate::analysis::is_productive;
use crate::analysis::lhs_seq;
use crate::analysis::nonroot_lhs_set;
use crate::analysis::rule_nts;
use crate::analysis::spec_is_productive;
use crate::analysis::spec_reachable;
use crate::analysis::unreachable_non_terms;
use crate::analysis::update_reachable;
use crate::draw::rand_between;
use crate::draw::rand_distinct_indices;
use crate::draw::rand_shuffle;
use crate::grammar::Cfg;
use crate::grammar::CfgRule;
use crate::grammar::LexSymbol;
use crate::grammar::NonTermSymbol;
use crate::grammar::RuleAlt;
use crate::grammar::RuleView;
use crate::grammar::SymView;
use crate::grammar::TermSymbol;
use crate::grammar::contains_alt;
use crate::grammar::is_letter;
use crate::grammar::str_eq;
use crate::grammar::spec_as_hyacc;
use crate::grammar::spec_as_lrpar;
use crate::grammar::spec_as_yacc;
use crate::grammar::spec_render_alt;
use crate::grammar::valid_name;

verus! {

broadcast use {vstd::seq_lib::group_seq_lib_default, vstd::seq_lib::group_to_multiset_ensures};

/// The fewest alternatives a rule may have.
pub const MIN_ALTS: usize = 1;

/// The most alternatives a rule may have.
pub const MAX_ALTS: usize = 3;

/// The most symbols an alternative may have.
pub const MAX_SYMS_IN_ALT: usize = 5;

/// How often a duplicate or degenerate alternative is re-rolled before the
/// whole trial is abandoned as a generation failure.
pub const MAX_ALT_RETRIES: usize = 64;

/// The uppercase alphabet that nonterminal names are sampled from.
pub open spec fn upper_name(i: int) -> Seq<char> {
    if i == 0 {
        "A"@
    } else     if i == 1 {
        "B"@
    } else     if i == 2 {
        "C"@
    } else     if i == 3 {
        "D"@
    } else     if i == 4 {
        "E"@
    } else     if i == 5 {
        "F"@
    } else     if i == 6 {
        "G"@
    } else     if i == 7 {
        "H"@
    } else     if i == 8 {
        "I"@
    } else     if i == 9 {
        "J"@
    } else     if i == 10 {
        "K"@
    } else     if i == 11 {
        "L"@
    } else     if i == 12 {
        "M"@
    } else     if i == 13 {
        "N"@
    } else     if i == 14 {
        "O"@
    } else     if i == 15 {
        "P"@
    } else     if i == 16 {
        "Q"@
    } else     if i == 17 {
        "R"@
    } else     if i == 18 {
        "S"@
    } else     if i == 19 {
        "T"@
    } else     if i == 20 {
        "U"@
    } else     if i == 21 {
        "V"@
    } else     if i == 22 {
        "W"@
    } else     if i == 23 {
        "X"@
    } else     if i == 24 {
        "Y"@
    } else {
        "Z"@
    }
}

/// The lowercase alphabet that terminal names are sampled from.
pub open spec fn lower_name(i: int) -> Seq<char> {
    if i == 0 {
        "a"@
    } else     if i == 1 {
        "b"@
    } else     if i == 2 {
        "c"@
    } else     if i == 3 {
        "d"@
    } else     if i == 4 {
        "e"@
    } else     if i == 5 {
        "f"@
    } else     if i == 6 {
        "g"@
    } else     if i == 7 {
        "h"@
    } else     if i == 8 {
        "i"@
    } else     if i == 9 {
        "j"@
    } else     if i == 10 {
        "k"@
    } else     if i == 11 {
        "l"@
    } else     if i == 12 {
        "m"@
    } else     if i == 13 {
        "n"@
    } else     if i == 14 {
        "o"@
    } else     if i == 15 {
        "p"@
    } else     if i == 16 {
        "q"@
    } else     if i == 17 {
        "r"@
    } else     if i == 18 {
        "s"@
    } else     if i == 19 {
        "t"@
    } else     if i == 20 {
        "u"@
    } else     if i == 21 {
        "v"@
    } else     if i == 22 {
        "w"@
    } else     if i == 23 {
        "x"@
    } else     if i == 24 {
        "y"@
    } else {
        "z"@
    }
}

/// Every sampled nonterminal name is a well-formed single letter, distinct
/// names come from distinct positions, and none spells the root's name.
pub proof fn lemma_upper_names()
    ensures
        forall|i: int| 0 <= i < 26 ==> valid_name(#[trigger] upper_name(i)),
        forall|i: int| 0 <= i < 26 ==> (#[trigger] upper_name(i)).len() == 1,
        forall|i: int, j: int|
            0 <= i < 26 && 0 <= j < 26 && i != j ==> upper_name(i) != upper_name(j),
        forall|i: int| 0 <= i < 26 ==> upper_name(i) != "root"@,
{
    reveal_strlit("A");
    reveal_strlit("B");
    reveal_strlit("C");
    reveal_strlit("D");
    reveal_strlit("E");
    reveal_strlit("F");
    reveal_strlit("G");
    reveal_strlit("H");
    reveal_strlit("I");
    reveal_strlit("J");
    reveal_strlit("K");
    reveal_strlit("L");
    reveal_strlit("M");
    reveal_strlit("N");
    reveal_strlit("O");
    reveal_strlit("P");
    reveal_strlit("Q");
    reveal_strlit("R");
    reveal_strlit("S");
    reveal_strlit("T");
    reveal_strlit("U");
    reveal_strlit("V");
    reveal_strlit("W");
    reveal_strlit("X");
    reveal_strlit("Y");
    reveal_strlit("Z");
    reveal_strlit("root");
    assert forall|i: int| 0 <= i < 26 implies valid_name(#[trigger] upper_name(i)) by {
        assert(upper_name(i).len() == 1);
        assert(is_letter(upper_name(i)[0]));
    }
    assert forall|i: int| 0 <= i < 26 implies (#[trigger] upper_name(i)).len() == 1 by {
        assert(upper_name(i).len() == 1);
    }
    assert forall|i: int, j: int|
        0 <= i < 26 && 0 <= j < 26 && i != j implies upper_name(i) != upper_name(j) by {
        assert(upper_name(i)[0] != upper_name(j)[0]);
    }
    assert forall|i: int| 0 <= i < 26 implies upper_name(i) != "root"@ by {
        assert(upper_name(i).len() == 1);
        assert("root"@.len() == 4);
    }
}

/// Every sampled terminal name is a well-formed single letter.
pub proof fn lemma_lower_names()
    ensures
        forall|i: int| 0 <= i < 26 ==> valid_name(#[trigger] lower_name(i)),
        forall|i: int| 0 <= i < 26 ==> (#[trigger] lower_name(i)).len() == 1,
        forall|i: int, j: int|
            0 <= i < 26 && 0 <= j < 26 && i != j ==> lower_name(i) != lower_name(j),
{
    reveal_strlit("a");
    reveal_strlit("b");
    reveal_strlit("c");
    reveal_strlit("d");
    reveal_strlit("e");
    reveal_strlit("f");
    reveal_strlit("g");
    reveal_strlit("h");
    reveal_strlit("i");
    reveal_strlit("j");
    reveal_strlit("k");
    reveal_strlit("l");
    reveal_strlit("m");
    reveal_strlit("n");
    reveal_strlit("o");
    reveal_strlit("p");
    reveal_strlit("q");
    reveal_strlit("r");
    reveal_strlit("s");
    reveal_strlit("t");
    reveal_strlit("u");
    reveal_strlit("v");
    reveal_strlit("w");
    reveal_strlit("x");
    reveal_strlit("y");
    reveal_strlit("z");
    assert forall|i: int| 0 <= i < 26 implies valid_name(#[trigger] lower_name(i)) by {
        assert(lower_name(i).len() == 1);
        assert(is_letter(lower_name(i)[0]));
    }
    assert forall|i: int| 0 <= i < 26 implies (#[trigger] lower_name(i)).len() == 1 by {
        assert(lower_name(i).len() == 1);
    }
    assert forall|i: int, j: int|
        0 <= i < 26 && 0 <= j < 26 && i != j implies lower_name(i) != lower_name(j) by {
        assert(lower_name(i)[0] != lower_name(j)[0]);
    }
}

fn upper_letter(i: usize) -> (r: String)
    requires
        i < 26,
    ensures
        r@ == upper_name(i as int),
{
    let s: &str = match i {
        0 => "A",
        1 => "B",
        2 => "C",
        3 => "D",
        4 => "E",
        5 => "F",
        6 => "G",
        7 => "H",
        8 => "I",
        9 => "J",
        10 => "K",
        11 => "L",
        12 => "M",
        13 => "N",
        14 => "O",
        15 => "P",
        16 => "Q",
        17 => "R",
        18 => "S",
        19 => "T",
        20 => "U",
        21 => "V",
        22 => "W",
        23 => "X",
        24 => "Y",
        _ => "Z",
    };
    String::from_str(s)
}

fn lower_letter(i: usize) -> (r: String)
    requires
        i < 26,
    ensures
        r@ == lower_name(i as int),
{
    let s: &str = match i {
        0 => "a",
        1 => "b",
        2 => "c",
        3 => "d",
        4 => "e",
        5 => "f",
        6 => "g",
        7 => "h",
        8 => "i",
        9 => "j",
        10 => "k",
        11 => "l",
        12 => "m",
        13 => "n",
        14 => "o",
        15 => "p",
        16 => "q",
        17 => "r",
        18 => "s",
        19 => "t",
        20 => "u",
        21 => "v",
        22 => "w",
        23 => "x",
        24 => "y",
        _ => "z",
    };
    String::from_str(s)
}


/// No two alternatives of the rule render to the same text.
pub open spec fn alts_distinct(r: RuleView) -> bool {
    forall|i: int, j: int|
        0 <= i < j < r.alts.len() ==> spec_render_alt(#[trigger] r.alts[i]) != spec_render_alt(
            #[trigger] r.alts[j],
        )
}

/// The rule never mentions its own left-hand side in any alternative, which
/// rules out the trivial self-alias and immediate self-recursion.
pub open spec fn no_self_ref(r: RuleView) -> bool {
    forall|i: int, j: int|
        0 <= i < r.alts.len() && 0 <= j < r.alts[i].len() ==> !((#[trigger] r.alts[i][j]) is NonTerm
            && r.alts[i][j].name() == r.lhs)
}

/// The structural size bounds of a generated rule: one to three
/// alternatives, at most five symbols each; root alternatives are never
/// empty and, when of exactly one symbol, that symbol is a nonterminal;
/// a sole alternative is never empty.
pub open spec fn rule_bounds(r: RuleView, is_root: bool) -> bool {
    &&& MIN_ALTS <= r.alts.len() <= MAX_ALTS
    &&& forall|i: int| 0 <= i < r.alts.len() ==> (#[trigger] r.alts[i]).len() <= MAX_SYMS_IN_ALT
    &&& is_root ==> forall|i: int| 0 <= i < r.alts.len() ==> (#[trigger] r.alts[i]).len() >= 1
    &&& is_root ==> forall|i: int|
        0 <= i < r.alts.len() && (#[trigger] r.alts[i]).len() == 1 ==> r.alts[i][0] is NonTerm
    &&& r.alts.len() == 1 ==> r.alts[0].len() >= 1
}

/// Every symbol of the rule is a well-formed member of the sampled alphabet.
pub open spec fn rule_syms_wf(r: RuleView, nts: Seq<Seq<char>>) -> bool {
    forall|i: int, j: int|
        0 <= i < r.alts.len() && 0 <= j < r.alts[i].len() ==> wf_sym(
            #[trigger] r.alts[i][j],
            nts,
        )
}

/// The nonterminal names referenced anywhere in a list of alternatives.
pub open spec fn alts_nts(alts: Seq<Seq<SymView>>) -> Set<Seq<char>> {
    Set::new(
        |n: Seq<char>|
            exists|i: int| 0 <= i < alts.len() && #[trigger] alt_nts(alts[i]).contains(n),
    )
}

pub proof fn lemma_alts_nts_push(alts: Seq<Seq<SymView>>, a: Seq<SymView>)
    ensures
        alts_nts(alts.push(a)) == alts_nts(alts).union(alt_nts(a)),
{
    let q = alts.push(a);
    assert forall|n: Seq<char>| alts_nts(q).contains(n) implies alts_nts(alts).union(
        alt_nts(a),
    ).contains(n) by {
        let i = choose|i: int| 0 <= i < q.len() && #[trigger] alt_nts(q[i]).contains(n);
        if i < alts.len() {
            assert(q[i] == alts[i]);
            assert(alt_nts(alts[i]).contains(n));
        } else {
            assert(q[i] == a);
        }
    }
    assert forall|n: Seq<char>| alts_nts(alts).union(alt_nts(a)).contains(n) implies alts_nts(
        q,
    ).contains(n) by {
        if alts_nts(alts).contains(n) {
            let i = choose|i: int| 0 <= i < alts.len() && #[trigger] alt_nts(alts[i]).contains(n);
            assert(q[i] == alts[i]);
            assert(alt_nts(q[i]).contains(n));
        } else {
            assert(q[alts.len() as int] == a);
            assert(alt_nts(q[alts.len() as int]).contains(n));
        }
    }
    assert(alts_nts(q) =~= alts_nts(alts).union(alt_nts(a)));
}

/// Everything the generator guarantees of one rule: size bounds, pairwise
/// distinct alternatives, no reference to its own name, well-formed symbols
/// and a well-formed left-hand-side name.
pub open spec fn wf_gen_rule(r: RuleView, is_root: bool, nts: Seq<Seq<char>>) -> bool {
    &&& rule_bounds(r, is_root)
    &&& alts_distinct(r)
    &&& no_self_ref(r)
    &&& rule_syms_wf(r, nts)
    &&& valid_name(r.lhs)
}

/// Everything a successful generation trial guarantees of the whole
/// grammar: the root rule first, one rule per name, the rule names being
/// exactly the root plus the names reachable from the root's alternatives,
/// productivity, per-rule well-formedness, and closure of every reference.
pub open spec fn wf_gen_cfg(g: Seq<RuleView>) -> bool {
    &&& g.len() >= 2
    &&& g[0].lhs == "root"@
    &&& lhs_seq(g).no_duplicates()
    &&& nonroot_lhs_set(g) == spec_reachable(g)
    &&& spec_is_productive(g)
    &&& forall|t: int| 0 <= t < g.len() ==> rule_bounds(#[trigger] g[t], t == 0)
    &&& forall|t: int| 0 <= t < g.len() ==> alts_distinct(#[trigger] g[t])
    &&& forall|t: int| 0 <= t < g.len() ==> no_self_ref(#[trigger] g[t])
    &&& forall|t: int| 0 <= t < g.len() ==> valid_name((#[trigger] g[t]).lhs)
    &&& forall|t: int|
        0 <= t < g.len() ==> rule_nts(#[trigger] g[t]).subset_of(nonroot_lhs_set(g))
    &&& forall|t: int, i: int, j: int|
        0 <= t < g.len() && 0 <= i < g[t].alts.len() && 0 <= j < g[t].alts[i].len()
            ==> valid_name((#[trigger] g[t].alts[i][j]).name()) && (g[t].alts[i][j] is NonTerm
            ==> nonroot_lhs_set(g).contains(g[t].alts[i][j].name()))
}

/// The error type of the generation pipeline: a fatal condition with a
/// human-readable description. Expected negative outcomes (an unreachable
/// nonterminal, an unproductive grammar) are never errors.
#[derive(Debug)]
pub struct CfgGenError {
    msg: String,
}

impl View for CfgGenError {
    type V = Seq<char>;

    closed spec fn view(&self) -> Seq<char> {
        self.msg@
    }
}

impl CfgGenError {
    pub fn new(msg: String) -> (e: Self)
        ensures
            e@ == msg@,
    {
        CfgGenError { msg }
    }

    /// The description of the fatal condition.
    pub fn message(&self) -> (r: &str)
        ensures
            r@ == self@,
    {
        self.msg.as_str()
    }
}

/// A pool symbol is well formed when a terminal has a proper name and a
/// nonterminal names one of the sampled nonterminals (so never the root).
pub open spec fn wf_sym(s: SymView, nts: Seq<Seq<char>>) -> bool {
    match s {
        SymView::Term { name } => valid_name(name),
        SymView::NonTerm { name } => nts.contains(name) && valid_name(name) && name != "root"@,
    }
}

/// The symbol pool that a trial draws from, laid out as step one of a
/// trial builds it: one terminal symbol per sampled terminal name, then
/// one nonterminal symbol per sampled nonterminal name.
pub open spec fn pool_model(tnames: Seq<Seq<char>>, ntnames: Seq<Seq<char>>) -> Seq<SymView> {
    tnames.map_values(|n: Seq<char>| SymView::Term { name: n }) + ntnames.map_values(
        |n: Seq<char>| SymView::NonTerm { name: n },
    )
}

/// The pool `p` holds, in some order, exactly one terminal per name of
/// `tnames` — distinct single letters — plus one nonterminal per name of
/// `ntnames`.
pub open spec fn pool_holds(
    p: Seq<SymView>,
    tnames: Seq<Seq<char>>,
    ntnames: Seq<Seq<char>>,
) -> bool {
    &&& tnames.no_duplicates()
    &&& forall|j: int|
        0 <= j < tnames.len() ==> valid_name(#[trigger] tnames[j]) && tnames[j].len() == 1
    &&& p.to_multiset() == pool_model(tnames, ntnames).to_multiset()
}

/// A pool that holds the model contains each sampled terminal and each
/// sampled nonterminal as a symbol.
pub proof fn lemma_pool_contains(p: Seq<SymView>, tnames: Seq<Seq<char>>, ntnames: Seq<Seq<char>>)
    requires
        pool_holds(p, tnames, ntnames),
    ensures
        forall|j: int|
            0 <= j < ntnames.len() ==> p.contains(
                SymView::NonTerm { name: #[trigger] ntnames[j] },
            ),
        forall|j: int|
            0 <= j < tnames.len() ==> p.contains(SymView::Term { name: #[trigger] tnames[j] }),
{
    let m = pool_model(tnames, ntnames);
    assert forall|j: int| 0 <= j < ntnames.len() implies p.contains(
        SymView::NonTerm { name: #[trigger] ntnames[j] },
    ) by {
        let x = SymView::NonTerm { name: ntnames[j] };
        assert(m[tnames.len() + j] == x);
        assert(m.contains(x));
        assert(m.to_multiset().count(x) > 0);
        assert(p.to_multiset().count(x) > 0);
    }
    assert forall|j: int| 0 <= j < tnames.len() implies p.contains(
        SymView::Term { name: #[trigger] tnames[j] },
    ) by {
        let x = SymView::Term { name: tnames[j] };
        assert(m[j] == x);
        assert(m.contains(x));
        assert(m.to_multiset().count(x) > 0);
        assert(p.to_multiset().count(x) > 0);
    }
}

/// The symbols `a` were drawn from `p` at pairwise-distinct positions
/// `ids`: a draw without replacement.
pub open spec fn picks_from(p: Seq<SymView>, a: Seq<SymView>, ids: Seq<int>) -> bool {
    &&& ids.no_duplicates()
    &&& ids.len() == a.len()
    &&& forall|j: int| 0 <= j < ids.len() ==> 0 <= #[trigger] ids[j] < p.len() && p[ids[j]] == a[j]
}

/// The generator's read-only configuration for one grammar size: the sampled
/// nonterminal names and the lexical symbol pool.
pub struct CfgGen {
    cfg_size: usize,
    non_terms: Vec<String>,
    lex_syms: Vec<LexSymbol>,
}

impl CfgGen {
    /// The grammar size: the number of rules, root included.
    pub closed spec fn size_of(&self) -> int {
        self.cfg_size as int
    }

    /// The sampled nonterminal names, root excluded.
    pub closed spec fn nts(&self) -> Seq<Seq<char>> {
        self.non_terms.deep_view()
    }

    /// The lexical symbol pool that rule alternatives draw from.
    pub closed spec fn pool(&self) -> Seq<SymView> {
        self.lex_syms.deep_view()
    }

    /// Distinct single-letter nonterminal names, one fewer than the size;
    /// a pool holding exactly the sampled terminals (distinct single
    /// letters) plus one nonterminal per sampled name, in some order.
    pub open spec fn wf(&self) -> bool {
        &&& 2 <= self.size_of() <= 26
        &&& self.nts().len() == self.size_of() - 1
        &&& self.nts().no_duplicates()
        &&& forall|j: int|
            0 <= j < self.nts().len() ==> valid_name(#[trigger] self.nts()[j]) && self.nts()[j]
                != "root"@ && self.nts()[j].len() == 1
        &&& forall|j: int| 0 <= j < self.pool().len() ==> wf_sym(#[trigger] self.pool()[j], self.nts())
        &&& self.pool().len() == 2 * self.size_of() - 1
        &&& exists|tnames: Seq<Seq<char>>|
            #[trigger] pool_holds(self.pool(), tnames, self.nts()) && tnames.len() == self.size_of()
    }

    /// The grammar size this generator was configured with.
    pub fn size(&self) -> (r: usize)
        ensures
            r == self.size_of(),
    {
        self.cfg_size
    }

    /// The sampled nonterminal names.
    pub fn non_terms(&self) -> (r: &Vec<String>)
        ensures
            r.deep_view() == self.nts(),
    {
        &self.non_terms
    }

    /// Samples, without replacement, `cfg_size - 1` nonterminal names from
    /// the uppercase alphabet and `cfg_size` terminal names from the
    /// lowercase one, and shuffles them into one symbol pool.
    pub fn new(cfg_size: usize) -> (g: Self)
        requires
            2 <= cfg_size <= 26,
        ensures
            g.wf(),
            g.size_of() == cfg_size,
    {
        let uidx = rand_distinct_indices(26, cfg_size - 1);
        let mut non_terms: Vec<String> = Vec::new();
        let mut i: usize = 0;
        while i < uidx.len()
            invariant
                i <= uidx@.len(),
                forall|a: int| 0 <= a < uidx@.len() ==> #[trigger] uidx@[a] < 26,
                forall|a: int, b: int| 0 <= a < b < uidx@.len() ==> uidx@[a] != uidx@[b],
                non_terms@.len() == i,
                forall|a: int|
                    0 <= a < i ==> non_terms.deep_view()[a] == upper_name(#[trigger] uidx@[a] as int),
            decreases uidx@.len() - i,
        {
            non_terms.push(upper_letter(uidx[i]));
            i = i + 1;
        }
        proof {
            lemma_upper_names();
            assert forall|a: int, b: int|
                0 <= a < b < non_terms.deep_view().len() implies non_terms.deep_view()[a]
                != non_terms.deep_view()[b] by {
                assert(upper_name(uidx@[a] as int) != upper_name(uidx@[b] as int));
            }
            assert(non_terms.deep_view().no_duplicates());
            assert forall|a: int| 0 <= a < non_terms.deep_view().len() implies valid_name(
                #[trigger] non_terms.deep_view()[a],
            ) && non_terms.deep_view()[a] != "root"@ && non_terms.deep_view()[a].len() == 1 by {
                assert(non_terms.deep_view()[a] == upper_name(uidx@[a] as int));
            }
        }
        let ghost nts_deep = non_terms.deep_view();
        let tidx = rand_distinct_indices(26, cfg_size);
        let mut lex_syms: Vec<LexSymbol> = Vec::new();
        let mut i: usize = 0;
        while i < tidx.len()
            invariant
                i <= tidx@.len(),
                forall|a: int| 0 <= a < tidx@.len() ==> #[trigger] tidx@[a] < 26,
                lex_syms@.len() == i,
                forall|j: int|
                    0 <= j < i ==> wf_sym(#[trigger] lex_syms.deep_view()[j], nts_deep),
                forall|j: int|
                    0 <= j < i ==> #[trigger] lex_syms.deep_view()[j] == (SymView::Term {
                        name: lower_name(tidx@[j] as int),
                    }),
            decreases tidx@.len() - i,
        {
            let name = lower_letter(tidx[i]);
            proof {
                lemma_lower_names();
                assert(valid_name(name@));
                assert(name@ == lower_name(tidx@[i as int] as int));
            }
            let ghost prev = lex_syms.deep_view();
            lex_syms.push(LexSymbol::Term(TermSymbol::new(name)));
            proof {
                assert(lex_syms.deep_view() =~= prev.push(SymView::Term { name: name@ }));
            }
            i = i + 1;
        }
        let mut i: usize = 0;
        while i < non_terms.len()
            invariant
                i <= non_terms@.len(),
                nts_deep == non_terms.deep_view(),
                cfg_size == tidx@.len(),
                lex_syms@.len() == cfg_size + i,
                forall|a: int|
                    0 <= a < nts_deep.len() ==> valid_name(#[trigger] nts_deep[a]) && nts_deep[a]
                        != "root"@,
                forall|j: int|
                    0 <= j < lex_syms@.len() ==> wf_sym(#[trigger] lex_syms.deep_view()[j], nts_deep),
                forall|j: int|
                    0 <= j < cfg_size ==> #[trigger] lex_syms.deep_view()[j] == (SymView::Term {
                        name: lower_name(tidx@[j] as int),
                    }),
                forall|j: int|
                    cfg_size <= j < lex_syms@.len() ==> #[trigger] lex_syms.deep_view()[j] == (
                    SymView::NonTerm { name: nts_deep[j - cfg_size] }),
            decreases non_terms@.len() - i,
        {
            let name = non_terms[i].clone();
            proof {
                assert(nts_deep[i as int] == name@);
                assert(nts_deep.contains(name@));
                assert(valid_name(name@) && name@ != "root"@);
            }
            let ghost prev = lex_syms.deep_view();
            lex_syms.push(LexSymbol::NonTerm(NonTermSymbol::new(name)));
            proof {
                assert(lex_syms.deep_view() =~= prev.push(SymView::NonTerm { name: name@ }));
            }
            i = i + 1;
        }
        let ghost before = lex_syms@;
        let ghost before_deep = lex_syms.deep_view();
        let ghost tnames = Seq::new(cfg_size as nat, |k: int| lower_name(tidx@[k] as int));
        proof {
            assert forall|k: int| 0 <= k < before.len() implies wf_sym(
                #[trigger] before[k]@,
                nts_deep,
            ) by {
                assert(before[k]@ == lex_syms.deep_view()[k]);
            }
            lemma_lower_names();
            assert(tnames.no_duplicates()) by {
                assert forall|a: int, b: int| 0 <= a < b < tnames.len() implies tnames[a]
                    != tnames[b] by {
                    assert(lower_name(tidx@[a] as int) != lower_name(tidx@[b] as int));
                }
            }
            assert forall|j: int| 0 <= j < tnames.len() implies valid_name(#[trigger] tnames[j])
                && tnames[j].len() == 1 by {
                assert(tnames[j] == lower_name(tidx@[j] as int));
            }
            assert(before_deep =~= pool_model(tnames, nts_deep));
            assert(pool_holds(before_deep, tnames, nts_deep));
        }
        rand_shuffle(&mut lex_syms);
        proof {
            assert forall|j: int|
                0 <= j < lex_syms@.len() implies wf_sym(
                #[trigger] lex_syms.deep_view()[j],
                nts_deep,
            ) by {
                let x = lex_syms@[j];
                assert(lex_syms@.contains(x));
                assert(lex_syms@.to_multiset().contains(x));
                assert(before.to_multiset().contains(x));
                assert(before.contains(x));
                let k = choose|k: int| 0 <= k < before.len() && before[k] == x;
                assert(wf_sym(before[k]@, nts_deep));
            }
            assert(lex_syms.deep_view().to_multiset() == before_deep.to_multiset());
            assert(pool_holds(lex_syms.deep_view(), tnames, nts_deep));
            assert(lex_syms.deep_view().len() == 2 * cfg_size - 1);
        }
        let ghost final_pool = lex_syms.deep_view();
        let g = CfgGen { cfg_size, non_terms, lex_syms };
        proof {
            assert(g.pool() == final_pool);
            assert(g.nts() == nts_deep);
            assert(pool_holds(g.pool(), tnames, g.nts()) && tnames.len() == g.size_of());
        }
        g
    }

    /// Draws one random symbol from the pool; fails only on an empty pool.
    fn get_lex_sym(&self, pool: &Vec<LexSymbol>) -> (s: Option<LexSymbol>)
        ensures
            match s {
                Some(x) => pool.deep_view().contains(x@),
                None => pool@.len() == 0,
            },
    {
        if pool.len() == 0 {
            None
        } else {
            let k = rand_between(0, pool.len() - 1);
            let x = pool[k].clone();
            proof {
                assert(pool.deep_view()[k as int] == x@);
            }
            Some(x)
        }
    }

    /// Generates one alternative of `no_syms` symbols drawn from the pool:
    /// none for the empty alternative, one random symbol, or a draw without
    /// replacement (so fewer symbols when the pool is smaller than asked).
    fn gen_alt(&self, pool: &Vec<LexSymbol>, no_syms: usize) -> (r: Option<RuleAlt>)
        ensures
            match r {
                Some(alt) => {
                    &&& alt@.len() == (if no_syms <= pool@.len() {
                        no_syms as int
                    } else {
                        pool@.len() as int
                    })
                    &&& (no_syms >= 1 ==> alt@.len() >= 1)
                    &&& forall|j: int|
                        0 <= j < alt@.len() ==> pool.deep_view().contains(#[trigger] alt@[j])
                    &&& exists|ids: Seq<int>| #[trigger] picks_from(pool.deep_view(), alt@, ids)
                },
                None => no_syms >= 1 && pool@.len() == 0,
            },
    {
        if no_syms == 0 {
            let v: Vec<LexSymbol> = Vec::new();
            let alt = RuleAlt::new(v);
            proof {
                assert(alt@.len() == 0);
                assert(picks_from(pool.deep_view(), alt@, Seq::<int>::empty()));
            }
            return Some(alt);
        }
        if pool.len() == 0 {
            return None;
        }
        if no_syms == 1 {
            match self.get_lex_sym(pool) {
                Some(sym) => {
                    let ghost symv = sym@;
                    let mut v: Vec<LexSymbol> = Vec::new();
                    v.push(sym);
                    let alt = RuleAlt::new(v);
                    proof {
                        assert(v.deep_view() =~= seq![symv]);
                        assert(alt@.len() == 1);
                        assert(alt@[0] == symv);
                        let k = choose|k: int|
                            0 <= k < pool.deep_view().len() && pool.deep_view()[k] == symv;
                        assert(seq![k].no_duplicates());
                        assert(picks_from(pool.deep_view(), alt@, seq![k]));
                    }
                    return Some(alt);
                },
                None => {
                    return None;
                },
            }
        }
        let amount = if no_syms <= pool.len() {
            no_syms
        } else {
            pool.len()
        };
        let ids = rand_distinct_indices(pool.len(), amount);
        let mut v: Vec<LexSymbol> = Vec::new();
        let mut i: usize = 0;
        while i < ids.len()
            invariant
                i <= ids@.len(),
                forall|a: int| 0 <= a < ids@.len() ==> #[trigger] ids@[a] < pool@.len(),
                pool@.len() == pool.deep_view().len(),
                v@.len() == i,
                forall|j: int| 0 <= j < i ==> pool.deep_view().contains(#[trigger] v.deep_view()[j]),
                forall|j: int|
                    0 <= j < i ==> #[trigger] v.deep_view()[j] == pool.deep_view()[ids@[j] as int],
            decreases ids@.len() - i,
        {
            let ghost prev = v.deep_view();
            let x = pool[ids[i]].clone();
            proof {
                assert(pool.deep_view()[ids@[i as int] as int] == x@);
            }
            v.push(x);
            proof {
                assert(v.deep_view() =~= prev.push(x@));
            }
            i = i + 1;
        }
        let alt = RuleAlt::new(v);
        proof {
            assert(v.deep_view().len() == v@.len());
            assert(alt@.len() == ids@.len());
            let gids = Seq::new(ids@.len() as nat, |j: int| ids@[j] as int);
            assert(gids.no_duplicates()) by {
                assert forall|a: int, b: int| 0 <= a < b < gids.len() implies gids[a]
                    != gids[b] by {
                    assert(ids@[a] != ids@[b]);
                }
            }
            assert(picks_from(pool.deep_view(), alt@, gids));
        }
        Some(alt)
    }

    /// Generates one rule for `nt`: one to three pairwise-distinct
    /// alternatives drawn from the pool with the rule's own name excluded;
    /// a sole alternative is never empty, and every root alternative of one
    /// symbol is forced to be a nonterminal. Newly referenced nonterminals
    /// are appended to the reachable worklist. Fails after too many
    /// duplicate re-rolls.
    pub fn gen_rule(&self, nt: &str, is_root: bool, root_reach: &mut Vec<String>) -> (r: Option<
        CfgRule,
    >)
        requires
            self.wf(),
            is_root ==> nt@ == "root"@,
            old(root_reach).deep_view().no_duplicates(),
            forall|j: int|
                0 <= j < old(root_reach).deep_view().len() ==> self.nts().contains(
                    #[trigger] old(root_reach).deep_view()[j],
                ),
        ensures
            final(root_reach).deep_view().no_duplicates(),
            final(root_reach).deep_view().len() >= old(root_reach).deep_view().len(),
            final(root_reach).deep_view().subrange(0, old(root_reach).deep_view().len() as int)
                == old(root_reach).deep_view(),
            forall|j: int|
                0 <= j < final(root_reach).deep_view().len() ==> self.nts().contains(
                    #[trigger] final(root_reach).deep_view()[j],
                ),
            match r {
                Some(rule) => {
                    &&& rule@.lhs == nt@
                    &&& rule_bounds(rule@, is_root)
                    &&& alts_distinct(rule@)
                    &&& no_self_ref(rule@)
                    &&& rule_syms_wf(rule@, self.nts())
                    &&& forall|i: int, j: int|
                        0 <= i < rule@.alts.len() && 0 <= j < rule@.alts[i].len()
                            ==> self.pool().contains(#[trigger] rule@.alts[i][j])
                    &&& final(root_reach).deep_view().to_set() == old(
                        root_reach,
                    ).deep_view().to_set().union(rule_nts(rule@))
                    &&& forall|j: int|
                        old(root_reach).deep_view().len() <= j < final(root_reach).deep_view().len()
                            ==> rule_nts(rule@).contains(
                            #[trigger] final(root_reach).deep_view()[j],
                        )
                },
                None => true,
            },
    {
        let no_alts = rand_between(MIN_ALTS, MAX_ALTS);
        let mut pool: Vec<LexSymbol> = Vec::new();
        let mut i: usize = 0;
        while i < self.lex_syms.len()
            invariant
                self.wf(),
                i <= self.pool().len(),
                self.lex_syms@.len() == self.pool().len(),
                forall|j: int| 0 <= j < self.pool().len() ==> self.pool()[j] == self.lex_syms@[j]@,
                forall|j: int|
                    0 <= j < pool.deep_view().len() ==> wf_sym(
                        #[trigger] pool.deep_view()[j],
                        self.nts(),
                    ) && !(pool.deep_view()[j] is NonTerm && pool.deep_view()[j].name() == nt@)
                        && self.pool().contains(pool.deep_view()[j]),
                forall|k: int|
                    0 <= k < i && (#[trigger] self.pool()[k]) is Term ==> pool.deep_view().contains(
                        self.pool()[k],
                    ),
            decreases self.pool().len() - i,
        {
            let keep = match &self.lex_syms[i] {
                LexSymbol::NonTerm(s) => !str_eq(s.name(), nt),
                LexSymbol::Term(_) => true,
            };
            if keep {
                let ghost prev = pool.deep_view();
                let x = self.lex_syms[i].clone();
                pool.push(x);
                proof {
                    assert(pool.deep_view() =~= prev.push(self.pool()[i as int]));
                    assert forall|k: int|
                        0 <= k < i + 1 && (#[trigger] self.pool()[k]) is Term
                        implies pool.deep_view().contains(self.pool()[k]) by {
                        if k < i {
                            let x2 = choose|x2: int|
                                0 <= x2 < prev.len() && prev[x2] == self.pool()[k];
                            assert(pool.deep_view()[x2] == self.pool()[k]);
                        } else {
                            assert(pool.deep_view()[prev.len() as int] == self.pool()[k]);
                        }
                    }
                }
            } else {
                proof {
                    assert(!((self.pool()[i as int]) is Term));
                }
            }
            i = i + 1;
        }
        proof {
            if is_root {
                // the root's own name is never a pool symbol, so the pool
                // keeps all sampled terminals: at least two, since the
                // grammar size is at least two
                let tnames = choose|tnames: Seq<Seq<char>>|
                    #[trigger] pool_holds(self.pool(), tnames, self.nts()) && tnames.len()
                        == self.size_of();
                lemma_pool_contains(self.pool(), tnames, self.nts());
                let x0 = SymView::Term { name: tnames[0] };
                let x1 = SymView::Term { name: tnames[1] };
                assert(x0 != x1) by {
                    assert(tnames[0] != tnames[1]);
                }
                let k0 = choose|k0: int| 0 <= k0 < self.pool().len() && self.pool()[k0] == x0;
                let k1 = choose|k1: int| 0 <= k1 < self.pool().len() && self.pool()[k1] == x1;
                assert(pool.deep_view().contains(x0));
                assert(pool.deep_view().contains(x1));
                let p0 = choose|p0: int|
                    0 <= p0 < pool.deep_view().len() && pool.deep_view()[p0] == x0;
                let p1 = choose|p1: int|
                    0 <= p1 < pool.deep_view().len() && pool.deep_view()[p1] == x1;
                assert(p0 != p1);
                assert(pool.deep_view().len() >= 2);
            }
        }
        let mut alts: Vec<RuleAlt> = Vec::new();
        let mut retries: usize = 0;
        let ghost orig = root_reach.deep_view();
        while alts.len() < no_alts
            invariant
                self.wf(),
                is_root ==> nt@ == "root"@,
                no_alts <= MAX_ALTS,
                retries <= MAX_ALT_RETRIES,
                alts@.len() <= no_alts,
                forall|j: int|
                    0 <= j < pool.deep_view().len() ==> wf_sym(
                        #[trigger] pool.deep_view()[j],
                        self.nts(),
                    ) && !(pool.deep_view()[j] is NonTerm && pool.deep_view()[j].name() == nt@)
                        && self.pool().contains(pool.deep_view()[j]),
                pool@.len() == pool.deep_view().len(),
                is_root ==> pool@.len() >= 2,
                forall|a: int, b: int|
                    0 <= a < b < alts.deep_view().len() ==> spec_render_alt(
                        #[trigger] alts.deep_view()[a],
                    ) != spec_render_alt(#[trigger] alts.deep_view()[b]),
                forall|a: int|
                    0 <= a < alts.deep_view().len() ==> (#[trigger] alts.deep_view()[a]).len()
                        <= MAX_SYMS_IN_ALT,
                (is_root || no_alts == 1) ==> forall|a: int|
                    0 <= a < alts.deep_view().len() ==> (#[trigger] alts.deep_view()[a]).len() >= 1,
                is_root ==> forall|a: int|
                    0 <= a < alts.deep_view().len() && (#[trigger] alts.deep_view()[a]).len() == 1
                        ==> alts.deep_view()[a][0] is NonTerm,
                forall|a: int, j: int|
                    0 <= a < alts.deep_view().len() && 0 <= j < alts.deep_view()[a].len()
                        ==> wf_sym(#[trigger] alts.deep_view()[a][j], self.nts()) && !(
                    alts.deep_view()[a][j] is NonTerm && alts.deep_view()[a][j].name() == nt@)
                        && self.pool().contains(alts.deep_view()[a][j]),
                orig == old(root_reach).deep_view(),
                root_reach.deep_view().no_duplicates(),
                root_reach.deep_view().len() >= orig.len(),
                root_reach.deep_view().subrange(0, orig.len() as int) == orig,
                forall|j: int|
                    0 <= j < root_reach.deep_view().len() ==> self.nts().contains(
                        #[trigger] root_reach.deep_view()[j],
                    ),
                root_reach.deep_view().to_set() == orig.to_set().union(alts_nts(alts.deep_view())),
                forall|j: int|
                    orig.len() <= j < root_reach.deep_view().len() ==> alts_nts(
                        alts.deep_view(),
                    ).contains(#[trigger] root_reach.deep_view()[j]),
            decreases no_alts - alts@.len(), MAX_ALT_RETRIES - retries,
        {
            let no_syms = if is_root || no_alts == 1 {
                rand_between(1, MAX_SYMS_IN_ALT)
            } else {
                rand_between(0, MAX_SYMS_IN_ALT)
            };
            let alt_opt = if is_root && no_syms == 1 {
                let k = rand_between(0, self.non_terms.len() - 1);
                let name = self.non_terms[k].clone();
                proof {
                    assert(self.nts()[k as int] == name@);
                    assert(self.nts().contains(name@));
                }
                let mut v: Vec<LexSymbol> = Vec::new();
                v.push(LexSymbol::NonTerm(NonTermSymbol::new(name)));
                let forced = RuleAlt::new(v);
                proof {
                    assert(v.deep_view() =~= seq![SymView::NonTerm { name: name@ }]);
                    assert(forced@.len() == 1);
                }
                Some(forced)
            } else {
                self.gen_alt(&pool, no_syms)
            };
            let alt = match alt_opt {
                Some(a) => a,
                None => {
                    return None;
                },
            };
            proof {
                assert forall|j: int| 0 <= j < alt@.len() implies wf_sym(
                    #[trigger] alt@[j],
                    self.nts(),
                ) && !(alt@[j] is NonTerm && alt@[j].name() == nt@) && self.pool().contains(
                    alt@[j],
                ) by {
                    if is_root && no_syms == 1 {
                        assert(alt@[j] is NonTerm);
                        assert(self.nts().contains(alt@[j].name()));
                        let a = choose|a: int|
                            0 <= a < self.nts().len() && self.nts()[a] == alt@[j].name();
                        assert(valid_name(self.nts()[a]) && self.nts()[a] != "root"@);
                        let tnames = choose|tnames: Seq<Seq<char>>|
                            #[trigger] pool_holds(self.pool(), tnames, self.nts()) && tnames.len()
                                == self.size_of();
                        lemma_pool_contains(self.pool(), tnames, self.nts());
                        assert(alt@[j] == (SymView::NonTerm { name: self.nts()[a] }));
                    } else {
                        assert(pool.deep_view().contains(alt@[j]));
                        let k = choose|k: int|
                            0 <= k < pool.deep_view().len() && pool.deep_view()[k] == alt@[j];
                        assert(self.pool().contains(pool.deep_view()[k]));
                    }
                }
                if is_root && alt@.len() == 1 {
                    assert(alt@[0] is NonTerm) by {
                        if !(is_root && no_syms == 1) {
                            assert(no_syms >= 2);
                            assert(alt@.len() >= 2);
                        }
                    }
                }
            }
            if !contains_alt(&alts, &alt) {
                let ghost rr_before = root_reach.deep_view();
                let ghost alts_before = alts.deep_view();
                update_reachable(&alt, root_reach);
                proof {
                    assert forall|n: Seq<char>| alt_nts(alt@).contains(n) implies self.nts().contains(
                        n,
                    ) by {
                        let x = choose|x: int|
                            0 <= x < alt@.len() && (#[trigger] alt@[x]) is NonTerm && alt@[x].name()
                                == n;
                        assert(wf_sym(alt@[x], self.nts()));
                    }
                    assert forall|j: int|
                        0 <= j < root_reach.deep_view().len() implies self.nts().contains(
                        #[trigger] root_reach.deep_view()[j],
                    ) by {
                        if j < rr_before.len() {
                            assert(root_reach.deep_view()[j] == rr_before[j]);
                        } else {
                            assert(alt_nts(alt@).contains(root_reach.deep_view()[j]));
                        }
                    }
                }
                alts.push(alt);
                proof {
                    assert(alts.deep_view() =~= alts_before.push(alt@));
                    lemma_alts_nts_push(alts_before, alt@);
                    assert(root_reach.deep_view().to_set() =~= orig.to_set().union(
                        alts_nts(alts.deep_view()),
                    ));
                    assert(root_reach.deep_view().subrange(0, orig.len() as int) =~= orig);
                    assert forall|j: int|
                        orig.len() <= j < root_reach.deep_view().len() implies alts_nts(
                        alts.deep_view(),
                    ).contains(#[trigger] root_reach.deep_view()[j]) by {
                        if j < rr_before.len() {
                            assert(root_reach.deep_view()[j] == rr_before[j]);
                            assert(alts_nts(alts_before).contains(rr_before[j]));
                        } else {
                            assert(alt_nts(alt@).contains(root_reach.deep_view()[j]));
                        }
                    }
                    assert forall|a: int, b: int|
                        0 <= a < b < alts.deep_view().len() implies spec_render_alt(
                        #[trigger] alts.deep_view()[a],
                    ) != spec_render_alt(#[trigger] alts.deep_view()[b]) by {
                        if b < alts_before.len() {
                            assert(alts.deep_view()[a] == alts_before[a]);
                            assert(alts.deep_view()[b] == alts_before[b]);
                        } else {
                            assert(alts.deep_view()[a] == alts_before[a]);
                            assert(alts.deep_view()[b] == alt@);
                        }
                    }
                }
            } else {
                if retries >= MAX_ALT_RETRIES {
                    return None;
                }
                retries = retries + 1;
            }
        }
        let lhs = String::from_str(nt);
        let rule = CfgRule::new(lhs, alts);
        proof {
            assert(rule@.alts == alts.deep_view());
            assert(rule@.lhs == nt@);
            assert(rule_nts(rule@) =~= alts_nts(alts.deep_view()));
        }
        Some(rule)
    }

    /// One generation trial: grows the rule set lazily from the root along
    /// the reachable worklist, then rejects the candidate when any declared
    /// nonterminal was never reached or the grammar is not productive. Both
    /// rejections are expected, frequent outcomes, not errors.
    ///
    /// A produced grammar has exactly the configured size; its non-root
    /// rule names are exactly the names reachable from the root rule's
    /// alternatives; it is productive; and every rule is well formed, with
    /// pairwise-distinct alternatives and no rule referencing its own name.
    pub fn generate(&self) -> (r: Option<Cfg>)
        requires
            self.wf(),
        ensures
            match r {
                Some(cfg) => {
                    &&& cfg@.len() == self.size_of()
                    &&& cfg@[0].lhs == "root"@
                    &&& lhs_seq(cfg@).no_duplicates()
                    &&& nonroot_lhs_set(cfg@) == spec_reachable(cfg@)
                    &&& spec_is_productive(cfg@)
                    &&& forall|t: int|
                        0 <= t < cfg@.len() ==> wf_gen_rule(#[trigger] cfg@[t], t == 0, self.nts())
                    &&& forall|t: int|
                        0 <= t < cfg@.len() ==> rule_nts(#[trigger] cfg@[t]).subset_of(
                            nonroot_lhs_set(cfg@),
                        )
                    &&& forall|t: int, i: int, j: int|
                        0 <= t < cfg@.len() && 0 <= i < cfg@[t].alts.len() && 0 <= j
                            < cfg@[t].alts[i].len() ==> self.pool().contains(
                            #[trigger] cfg@[t].alts[i][j],
                        )
                    &&& wf_gen_cfg(cfg@)
                },
                None => true,
            },
    {
        let mut rules: Vec<CfgRule> = Vec::new();
        let mut root_reach: Vec<String> = Vec::new();
        let root_rule = match self.gen_rule("root", true, &mut root_reach) {
            Some(x) => x,
            None => {
                return None;
            },
        };
        proof {
            reveal_strlit("root");
            assert(valid_name("root"@)) by {
                assert("root"@.len() == 4);
                assert(is_letter("root"@[0]));
                assert(is_letter("root"@[1]));
                assert(is_letter("root"@[2]));
                assert(is_letter("root"@[3]));
            }
        }
        let ghost root_view = root_rule@;
        rules.push(root_rule);
        proof {
            assert(rules.deep_view() =~= seq![root_view]);
            assert(root_reach.deep_view().to_set() =~= Seq::<Seq<char>>::empty().to_set().union(
                rule_nts(root_view),
            ));
            assert forall|t: int| 0 <= t < root_reach.deep_view().len() implies discovered_by(
                rules.deep_view(),
                root_reach.deep_view(),
                t,
            ) by {
                assert(rule_nts(rules.deep_view()[0]).contains(root_reach.deep_view()[t]));
            }
            lemma_nts_card(self.nts(), root_reach.deep_view());
        }
        let mut i: usize = 0;
        while i < root_reach.len()
            invariant
                self.wf(),
                valid_name("root"@),
                rules@.len() == i + 1,
                rules.deep_view().len() == i + 1,
                i <= root_reach.deep_view().len(),
                root_reach.deep_view().len() <= self.nts().len(),
                root_reach.deep_view().no_duplicates(),
                forall|j: int|
                    0 <= j < root_reach.deep_view().len() ==> self.nts().contains(
                        #[trigger] root_reach.deep_view()[j],
                    ),
                rules.deep_view()[0].lhs == "root"@,
                forall|t: int|
                    1 <= t < rules.deep_view().len() ==> (#[trigger] rules.deep_view()[t]).lhs
                        == root_reach.deep_view()[t - 1],
                forall|t: int|
                    0 <= t < rules.deep_view().len() ==> wf_gen_rule(
                        #[trigger] rules.deep_view()[t],
                        t == 0,
                        self.nts(),
                    ),
                forall|t: int, a: int, j: int|
                    0 <= t < rules.deep_view().len() && 0 <= a < rules.deep_view()[t].alts.len()
                        && 0 <= j < rules.deep_view()[t].alts[a].len() ==> self.pool().contains(
                        #[trigger] rules.deep_view()[t].alts[a][j],
                    ),
                forall|t: int|
                    0 <= t < rules.deep_view().len() ==> rule_nts(
                        #[trigger] rules.deep_view()[t],
                    ).subset_of(root_reach.deep_view().to_set()),
                worklist_discovery(rules.deep_view(), root_reach.deep_view()),
            decreases self.nts().len() - i,
        {
            let nt = root_reach[i].clone();
            proof {
                assert(root_reach.deep_view()[i as int] == nt@);
                assert(self.nts().contains(nt@));
            }
            let ghost rr_before = root_reach.deep_view();
            let ghost rules_before = rules.deep_view();
            let rule = match self.gen_rule(nt.as_str(), false, &mut root_reach) {
                Some(x) => x,
                None => {
                    return None;
                },
            };
            let ghost rule_view = rule@;
            rules.push(rule);
            proof {
                let rr = root_reach.deep_view();
                let rs = rules.deep_view();
                assert(rs =~= rules_before.push(rule_view));
                assert(valid_name(rule_view.lhs)) by {
                    let a = choose|a: int|
                        0 <= a < self.nts().len() && self.nts()[a] == nt@;
                    assert(valid_name(self.nts()[a]));
                }
                assert(rr.subrange(0, rr_before.len() as int) == rr_before);
                assert forall|t: int| 0 <= t < rr_before.len() implies rr[t] == rr_before[t] by {
                    assert(rr.subrange(0, rr_before.len() as int)[t] == rr[t]);
                }
                assert forall|t: int| 1 <= t < rs.len() implies (#[trigger] rs[t]).lhs == rr[t
                    - 1] by {
                    if t < rules_before.len() {
                        assert(rs[t] == rules_before[t]);
                        assert(rr_before[t - 1] == rr[t - 1]);
                    } else {
                        assert(rs[t] == rule_view);
                        assert(rule_view.lhs == nt@);
                        assert(rr[t - 1] == rr_before[i as int]);
                    }
                }
                assert forall|t: int| 0 <= t < rs.len() implies rule_nts(
                    #[trigger] rs[t],
                ).subset_of(rr.to_set()) by {
                    if t < rules_before.len() {
                        assert(rs[t] == rules_before[t]);
                        assert(rule_nts(rules_before[t]).subset_of(rr_before.to_set()));
                        assert forall|n: Seq<char>| rr_before.to_set().contains(
                            n,
                        ) implies rr.to_set().contains(n) by {}
                    } else {
                        assert(rs[t] == rule_view);
                        assert(rr.to_set() == rr_before.to_set().union(rule_nts(rule_view)));
                    }
                }
                assert forall|t: int| 0 <= t < rr.len() implies #[trigger] discovered_by(
                    rs,
                    rr,
                    t,
                ) by {
                    if t < rr_before.len() {
                        assert(discovered_by(rules_before, rr_before, t));
                        let j = choose|j: int|
                            0 <= j <= t && j < rules_before.len() && #[trigger] rule_nts(
                                rules_before[j],
                            ).contains(rr_before[t]);
                        assert(rs[j] == rules_before[j]);
                        assert(rule_nts(rs[j]).contains(rr[t]));
                    } else {
                        assert(rule_nts(rule_view).contains(rr[t]));
                        let j = rules_before.len() as int;
                        assert(rs[j] == rule_view);
                        assert(j == i + 1);
                        assert(t >= rr_before.len());
                        assert(rr_before.len() >= i + 1);
                        assert(rule_nts(rs[j]).contains(rr[t]));
                    }
                }
                root_reach.deep_view().unique_seq_to_set();
                lemma_nts_card(self.nts(), root_reach.deep_view());
            }
            i = i + 1;
        }
        let unreach = unreachable_non_terms(&self.non_terms, &root_reach);
        if unreach.len() > 0 {
            return None;
        }
        proof {
            let rr = root_reach.deep_view();
            assert forall|n: Seq<char>| self.nts().contains(n) implies rr.contains(n) by {
                if !rr.contains(n) {
                    assert(unreach.deep_view().contains(n));
                }
            }
            assert(rr.to_set() =~= self.nts().to_set());
        }
        let cfg = Cfg::new(rules);
        if is_productive(&cfg) {
            proof {
                let rr = root_reach.deep_view();
                let g = cfg@;
                assert(g == rules.deep_view());
                assert(g.len() == rr.len() + 1);
                assert(rr.len() == self.nts().len()) by {
                    rr.unique_seq_to_set();
                    self.nts().unique_seq_to_set();
                    assert(rr.to_set() == self.nts().to_set());
                }
                lemma_worklist_reachable(g, rr);
                assert(nonroot_lhs_set(g) =~= rr.to_set()) by {
                    let ls = lhs_seq(g).drop_first();
                    assert(ls.len() == rr.len());
                    assert forall|t: int| 0 <= t < ls.len() implies ls[t] == rr[t] by {
                        assert(lhs_seq(g)[t + 1] == g[t + 1].lhs);
                        assert(g[t + 1].lhs == rr[t]);
                    }
                    assert(ls =~= rr);
                }
                assert(lhs_seq(g).no_duplicates()) by {
                    assert forall|a: int, b: int|
                        0 <= a < b < lhs_seq(g).len() implies lhs_seq(g)[a] != lhs_seq(g)[b] by {
                        assert(lhs_seq(g)[a] == g[a].lhs);
                        assert(lhs_seq(g)[b] == g[b].lhs);
                        if a == 0 {
                            assert(g[b].lhs == rr[b - 1]);
                            assert(self.nts().contains(rr[b - 1]));
                            let x = choose|x: int|
                                0 <= x < self.nts().len() && self.nts()[x] == rr[b - 1];
                            assert(self.nts()[x] != "root"@);
                        } else {
                            assert(g[a].lhs == rr[a - 1]);
                            assert(g[b].lhs == rr[b - 1]);
                        }
                    }
                }
                assert(wf_gen_cfg(g)) by {
                    assert forall|t: int, i2: int, j2: int|
                        0 <= t < g.len() && 0 <= i2 < g[t].alts.len() && 0 <= j2
                            < g[t].alts[i2].len() implies valid_name(
                        (#[trigger] g[t].alts[i2][j2]).name(),
                    ) && (g[t].alts[i2][j2] is NonTerm ==> nonroot_lhs_set(g).contains(
                        g[t].alts[i2][j2].name(),
                    )) by {
                        assert(wf_gen_rule(g[t], t == 0, self.nts()));
                        assert(wf_sym(g[t].alts[i2][j2], self.nts()));
                        if g[t].alts[i2][j2] is NonTerm {
                            let nm = g[t].alts[i2][j2].name();
                            assert(self.nts().contains(nm));
                            assert(self.nts().to_set().contains(nm));
                            assert(rr.to_set().contains(nm));
                        } else {
                            assert(valid_name(g[t].alts[i2][j2].name()));
                        }
                    }
                }
            }
            Some(cfg)
        } else {
            None
        }
    }
}


/// Serialization round trip for every grammar the generator can produce:
/// in each of the three textual notations, the rule, alternative and
/// symbol counts read back from the rendered text are the grammar's own.
pub proof fn lemma_generated_round_trip(g: Seq<RuleView>)
    requires
        wf_gen_cfg(g),
    ensures
        parsed_rules(spec_as_hyacc(g)) == g.len(),
        parsed_alts(spec_as_hyacc(g)) == total_alts(g),
        parsed_syms(spec_as_hyacc(g)) == total_syms(g) as int,
        parsed_rules(spec_as_yacc(g)) == g.len(),
        parsed_alts(spec_as_yacc(g)) == total_alts(g),
        parsed_syms(spec_as_yacc(g)) == total_syms(g) as int,
        parsed_rules(spec_as_lrpar(g)) == g.len(),
        parsed_alts(spec_as_lrpar(g)) == total_alts(g),
        parsed_syms(spec_as_lrpar(g)) == total_syms(g) as int,
{
    assert(cfg_names_valid(g));
    assert(cfg_rules_nonempty(g)) by {
        assert forall|t: int| 0 <= t < g.len() implies (#[trigger] g[t]).alts.len() >= 1 by {
            assert(rule_bounds(g[t], t == 0));
        }
    }
    lemma_round_trip_hyacc(g);
    lemma_round_trip_yacc(g);
    lemma_round_trip_lrpar(g);
}

} // verus!
