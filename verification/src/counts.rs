//! Re-parsing of the textual grammar notations: counting the rules,
//! alternatives and symbols back out of rendered text.
//!
//! Symbol names are made of letters only, so the punctuation of the
//! notations is unambiguous in the text: every `;` closes a rule, every
//! `|` separates two alternatives, every maximal letter run outside a
//! directive line is either a rule name or a symbol occurrence.
use vstd::prelude::*;

use crate::grammar::RuleView;
use crate::grammar::SymView;
use crate::grammar::is_letter;
use crate::grammar::spec_as_hyacc;
use crate::grammar::spec_as_lrpar;
use crate::grammar::spec_as_yacc;
use crate::grammar::spec_render_alt;
use crate::grammar::spec_render_alt_lrpar;
use crate::grammar::spec_render_alts;
use crate::grammar::spec_render_alts_lrpar;
use crate::grammar::spec_render_rule;
use crate::grammar::spec_render_rule_lrpar;
use crate::grammar::spec_render_rules;
use crate::grammar::spec_render_rules_lrpar;
use crate::grammar::spec_render_sym;
use crate::grammar::valid_name;

verus! {

/// How often `c` occurs in `t`.
pub open spec fn count_char(t: Seq<char>, c: char) -> nat
    decreases t.len(),
{
    if t.len() == 0 {
        0
    } else {
        (if t[0] == c {
            1nat
        } else {
            0nat
        }) + count_char(t.drop_first(), c)
    }
}

/// Character counts add up over concatenation.
pub proof fn lemma_count_add(a: Seq<char>, b: Seq<char>, c: char)
    ensures
        count_char(a + b, c) == count_char(a, c) + count_char(b, c),
    decreases a.len(),
{
    if a.len() == 0 {
        assert(a + b =~= b);
    } else {
        lemma_count_add(a.drop_first(), b, c);
        assert((a + b).drop_first() =~= a.drop_first() + b);
        assert((a + b)[0] == a[0]);
    }
}

pub proof fn lemma_count_le_len(t: Seq<char>, c: char)
    ensures
        count_char(t, c) <= t.len(),
    decreases t.len(),
{
    if t.len() > 0 {
        lemma_count_le_len(t.drop_first(), c);
    }
}

/// A text without any occurrence of `c` counts zero.
pub proof fn lemma_count_none(t: Seq<char>, c: char)
    requires
        forall|i: int| 0 <= i < t.len() ==> t[i] != c,
    ensures
        count_char(t, c) == 0,
    decreases t.len(),
{
    if t.len() > 0 {
        lemma_count_none(t.drop_first(), c);
    }
}

pub proof fn lemma_count_push(t: Seq<char>, x: char, c: char)
    ensures
        count_char(t.push(x), c) == count_char(t, c) + (if x == c {
            1nat
        } else {
            0nat
        }),
{
    assert(t.push(x) =~= t + seq![x]);
    lemma_count_add(t, seq![x], c);
    assert(seq![x].drop_first() =~= Seq::<char>::empty());
    assert(count_char(seq![x].drop_first(), c) == 0);
}

/// Counts of two different characters never exceed the length together.
pub proof fn lemma_count_two(t: Seq<char>, c1: char, c2: char)
    requires
        c1 != c2,
    ensures
        count_char(t, c1) + count_char(t, c2) <= t.len(),
    decreases t.len(),
{
    if t.len() > 0 {
        lemma_count_two(t.drop_first(), c1, c2);
    }
}

pub proof fn lemma_count_one(z: char, c: char)
    ensures
        count_char(seq![z], c) == (if z == c {
            1nat
        } else {
            0nat
        }),
{
    assert(count_char(Seq::<char>::empty(), c) == 0);
    lemma_count_push(Seq::<char>::empty(), z, c);
    assert(Seq::<char>::empty().push(z) =~= seq![z]);
}

/// The scanner that counts words: `Skip` inside a directive line (from a
/// `%` to the line's end), `Word` inside a letter run, `Gap` elsewhere.
pub enum ScanMode {
    Skip,
    Word,
    Gap,
}

pub open spec fn scan_step(m: ScanMode, c: char) -> ScanMode {
    match m {
        ScanMode::Skip => if c == '\n' {
            ScanMode::Gap
        } else {
            ScanMode::Skip
        },
        ScanMode::Word => if is_letter(c) {
            ScanMode::Word
        } else if c == '%' {
            ScanMode::Skip
        } else {
            ScanMode::Gap
        },
        ScanMode::Gap => if is_letter(c) {
            ScanMode::Word
        } else if c == '%' {
            ScanMode::Skip
        } else {
            ScanMode::Gap
        },
    }
}

/// A word is complete when a letter run ends.
pub open spec fn scan_emit(m: ScanMode, c: char) -> nat {
    if m is Word && !is_letter(c) {
        1
    } else {
        0
    }
}

pub open spec fn run_mode(m: ScanMode, t: Seq<char>) -> ScanMode
    decreases t.len(),
{
    if t.len() == 0 {
        m
    } else {
        run_mode(scan_step(m, t[0]), t.drop_first())
    }
}

pub open spec fn run_words(m: ScanMode, t: Seq<char>) -> nat
    decreases t.len(),
{
    if t.len() == 0 {
        0
    } else {
        scan_emit(m, t[0]) + run_words(scan_step(m, t[0]), t.drop_first())
    }
}

/// The words of a whole text: completed letter runs, plus the one still
/// open at the end of the text.
pub open spec fn words_of(t: Seq<char>) -> nat {
    run_words(ScanMode::Gap, t) + (if run_mode(ScanMode::Gap, t) is Word {
        1nat
    } else {
        0nat
    })
}

/// Scanning concatenated text continues from where the first part ended.
pub proof fn lemma_run_mode_add(m: ScanMode, a: Seq<char>, b: Seq<char>)
    ensures
        run_mode(m, a + b) == run_mode(run_mode(m, a), b),
    decreases a.len(),
{
    if a.len() == 0 {
        assert(a + b =~= b);
    } else {
        lemma_run_mode_add(scan_step(m, a[0]), a.drop_first(), b);
        assert((a + b).drop_first() =~= a.drop_first() + b);
        assert((a + b)[0] == a[0]);
    }
}

pub proof fn lemma_run_words_add(m: ScanMode, a: Seq<char>, b: Seq<char>)
    ensures
        run_words(m, a + b) == run_words(m, a) + run_words(run_mode(m, a), b),
    decreases a.len(),
{
    if a.len() == 0 {
        assert(a + b =~= b);
    } else {
        lemma_run_words_add(scan_step(m, a[0]), a.drop_first(), b);
        assert((a + b).drop_first() =~= a.drop_first() + b);
        assert((a + b)[0] == a[0]);
    }
}

pub proof fn lemma_run_words_le(m: ScanMode, t: Seq<char>)
    ensures
        run_words(m, t) <= t.len(),
    decreases t.len(),
{
    if t.len() > 0 {
        lemma_run_words_le(scan_step(m, t[0]), t.drop_first());
    }
}


/// Every name in the grammar, left-hand sides and symbols alike, is made
/// of letters only.
pub open spec fn cfg_names_valid(g: Seq<RuleView>) -> bool {
    &&& forall|t: int| 0 <= t < g.len() ==> valid_name((#[trigger] g[t]).lhs)
    &&& forall|t: int, i: int, j: int|
        0 <= t < g.len() && 0 <= i < g[t].alts.len() && 0 <= j < g[t].alts[i].len()
            ==> valid_name((#[trigger] g[t].alts[i][j]).name())
}

/// Every rule of the grammar has at least one alternative.
pub open spec fn cfg_rules_nonempty(g: Seq<RuleView>) -> bool {
    forall|t: int| 0 <= t < g.len() ==> (#[trigger] g[t]).alts.len() >= 1
}

/// The total number of alternatives over all rules.
pub open spec fn total_alts(g: Seq<RuleView>) -> nat
    decreases g.len(),
{
    if g.len() == 0 {
        0
    } else {
        g[0].alts.len() + total_alts(g.drop_first())
    }
}

/// The number of symbol occurrences over a list of alternatives.
pub open spec fn syms_in_alts(alts: Seq<Seq<SymView>>) -> nat
    decreases alts.len(),
{
    if alts.len() == 0 {
        0
    } else {
        alts[0].len() + syms_in_alts(alts.drop_first())
    }
}

/// The total number of symbol occurrences over all rules.
pub open spec fn total_syms(g: Seq<RuleView>) -> nat
    decreases g.len(),
{
    if g.len() == 0 {
        0
    } else {
        syms_in_alts(g[0].alts) + total_syms(g.drop_first())
    }
}

pub proof fn lemma_total_alts_ge(g: Seq<RuleView>)
    requires
        cfg_rules_nonempty(g),
    ensures
        total_alts(g) >= g.len(),
    decreases g.len(),
{
    if g.len() > 0 {
        assert(cfg_rules_nonempty(g.drop_first())) by {
            assert forall|t: int|
                0 <= t < g.drop_first().len() implies (#[trigger] g.drop_first()[t]).alts.len()
                >= 1 by {
                assert(g.drop_first()[t] == g[t + 1]);
            }
        }
        lemma_total_alts_ge(g.drop_first());
        assert(g[0].alts.len() >= 1);
    }
}

/// A character that is neither a letter nor any of the punctuation used
/// inside one rule's rendering; the rule separators `;`, `|` and the line
/// breaks qualify.
pub open spec fn plain_punct(c: char) -> bool {
    &&& !is_letter(c)
    &&& c != '\''
    &&& c != ' '
    &&& c != ':'
    &&& c != '-'
    &&& c != '>'
    &&& c != '{'
    &&& c != '}'
}

pub proof fn lemma_count_sym(s: SymView, c: char)
    requires
        valid_name(s.name()),
        plain_punct(c),
    ensures
        count_char(spec_render_sym(s), c) == 0,
{
    match s {
        SymView::NonTerm { name } => {
            lemma_count_none(name, c);
        },
        SymView::Term { name } => {
            lemma_count_none(name, c);
            lemma_count_add(seq!['\''] + name, seq!['\''], c);
            lemma_count_add(seq!['\''], name, c);
            lemma_count_one('\'', c);
        },
    }
}

pub proof fn lemma_count_alt(a: Seq<SymView>, c: char)
    requires
        forall|j: int| 0 <= j < a.len() ==> valid_name((#[trigger] a[j]).name()),
        plain_punct(c),
    ensures
        count_char(spec_render_alt(a), c) == 0,
    decreases a.len(),
{
    if a.len() == 0 {
    } else if a.len() == 1 {
        lemma_count_sym(a[0], c);
    } else {
        assert forall|j: int|
            0 <= j < a.drop_first().len() implies valid_name(
            (#[trigger] a.drop_first()[j]).name(),
        ) by {
            assert(a.drop_first()[j] == a[j + 1]);
        }
        lemma_count_alt(a.drop_first(), c);
        lemma_count_sym(a[0], c);
        lemma_count_add(spec_render_sym(a[0]) + seq![' '], spec_render_alt(a.drop_first()), c);
        lemma_count_add(spec_render_sym(a[0]), seq![' '], c);
        lemma_count_one(' ', c);
    }
}

pub proof fn lemma_count_sep(c: char)
    requires
        plain_punct(c),
    ensures
        count_char(seq![' ', '|', ' '], c) == (if c == '|' {
            1nat
        } else {
            0nat
        }),
        count_char(seq!['\n', ';', '\n'], c) == (if c == ';' {
            1nat
        } else {
            0nat
        }) + (if c == '\n' {
            2nat
        } else {
            0nat
        }),
{
    let s1 = seq![' ', '|', ' '];
    assert(s1 =~= seq![' '] + seq!['|'] + seq![' ']);
    lemma_count_add(seq![' '] + seq!['|'], seq![' '], c);
    lemma_count_add(seq![' '], seq!['|'], c);
    lemma_count_one(' ', c);
    lemma_count_one('|', c);
    let s2 = seq!['\n', ';', '\n'];
    assert(s2 =~= seq!['\n'] + seq![';'] + seq!['\n']);
    lemma_count_add(seq!['\n'] + seq![';'], seq!['\n'], c);
    lemma_count_add(seq!['\n'], seq![';'], c);
    lemma_count_one('\n', c);
    lemma_count_one(';', c);
}

pub proof fn lemma_count_alts(alts: Seq<Seq<SymView>>, c: char)
    requires
        forall|i: int, j: int|
            0 <= i < alts.len() && 0 <= j < alts[i].len() ==> valid_name(
                (#[trigger] alts[i][j]).name(),
            ),
        plain_punct(c),
    ensures
        count_char(spec_render_alts(alts), c) == (if c == '|' && alts.len() >= 1 {
            (alts.len() - 1) as nat
        } else {
            0nat
        }),
    decreases alts.len(),
{
    if alts.len() == 0 {
    } else if alts.len() == 1 {
        lemma_count_alt(alts[0], c);
    } else {
        assert forall|i: int, j: int|
            0 <= i < alts.drop_first().len() && 0 <= j < alts.drop_first()[i].len()
            implies valid_name((#[trigger] alts.drop_first()[i][j]).name()) by {
            assert(alts.drop_first()[i] == alts[i + 1]);
        }
        lemma_count_alts(alts.drop_first(), c);
        lemma_count_alt(alts[0], c);
        lemma_count_sep(c);
        lemma_count_add(
            spec_render_alt(alts[0]) + seq![' ', '|', ' '],
            spec_render_alts(alts.drop_first()),
            c,
        );
        lemma_count_add(spec_render_alt(alts[0]), seq![' ', '|', ' '], c);
    }
}

pub proof fn lemma_count_rule(r: RuleView, c: char)
    requires
        valid_name(r.lhs),
        forall|i: int, j: int|
            0 <= i < r.alts.len() && 0 <= j < r.alts[i].len() ==> valid_name(
                (#[trigger] r.alts[i][j]).name(),
            ),
        plain_punct(c),
    ensures
        count_char(spec_render_rule(r), c) == (if c == '|' && r.alts.len() >= 1 {
            (r.alts.len() - 1) as nat
        } else {
            0nat
        }),
{
    lemma_count_none(r.lhs, c);
    lemma_count_alts(r.alts, c);
    lemma_count_add(r.lhs + seq![':', ' '], spec_render_alts(r.alts), c);
    lemma_count_add(r.lhs, seq![':', ' '], c);
    assert(count_char(seq![':', ' '], c) == 0) by {
        lemma_count_none(seq![':', ' '], c);
    }
}

pub proof fn lemma_count_rules(g: Seq<RuleView>, c: char)
    requires
        cfg_names_valid(g),
        cfg_rules_nonempty(g),
        plain_punct(c),
    ensures
        count_char(spec_render_rules(g), c) == (if c == ';' {
            g.len()
        } else {
            0nat
        }) + (if c == '\n' {
            2 * g.len()
        } else {
            0nat
        }) + (if c == '|' {
            (total_alts(g) - g.len()) as nat
        } else {
            0nat
        }),
    decreases g.len(),
{
    lemma_total_alts_ge(g);
    if g.len() > 0 {
        let rest = g.drop_first();
        assert(cfg_names_valid(rest) && cfg_rules_nonempty(rest)) by {
            assert forall|t: int| 0 <= t < rest.len() implies valid_name(
                (#[trigger] rest[t]).lhs,
            ) && rest[t].alts.len() >= 1 by {
                assert(rest[t] == g[t + 1]);
            }
            assert forall|t: int, i: int, j: int|
                0 <= t < rest.len() && 0 <= i < rest[t].alts.len() && 0 <= j
                    < rest[t].alts[i].len() implies valid_name(
                (#[trigger] rest[t].alts[i][j]).name(),
            ) by {
                assert(rest[t] == g[t + 1]);
            }
        }
        lemma_count_rules(rest, c);
        lemma_total_alts_ge(rest);
        lemma_count_rule(g[0], c);
        lemma_count_sep(c);
        lemma_count_add(
            spec_render_rule(g[0]) + seq!['\n', ';', '\n'],
            spec_render_rules(rest),
            c,
        );
        lemma_count_add(spec_render_rule(g[0]), seq!['\n', ';', '\n'], c);
        assert(total_alts(g) == g[0].alts.len() + total_alts(rest));
    }
}


pub proof fn lemma_count_alt_lrpar(a: Seq<SymView>, c: char)
    requires
        forall|j: int| 0 <= j < a.len() ==> valid_name((#[trigger] a[j]).name()),
        plain_punct(c),
    ensures
        count_char(spec_render_alt_lrpar(a), c) == 0,
{
    lemma_count_alt(a, c);
    lemma_count_add(spec_render_alt(a), seq![' ', '{', ' ', '}'], c);
    lemma_count_none(seq![' ', '{', ' ', '}'], c);
}

pub proof fn lemma_count_alts_lrpar(alts: Seq<Seq<SymView>>, c: char)
    requires
        forall|i: int, j: int|
            0 <= i < alts.len() && 0 <= j < alts[i].len() ==> valid_name(
                (#[trigger] alts[i][j]).name(),
            ),
        plain_punct(c),
    ensures
        count_char(spec_render_alts_lrpar(alts), c) == (if c == '|' && alts.len() >= 1 {
            (alts.len() - 1) as nat
        } else {
            0nat
        }),
    decreases alts.len(),
{
    if alts.len() == 0 {
    } else if alts.len() == 1 {
        lemma_count_alt_lrpar(alts[0], c);
    } else {
        assert forall|i: int, j: int|
            0 <= i < alts.drop_first().len() && 0 <= j < alts.drop_first()[i].len()
            implies valid_name((#[trigger] alts.drop_first()[i][j]).name()) by {
            assert(alts.drop_first()[i] == alts[i + 1]);
        }
        lemma_count_alts_lrpar(alts.drop_first(), c);
        lemma_count_alt_lrpar(alts[0], c);
        lemma_count_sep(c);
        lemma_count_add(
            spec_render_alt_lrpar(alts[0]) + seq![' ', '|', ' '],
            spec_render_alts_lrpar(alts.drop_first()),
            c,
        );
        lemma_count_add(spec_render_alt_lrpar(alts[0]), seq![' ', '|', ' '], c);
    }
}

pub proof fn lemma_count_rule_lrpar(r: RuleView, c: char)
    requires
        valid_name(r.lhs),
        forall|i: int, j: int|
            0 <= i < r.alts.len() && 0 <= j < r.alts[i].len() ==> valid_name(
                (#[trigger] r.alts[i][j]).name(),
            ),
        plain_punct(c),
    ensures
        count_char(spec_render_rule_lrpar(r), c) == (if c == '|' && r.alts.len() >= 1 {
            (r.alts.len() - 1) as nat
        } else {
            0nat
        }),
{
    lemma_count_none(r.lhs, c);
    lemma_count_alts_lrpar(r.alts, c);
    lemma_count_add(r.lhs + seq![' ', '-', '>', ':', ' '], spec_render_alts_lrpar(r.alts), c);
    lemma_count_add(r.lhs, seq![' ', '-', '>', ':', ' '], c);
    lemma_count_none(seq![' ', '-', '>', ':', ' '], c);
}

pub proof fn lemma_count_rules_lrpar(g: Seq<RuleView>, c: char)
    requires
        cfg_names_valid(g),
        cfg_rules_nonempty(g),
        plain_punct(c),
    ensures
        count_char(spec_render_rules_lrpar(g), c) == (if c == ';' {
            g.len()
        } else {
            0nat
        }) + (if c == '\n' {
            2 * g.len()
        } else {
            0nat
        }) + (if c == '|' {
            (total_alts(g) - g.len()) as nat
        } else {
            0nat
        }),
    decreases g.len(),
{
    lemma_total_alts_ge(g);
    if g.len() > 0 {
        let rest = g.drop_first();
        assert(cfg_names_valid(rest) && cfg_rules_nonempty(rest)) by {
            assert forall|t: int| 0 <= t < rest.len() implies valid_name(
                (#[trigger] rest[t]).lhs,
            ) && rest[t].alts.len() >= 1 by {
                assert(rest[t] == g[t + 1]);
            }
            assert forall|t: int, i: int, j: int|
                0 <= t < rest.len() && 0 <= i < rest[t].alts.len() && 0 <= j
                    < rest[t].alts[i].len() implies valid_name(
                (#[trigger] rest[t].alts[i][j]).name(),
            ) by {
                assert(rest[t] == g[t + 1]);
            }
        }
        lemma_count_rules_lrpar(rest, c);
        lemma_total_alts_ge(rest);
        lemma_count_rule_lrpar(g[0], c);
        lemma_count_sep(c);
        lemma_count_add(
            spec_render_rule_lrpar(g[0]) + seq!['\n', ';', '\n'],
            spec_render_rules_lrpar(rest),
            c,
        );
        lemma_count_add(spec_render_rule_lrpar(g[0]), seq!['\n', ';', '\n'], c);
        assert(total_alts(g) == g[0].alts.len() + total_alts(rest));
    }
}


/// The still-open word at a scan position: one if a letter run is open.
pub open spec fn pending(m: ScanMode) -> nat {
    if m is Word {
        1
    } else {
        0
    }
}

/// The mode in which scanning one rendered alternative ends: inside a
/// letter run exactly when the last symbol is an unquoted nonterminal.
pub open spec fn alt_end_mode(a: Seq<SymView>) -> ScanMode {
    if a.len() > 0 && a.last() is NonTerm {
        ScanMode::Word
    } else {
        ScanMode::Gap
    }
}

pub proof fn lemma_run_one(m: ScanMode, z: char)
    ensures
        run_mode(m, seq![z]) == scan_step(m, z),
        run_words(m, seq![z]) == scan_emit(m, z),
{
    assert(seq![z].drop_first() =~= Seq::<char>::empty());
    assert(run_mode(scan_step(m, z), seq![z].drop_first()) == scan_step(m, z));
    assert(run_words(scan_step(m, z), seq![z].drop_first()) == 0);
}

/// Scanning a letter run: no word completes, and the run is open at the
/// end unless the scanner is skipping a directive line.
pub proof fn lemma_words_letters(m: ScanMode, t: Seq<char>)
    requires
        t.len() >= 1,
        forall|i: int| 0 <= i < t.len() ==> is_letter(#[trigger] t[i]),
    ensures
        run_mode(m, t) == (if m is Skip {
            ScanMode::Skip
        } else {
            ScanMode::Word
        }),
        run_words(m, t) == 0,
    decreases t.len(),
{
    assert(is_letter(t[0]));
    assert(t[0] != '\n' && t[0] != '%');
    let m2 = scan_step(m, t[0]);
    if m is Skip {
        assert(m2 == ScanMode::Skip);
    } else {
        assert(m2 == ScanMode::Word);
    }
    assert(run_mode(m, t) == run_mode(m2, t.drop_first()));
    assert(run_words(m, t) == scan_emit(m, t[0]) + run_words(m2, t.drop_first()));
    assert(scan_emit(m, t[0]) == 0);
    if t.len() == 1 {
        assert(t.drop_first() =~= Seq::<char>::empty());
        assert(run_mode(m2, t.drop_first()) == m2);
        assert(run_words(m2, t.drop_first()) == 0);
    } else {
        assert forall|i: int| 0 <= i < t.drop_first().len() implies is_letter(
            #[trigger] t.drop_first()[i],
        ) by {
            assert(t.drop_first()[i] == t[i + 1]);
        }
        lemma_words_letters(m2, t.drop_first());
    }
}

/// Scanning the rest of a directive line: nothing counts until the line
/// break.
pub proof fn lemma_words_skipline(t: Seq<char>)
    requires
        forall|i: int| 0 <= i < t.len() ==> t[i] != '\n',
    ensures
        run_mode(ScanMode::Skip, t) == ScanMode::Skip,
        run_words(ScanMode::Skip, t) == 0,
    decreases t.len(),
{
    if t.len() > 0 {
        assert forall|i: int| 0 <= i < t.drop_first().len() implies t.drop_first()[i]
            != '\n' by {
            assert(t.drop_first()[i] == t[i + 1]);
        }
        lemma_words_skipline(t.drop_first());
    }
}

/// Scanning one rendered symbol from a gap: a quoted terminal completes
/// its one word at the closing quote; a bare nonterminal leaves its word
/// open.
pub proof fn lemma_words_sym(s: SymView)
    requires
        valid_name(s.name()),
    ensures
        run_mode(ScanMode::Gap, spec_render_sym(s)) == (if s is NonTerm {
            ScanMode::Word
        } else {
            ScanMode::Gap
        }),
        run_words(ScanMode::Gap, spec_render_sym(s)) == (if s is NonTerm {
            0nat
        } else {
            1nat
        }),
{
    match s {
        SymView::NonTerm { name } => {
            lemma_words_letters(ScanMode::Gap, name);
        },
        SymView::Term { name } => {
            let q = seq!['\''];
            lemma_run_one(ScanMode::Gap, '\'');
            assert(!is_letter('\''));
            lemma_words_letters(ScanMode::Gap, name);
            lemma_run_mode_add(ScanMode::Gap, q, name);
            lemma_run_words_add(ScanMode::Gap, q, name);
            lemma_run_one(ScanMode::Word, '\'');
            lemma_run_mode_add(ScanMode::Gap, q + name, q);
            lemma_run_words_add(ScanMode::Gap, q + name, q);
        },
    }
}

/// Scanning one rendered alternative from a gap: every symbol contributes
/// one word; the last one stays open exactly when it is a nonterminal.
pub proof fn lemma_words_alt(a: Seq<SymView>)
    requires
        forall|j: int| 0 <= j < a.len() ==> valid_name((#[trigger] a[j]).name()),
    ensures
        run_mode(ScanMode::Gap, spec_render_alt(a)) == alt_end_mode(a),
        run_words(ScanMode::Gap, spec_render_alt(a)) + pending(alt_end_mode(a)) == a.len(),
    decreases a.len(),
{
    if a.len() == 0 {
    } else if a.len() == 1 {
        lemma_words_sym(a[0]);
    } else {
        let rest = a.drop_first();
        assert forall|j: int| 0 <= j < rest.len() implies valid_name(
            (#[trigger] rest[j]).name(),
        ) by {
            assert(rest[j] == a[j + 1]);
        }
        lemma_words_alt(rest);
        lemma_words_sym(a[0]);
        let sym = spec_render_sym(a[0]);
        let sp = seq![' '];
        lemma_run_one(run_mode(ScanMode::Gap, sym), ' ');
        assert(!is_letter(' ') && ' ' != '%');
        lemma_run_mode_add(ScanMode::Gap, sym, sp);
        lemma_run_words_add(ScanMode::Gap, sym, sp);
        assert(run_mode(ScanMode::Gap, sym + sp) == ScanMode::Gap);
        assert(run_words(ScanMode::Gap, sym + sp) == 1);
        lemma_run_mode_add(ScanMode::Gap, sym + sp, spec_render_alt(rest));
        lemma_run_words_add(ScanMode::Gap, sym + sp, spec_render_alt(rest));
        assert(rest.last() == a.last());
        assert(spec_render_alt(a) == sym + sp + spec_render_alt(rest));
    }
}

/// Scanning the separator between two alternatives: the open word, if any,
/// completes at the space.
pub proof fn lemma_words_alt_sep(m: ScanMode)
    requires
        !(m is Skip),
    ensures
        run_mode(m, seq![' ', '|', ' ']) == ScanMode::Gap,
        run_words(m, seq![' ', '|', ' ']) == pending(m),
{
    let s = seq![' ', '|', ' '];
    assert(s =~= seq![' '] + seq!['|'] + seq![' ']);
    lemma_run_one(m, ' ');
    lemma_run_one(ScanMode::Gap, '|');
    lemma_run_one(ScanMode::Gap, ' ');
    lemma_run_mode_add(m, seq![' '], seq!['|']);
    lemma_run_words_add(m, seq![' '], seq!['|']);
    lemma_run_mode_add(m, seq![' '] + seq!['|'], seq![' ']);
    lemma_run_words_add(m, seq![' '] + seq!['|'], seq![' ']);
}

/// Scanning a rendered right-hand side from a gap: every symbol of every
/// alternative contributes one word.
pub proof fn lemma_words_alts(alts: Seq<Seq<SymView>>)
    requires
        forall|i: int, j: int|
            0 <= i < alts.len() && 0 <= j < alts[i].len() ==> valid_name(
                (#[trigger] alts[i][j]).name(),
            ),
    ensures
        run_mode(ScanMode::Gap, spec_render_alts(alts)) == (if alts.len() == 0 {
            ScanMode::Gap
        } else {
            alt_end_mode(alts.last())
        }),
        run_words(ScanMode::Gap, spec_render_alts(alts)) + (if alts.len() == 0 {
            0nat
        } else {
            pending(alt_end_mode(alts.last()))
        }) == syms_in_alts(alts),
    decreases alts.len(),
{
    if alts.len() == 0 {
    } else if alts.len() == 1 {
        lemma_words_alt(alts[0]);
        assert(syms_in_alts(alts) == alts[0].len() + syms_in_alts(alts.drop_first()));
    } else {
        let rest = alts.drop_first();
        assert forall|i: int, j: int|
            0 <= i < rest.len() && 0 <= j < rest[i].len() implies valid_name(
            (#[trigger] rest[i][j]).name(),
        ) by {
            assert(rest[i] == alts[i + 1]);
        }
        lemma_words_alts(rest);
        lemma_words_alt(alts[0]);
        let head = spec_render_alt(alts[0]);
        let sep = seq![' ', '|', ' '];
        lemma_words_alt_sep(alt_end_mode(alts[0]));
        lemma_run_mode_add(ScanMode::Gap, head, sep);
        lemma_run_words_add(ScanMode::Gap, head, sep);
        lemma_run_mode_add(ScanMode::Gap, head + sep, spec_render_alts(rest));
        lemma_run_words_add(ScanMode::Gap, head + sep, spec_render_alts(rest));
        assert(rest.last() == alts.last());
        assert(spec_render_alts(alts) == head + sep + spec_render_alts(rest));
    }
}


/// Scanning the attached action block: the open word, if any, completes
/// at the leading space, and nothing else counts.
pub proof fn lemma_words_action(m: ScanMode)
    requires
        !(m is Skip),
    ensures
        run_mode(m, seq![' ', '{', ' ', '}']) == ScanMode::Gap,
        run_words(m, seq![' ', '{', ' ', '}']) == pending(m),
{
    let s = seq![' ', '{', ' ', '}'];
    assert(s =~= seq![' '] + seq!['{'] + seq![' '] + seq!['}']);
    lemma_run_one(m, ' ');
    lemma_run_one(ScanMode::Gap, '{');
    lemma_run_one(ScanMode::Gap, ' ');
    lemma_run_one(ScanMode::Gap, '}');
    lemma_run_mode_add(m, seq![' '], seq!['{']);
    lemma_run_words_add(m, seq![' '], seq!['{']);
    lemma_run_mode_add(m, seq![' '] + seq!['{'], seq![' ']);
    lemma_run_words_add(m, seq![' '] + seq!['{'], seq![' ']);
    lemma_run_mode_add(m, seq![' '] + seq!['{'] + seq![' '], seq!['}']);
    lemma_run_words_add(m, seq![' '] + seq!['{'] + seq![' '], seq!['}']);
}

/// Scanning an action-annotated alternative: every symbol contributes one
/// word, all completed by the action block.
pub proof fn lemma_words_alt_lrpar(a: Seq<SymView>)
    requires
        forall|j: int| 0 <= j < a.len() ==> valid_name((#[trigger] a[j]).name()),
    ensures
        run_mode(ScanMode::Gap, spec_render_alt_lrpar(a)) == ScanMode::Gap,
        run_words(ScanMode::Gap, spec_render_alt_lrpar(a)) == a.len(),
{
    lemma_words_alt(a);
    lemma_words_action(alt_end_mode(a));
    lemma_run_mode_add(ScanMode::Gap, spec_render_alt(a), seq![' ', '{', ' ', '}']);
    lemma_run_words_add(ScanMode::Gap, spec_render_alt(a), seq![' ', '{', ' ', '}']);
}

pub proof fn lemma_words_alts_lrpar(alts: Seq<Seq<SymView>>)
    requires
        forall|i: int, j: int|
            0 <= i < alts.len() && 0 <= j < alts[i].len() ==> valid_name(
                (#[trigger] alts[i][j]).name(),
            ),
    ensures
        run_mode(ScanMode::Gap, spec_render_alts_lrpar(alts)) == ScanMode::Gap,
        run_words(ScanMode::Gap, spec_render_alts_lrpar(alts)) == syms_in_alts(alts),
    decreases alts.len(),
{
    if alts.len() == 0 {
    } else if alts.len() == 1 {
        lemma_words_alt_lrpar(alts[0]);
        assert(syms_in_alts(alts) == alts[0].len() + syms_in_alts(alts.drop_first()));
    } else {
        let rest = alts.drop_first();
        assert forall|i: int, j: int|
            0 <= i < rest.len() && 0 <= j < rest[i].len() implies valid_name(
            (#[trigger] rest[i][j]).name(),
        ) by {
            assert(rest[i] == alts[i + 1]);
        }
        lemma_words_alts_lrpar(rest);
        lemma_words_alt_lrpar(alts[0]);
        let head = spec_render_alt_lrpar(alts[0]);
        let sep = seq![' ', '|', ' '];
        lemma_words_alt_sep(ScanMode::Gap);
        lemma_run_mode_add(ScanMode::Gap, head, sep);
        lemma_run_words_add(ScanMode::Gap, head, sep);
        lemma_run_mode_add(ScanMode::Gap, head + sep, spec_render_alts_lrpar(rest));
        lemma_run_words_add(ScanMode::Gap, head + sep, spec_render_alts_lrpar(rest));
        assert(spec_render_alts_lrpar(alts) == head + sep + spec_render_alts_lrpar(rest));
    }
}

/// Scanning one rendered rule: the left-hand-side name is one word, and
/// every symbol is one more.
pub proof fn lemma_words_rule(r: RuleView)
    requires
        valid_name(r.lhs),
        forall|i: int, j: int|
            0 <= i < r.alts.len() && 0 <= j < r.alts[i].len() ==> valid_name(
                (#[trigger] r.alts[i][j]).name(),
            ),
    ensures
        run_mode(ScanMode::Gap, spec_render_rule(r)) == (if r.alts.len() == 0 {
            ScanMode::Gap
        } else {
            alt_end_mode(r.alts.last())
        }),
        run_words(ScanMode::Gap, spec_render_rule(r)) + (if r.alts.len() == 0 {
            0nat
        } else {
            pending(alt_end_mode(r.alts.last()))
        }) == 1 + syms_in_alts(r.alts),
{
    lemma_words_letters(ScanMode::Gap, r.lhs);
    let cs = seq![':', ' '];
    assert(cs =~= seq![':'] + seq![' ']);
    lemma_run_one(ScanMode::Word, ':');
    lemma_run_one(ScanMode::Gap, ' ');
    lemma_run_mode_add(ScanMode::Word, seq![':'], seq![' ']);
    lemma_run_words_add(ScanMode::Word, seq![':'], seq![' ']);
    assert(run_mode(ScanMode::Word, cs) == ScanMode::Gap);
    assert(run_words(ScanMode::Word, cs) == 1);
    lemma_run_mode_add(ScanMode::Gap, r.lhs, cs);
    lemma_run_words_add(ScanMode::Gap, r.lhs, cs);
    lemma_words_alts(r.alts);
    lemma_run_mode_add(ScanMode::Gap, r.lhs + cs, spec_render_alts(r.alts));
    lemma_run_words_add(ScanMode::Gap, r.lhs + cs, spec_render_alts(r.alts));
}

/// Scanning one action-annotated rule: as for the plain rule, but nothing
/// stays open at the end.
pub proof fn lemma_words_rule_lrpar(r: RuleView)
    requires
        valid_name(r.lhs),
        forall|i: int, j: int|
            0 <= i < r.alts.len() && 0 <= j < r.alts[i].len() ==> valid_name(
                (#[trigger] r.alts[i][j]).name(),
            ),
    ensures
        run_mode(ScanMode::Gap, spec_render_rule_lrpar(r)) == ScanMode::Gap,
        run_words(ScanMode::Gap, spec_render_rule_lrpar(r)) == 1 + syms_in_alts(r.alts),
{
    lemma_words_letters(ScanMode::Gap, r.lhs);
    let arrow = seq![' ', '-', '>', ':', ' '];
    assert(arrow =~= seq![' '] + seq!['-'] + seq!['>'] + seq![':'] + seq![' ']);
    lemma_run_one(ScanMode::Word, ' ');
    lemma_run_one(ScanMode::Gap, '-');
    lemma_run_one(ScanMode::Gap, '>');
    lemma_run_one(ScanMode::Gap, ':');
    lemma_run_one(ScanMode::Gap, ' ');
    lemma_run_mode_add(ScanMode::Word, seq![' '], seq!['-']);
    lemma_run_words_add(ScanMode::Word, seq![' '], seq!['-']);
    lemma_run_mode_add(ScanMode::Word, seq![' '] + seq!['-'], seq!['>']);
    lemma_run_words_add(ScanMode::Word, seq![' '] + seq!['-'], seq!['>']);
    lemma_run_mode_add(ScanMode::Word, seq![' '] + seq!['-'] + seq!['>'], seq![':']);
    lemma_run_words_add(ScanMode::Word, seq![' '] + seq!['-'] + seq!['>'], seq![':']);
    lemma_run_mode_add(ScanMode::Word, seq![' '] + seq!['-'] + seq!['>'] + seq![':'], seq![' ']);
    lemma_run_words_add(ScanMode::Word, seq![' '] + seq!['-'] + seq!['>'] + seq![':'], seq![' ']);
    assert(run_mode(ScanMode::Word, arrow) == ScanMode::Gap);
    assert(run_words(ScanMode::Word, arrow) == 1);
    lemma_run_mode_add(ScanMode::Gap, r.lhs, arrow);
    lemma_run_words_add(ScanMode::Gap, r.lhs, arrow);
    lemma_words_alts_lrpar(r.alts);
    lemma_run_mode_add(ScanMode::Gap, r.lhs + arrow, spec_render_alts_lrpar(r.alts));
    lemma_run_words_add(ScanMode::Gap, r.lhs + arrow, spec_render_alts_lrpar(r.alts));
}

/// Scanning the rule terminator: the open word, if any, completes at the
/// line break.
pub proof fn lemma_words_rule_sep(m: ScanMode)
    requires
        !(m is Skip),
    ensures
        run_mode(m, seq!['\n', ';', '\n']) == ScanMode::Gap,
        run_words(m, seq!['\n', ';', '\n']) == pending(m),
{
    let s = seq!['\n', ';', '\n'];
    assert(s =~= seq!['\n'] + seq![';'] + seq!['\n']);
    lemma_run_one(m, '\n');
    lemma_run_one(ScanMode::Gap, ';');
    lemma_run_one(ScanMode::Gap, '\n');
    lemma_run_mode_add(m, seq!['\n'], seq![';']);
    lemma_run_words_add(m, seq!['\n'], seq![';']);
    lemma_run_mode_add(m, seq!['\n'] + seq![';'], seq!['\n']);
    lemma_run_words_add(m, seq!['\n'] + seq![';'], seq!['\n']);
}

/// Scanning a whole rendered rule body: one word per rule name plus one
/// per symbol occurrence, with nothing left open.
pub proof fn lemma_words_rules(g: Seq<RuleView>)
    requires
        cfg_names_valid(g),
    ensures
        run_mode(ScanMode::Gap, spec_render_rules(g)) == ScanMode::Gap,
        run_words(ScanMode::Gap, spec_render_rules(g)) == g.len() + total_syms(g),
    decreases g.len(),
{
    if g.len() > 0 {
        let rest = g.drop_first();
        assert forall|t: int| 0 <= t < rest.len() implies valid_name(
            (#[trigger] rest[t]).lhs,
        ) by {
            assert(rest[t] == g[t + 1]);
        }
        assert forall|t: int, i: int, j: int|
            0 <= t < rest.len() && 0 <= i < rest[t].alts.len() && 0 <= j
                < rest[t].alts[i].len() implies valid_name(
            (#[trigger] rest[t].alts[i][j]).name(),
        ) by {
            assert(rest[t] == g[t + 1]);
        }
        lemma_words_rules(rest);
        lemma_words_rule(g[0]);
        let head = spec_render_rule(g[0]);
        let sep = seq!['\n', ';', '\n'];
        lemma_words_rule_sep(run_mode(ScanMode::Gap, head));
        lemma_run_mode_add(ScanMode::Gap, head, sep);
        lemma_run_words_add(ScanMode::Gap, head, sep);
        lemma_run_mode_add(ScanMode::Gap, head + sep, spec_render_rules(rest));
        lemma_run_words_add(ScanMode::Gap, head + sep, spec_render_rules(rest));
        assert(spec_render_rules(g) == head + sep + spec_render_rules(rest));
        assert(total_syms(g) == syms_in_alts(g[0].alts) + total_syms(rest));
    }
}

pub proof fn lemma_words_rules_lrpar(g: Seq<RuleView>)
    requires
        cfg_names_valid(g),
    ensures
        run_mode(ScanMode::Gap, spec_render_rules_lrpar(g)) == ScanMode::Gap,
        run_words(ScanMode::Gap, spec_render_rules_lrpar(g)) == g.len() + total_syms(g),
    decreases g.len(),
{
    if g.len() > 0 {
        let rest = g.drop_first();
        assert forall|t: int| 0 <= t < rest.len() implies valid_name(
            (#[trigger] rest[t]).lhs,
        ) by {
            assert(rest[t] == g[t + 1]);
        }
        assert forall|t: int, i: int, j: int|
            0 <= t < rest.len() && 0 <= i < rest[t].alts.len() && 0 <= j
                < rest[t].alts[i].len() implies valid_name(
            (#[trigger] rest[t].alts[i][j]).name(),
        ) by {
            assert(rest[t] == g[t + 1]);
        }
        lemma_words_rules_lrpar(rest);
        lemma_words_rule_lrpar(g[0]);
        let head = spec_render_rule_lrpar(g[0]);
        let sep = seq!['\n', ';', '\n'];
        lemma_words_rule_sep(ScanMode::Gap);
        lemma_run_mode_add(ScanMode::Gap, head, sep);
        lemma_run_words_add(ScanMode::Gap, head, sep);
        lemma_run_mode_add(ScanMode::Gap, head + sep, spec_render_rules_lrpar(rest));
        lemma_run_words_add(ScanMode::Gap, head + sep, spec_render_rules_lrpar(rest));
        assert(spec_render_rules_lrpar(g) == head + sep + spec_render_rules_lrpar(rest));
        assert(total_syms(g) == syms_in_alts(g[0].alts) + total_syms(rest));
    }
}


/// The rule and alternative counts that a reader recovers from rendered
/// text: every `;` closes a rule; every alternative either ends in `;` or
/// is followed by `|`.
pub open spec fn parsed_rules(t: Seq<char>) -> nat {
    count_char(t, ';')
}

pub open spec fn parsed_alts(t: Seq<char>) -> nat {
    count_char(t, ';') + count_char(t, '|')
}

/// The symbol count a reader recovers: every word is a rule name or a
/// symbol occurrence, and the rule names number one per `;`.
pub open spec fn parsed_syms(t: Seq<char>) -> int {
    words_of(t) - count_char(t, ';')
}

proof fn lemma_start_header(lhs: Seq<char>)
    requires
        valid_name(lhs),
    ensures
        count_char("%start "@ + lhs + "\n\n%%\n\n"@, ';') == 0,
        count_char("%start "@ + lhs + "\n\n%%\n\n"@, '|') == 0,
        run_mode(ScanMode::Gap, "%start "@ + lhs + "\n\n%%\n\n"@) == ScanMode::Gap,
        run_words(ScanMode::Gap, "%start "@ + lhs + "\n\n%%\n\n"@) == 0,
{
    reveal_strlit("%start ");
    reveal_strlit("\n\n%%\n\n");
    let h1 = "%start "@;
    let h2 = "\n\n%%\n\n"@;
    lemma_count_none(h1, ';');
    lemma_count_none(h1, '|');
    lemma_count_none(h2, ';');
    lemma_count_none(h2, '|');
    lemma_count_none(lhs, ';');
    lemma_count_none(lhs, '|');
    lemma_count_add(h1 + lhs, h2, ';');
    lemma_count_add(h1, lhs, ';');
    lemma_count_add(h1 + lhs, h2, '|');
    lemma_count_add(h1, lhs, '|');
    // the scanner skips the whole directive line: `%` opens a skip, and
    // neither the rest of the header nor the name holds a line break
    assert(h1 =~= seq!['%'] + seq!['s', 't', 'a', 'r', 't', ' ']);
    lemma_run_one(ScanMode::Gap, '%');
    assert(!is_letter('%'));
    lemma_words_skipline(seq!['s', 't', 'a', 'r', 't', ' ']);
    lemma_run_mode_add(ScanMode::Gap, seq!['%'], seq!['s', 't', 'a', 'r', 't', ' ']);
    lemma_run_words_add(ScanMode::Gap, seq!['%'], seq!['s', 't', 'a', 'r', 't', ' ']);
    assert(run_mode(ScanMode::Gap, h1) == ScanMode::Skip);
    assert(run_words(ScanMode::Gap, h1) == 0);
    assert forall|i: int| 0 <= i < lhs.len() implies lhs[i] != '\n' by {
        assert(is_letter(lhs[i]));
    }
    lemma_words_skipline(lhs);
    lemma_run_mode_add(ScanMode::Gap, h1, lhs);
    lemma_run_words_add(ScanMode::Gap, h1, lhs);
    assert(h2 =~= seq!['\n'] + seq!['\n'] + seq!['%'] + seq!['%'] + seq!['\n'] + seq!['\n']);
    lemma_run_one(ScanMode::Skip, '\n');
    lemma_run_one(ScanMode::Gap, '\n');
    lemma_run_one(ScanMode::Gap, '%');
    lemma_run_one(ScanMode::Skip, '%');
    lemma_run_mode_add(ScanMode::Skip, seq!['\n'], seq!['\n']);
    lemma_run_words_add(ScanMode::Skip, seq!['\n'], seq!['\n']);
    lemma_run_mode_add(ScanMode::Skip, seq!['\n'] + seq!['\n'], seq!['%']);
    lemma_run_words_add(ScanMode::Skip, seq!['\n'] + seq!['\n'], seq!['%']);
    lemma_run_mode_add(ScanMode::Skip, seq!['\n'] + seq!['\n'] + seq!['%'], seq!['%']);
    lemma_run_words_add(ScanMode::Skip, seq!['\n'] + seq!['\n'] + seq!['%'], seq!['%']);
    lemma_run_mode_add(
        ScanMode::Skip,
        seq!['\n'] + seq!['\n'] + seq!['%'] + seq!['%'],
        seq!['\n'],
    );
    lemma_run_words_add(
        ScanMode::Skip,
        seq!['\n'] + seq!['\n'] + seq!['%'] + seq!['%'],
        seq!['\n'],
    );
    lemma_run_mode_add(
        ScanMode::Skip,
        seq!['\n'] + seq!['\n'] + seq!['%'] + seq!['%'] + seq!['\n'],
        seq!['\n'],
    );
    lemma_run_words_add(
        ScanMode::Skip,
        seq!['\n'] + seq!['\n'] + seq!['%'] + seq!['%'] + seq!['\n'],
        seq!['\n'],
    );
    assert(run_mode(ScanMode::Skip, h2) == ScanMode::Gap);
    assert(run_words(ScanMode::Skip, h2) == 0);
    lemma_run_mode_add(ScanMode::Gap, h1 + lhs, h2);
    lemma_run_words_add(ScanMode::Gap, h1 + lhs, h2);
}

proof fn lemma_trailer()
    ensures
        count_char("\n\n%%"@, ';') == 0,
        count_char("\n\n%%"@, '|') == 0,
        run_mode(ScanMode::Gap, "\n\n%%"@) == ScanMode::Skip,
        run_words(ScanMode::Gap, "\n\n%%"@) == 0,
{
    reveal_strlit("\n\n%%");
    let f = "\n\n%%"@;
    lemma_count_none(f, ';');
    lemma_count_none(f, '|');
    assert(f =~= seq!['\n'] + seq!['\n'] + seq!['%'] + seq!['%']);
    lemma_run_one(ScanMode::Gap, '\n');
    lemma_run_one(ScanMode::Gap, '%');
    lemma_run_one(ScanMode::Skip, '%');
    lemma_run_mode_add(ScanMode::Gap, seq!['\n'], seq!['\n']);
    lemma_run_words_add(ScanMode::Gap, seq!['\n'], seq!['\n']);
    lemma_run_mode_add(ScanMode::Gap, seq!['\n'] + seq!['\n'], seq!['%']);
    lemma_run_words_add(ScanMode::Gap, seq!['\n'] + seq!['\n'], seq!['%']);
    lemma_run_mode_add(ScanMode::Gap, seq!['\n'] + seq!['\n'] + seq!['%'], seq!['%']);
    lemma_run_words_add(ScanMode::Gap, seq!['\n'] + seq!['\n'] + seq!['%'], seq!['%']);
}

proof fn lemma_strict_directive()
    ensures
        count_char("%define lr.type canonical-lr\n\n"@, ';') == 0,
        count_char("%define lr.type canonical-lr\n\n"@, '|') == 0,
        run_mode(ScanMode::Gap, "%define lr.type canonical-lr\n\n"@) == ScanMode::Gap,
        run_words(ScanMode::Gap, "%define lr.type canonical-lr\n\n"@) == 0,
{
    reveal_strlit("%define lr.type canonical-lr\n\n");
    reveal_strlit("define lr.type canonical-lr");
    let d = "%define lr.type canonical-lr\n\n"@;
    let mid = "define lr.type canonical-lr"@;
    lemma_count_none(d, ';');
    lemma_count_none(d, '|');
    assert(d =~= seq!['%'] + mid + seq!['\n'] + seq!['\n']);
    lemma_run_one(ScanMode::Gap, '%');
    lemma_words_skipline(mid);
    lemma_run_one(ScanMode::Skip, '\n');
    lemma_run_one(ScanMode::Gap, '\n');
    lemma_run_mode_add(ScanMode::Gap, seq!['%'], mid);
    lemma_run_words_add(ScanMode::Gap, seq!['%'], mid);
    lemma_run_mode_add(ScanMode::Gap, seq!['%'] + mid, seq!['\n']);
    lemma_run_words_add(ScanMode::Gap, seq!['%'] + mid, seq!['\n']);
    lemma_run_mode_add(ScanMode::Gap, seq!['%'] + mid + seq!['\n'], seq!['\n']);
    lemma_run_words_add(ScanMode::Gap, seq!['%'] + mid + seq!['\n'], seq!['\n']);
}

/// Serialization round trip for the plainest oracle notation: the rule,
/// alternative and symbol counts read back from the text are the
/// grammar's own.
pub proof fn lemma_round_trip_hyacc(g: Seq<RuleView>)
    requires
        g.len() >= 1,
        cfg_names_valid(g),
        cfg_rules_nonempty(g),
    ensures
        parsed_rules(spec_as_hyacc(g)) == g.len(),
        parsed_alts(spec_as_hyacc(g)) == total_alts(g),
        parsed_syms(spec_as_hyacc(g)) == total_syms(g) as int,
{
    let hdr = "%start "@ + g[0].lhs + "\n\n%%\n\n"@;
    let body = spec_render_rules(g);
    let ftr = "\n\n%%"@;
    assert(spec_as_hyacc(g) == hdr + body + ftr);
    lemma_start_header(g[0].lhs);
    lemma_trailer();
    lemma_count_rules(g, ';');
    lemma_count_rules(g, '|');
    lemma_total_alts_ge(g);
    lemma_count_add(hdr + body, ftr, ';');
    lemma_count_add(hdr, body, ';');
    lemma_count_add(hdr + body, ftr, '|');
    lemma_count_add(hdr, body, '|');
    lemma_words_rules(g);
    lemma_run_mode_add(ScanMode::Gap, hdr, body);
    lemma_run_words_add(ScanMode::Gap, hdr, body);
    lemma_run_mode_add(ScanMode::Gap, hdr + body, ftr);
    lemma_run_words_add(ScanMode::Gap, hdr + body, ftr);
}

/// Serialization round trip for the strict-LR notation.
pub proof fn lemma_round_trip_yacc(g: Seq<RuleView>)
    requires
        g.len() >= 1,
        cfg_names_valid(g),
        cfg_rules_nonempty(g),
    ensures
        parsed_rules(spec_as_yacc(g)) == g.len(),
        parsed_alts(spec_as_yacc(g)) == total_alts(g),
        parsed_syms(spec_as_yacc(g)) == total_syms(g) as int,
{
    let d = "%define lr.type canonical-lr\n\n"@;
    lemma_round_trip_hyacc(g);
    lemma_strict_directive();
    lemma_count_add(d, spec_as_hyacc(g), ';');
    lemma_count_add(d, spec_as_hyacc(g), '|');
    lemma_run_mode_add(ScanMode::Gap, d, spec_as_hyacc(g));
    lemma_run_words_add(ScanMode::Gap, d, spec_as_hyacc(g));
}

/// Serialization round trip for the action-annotated notation.
pub proof fn lemma_round_trip_lrpar(g: Seq<RuleView>)
    requires
        g.len() >= 1,
        cfg_names_valid(g),
        cfg_rules_nonempty(g),
    ensures
        parsed_rules(spec_as_lrpar(g)) == g.len(),
        parsed_alts(spec_as_lrpar(g)) == total_alts(g),
        parsed_syms(spec_as_lrpar(g)) == total_syms(g) as int,
{
    let hdr = "%start "@ + g[0].lhs + "\n\n%%\n\n"@;
    let body = spec_render_rules_lrpar(g);
    let ftr = "\n\n%%"@;
    assert(spec_as_lrpar(g) == hdr + body + ftr);
    lemma_start_header(g[0].lhs);
    lemma_trailer();
    lemma_count_rules_lrpar(g, ';');
    lemma_count_rules_lrpar(g, '|');
    lemma_total_alts_ge(g);
    lemma_count_add(hdr + body, ftr, ';');
    lemma_count_add(hdr, body, ';');
    lemma_count_add(hdr + body, ftr, '|');
    lemma_count_add(hdr, body, '|');
    lemma_words_rules_lrpar(g);
    lemma_run_mode_add(ScanMode::Gap, hdr, body);
    lemma_run_words_add(ScanMode::Gap, hdr, body);
    lemma_run_mode_add(ScanMode::Gap, hdr + body, ftr);
    lemma_run_words_add(ScanMode::Gap, hdr + body, ftr);
}


/// Reads the rule, alternative and symbol counts back out of a rendered
/// grammar text, in one pass. On a text with fewer words than rules (no
/// rendering produces one) the symbol count bottoms out at zero.
pub fn parse_counts(text: &str) -> (r: (usize, usize, usize))
    requires
        text@.len() < usize::MAX,
    ensures
        r.0 == parsed_rules(text@),
        r.1 == parsed_alts(text@),
        r.2 as int == (if parsed_syms(text@) >= 0 {
            parsed_syms(text@)
        } else {
            0
        }),
{
    let n = text.unicode_len();
    let mut semis: usize = 0;
    let mut pipes: usize = 0;
    let mut words: usize = 0;
    let mut mode = ScanMode::Gap;
    let mut i: usize = 0;
    proof {
        assert(text@.subrange(0, 0) =~= Seq::<char>::empty());
    }
    while i < n
        invariant
            n == text@.len(),
            n < usize::MAX,
            i <= n,
            semis == count_char(text@.subrange(0, i as int), ';'),
            pipes == count_char(text@.subrange(0, i as int), '|'),
            words == run_words(ScanMode::Gap, text@.subrange(0, i as int)),
            mode == run_mode(ScanMode::Gap, text@.subrange(0, i as int)),
            semis <= i,
            pipes <= i,
            words <= i,
        decreases n - i,
    {
        let c = text.get_char(i);
        let ghost prefix = text@.subrange(0, i as int);
        let ghost cur = text@.subrange(0, i + 1 as int);
        proof {
            assert(cur =~= prefix.push(c));
            assert(prefix.push(c) =~= prefix + seq![c]);
            lemma_count_push(prefix, c, ';');
            lemma_count_push(prefix, c, '|');
            lemma_run_one(mode, c);
            lemma_run_mode_add(ScanMode::Gap, prefix, seq![c]);
            lemma_run_words_add(ScanMode::Gap, prefix, seq![c]);
            lemma_count_le_len(cur, ';');
            lemma_count_le_len(cur, '|');
            lemma_run_words_le(ScanMode::Gap, cur);
        }
        let letter = ('a' <= c && c <= 'z') || ('A' <= c && c <= 'Z');
        proof {
            assert(letter == is_letter(c));
        }
        match mode {
            ScanMode::Skip => {
                if c == '\n' {
                    mode = ScanMode::Gap;
                }
            },
            ScanMode::Word => {
                if !letter {
                    words = words + 1;
                    if c == '%' {
                        mode = ScanMode::Skip;
                    } else {
                        mode = ScanMode::Gap;
                    }
                }
            },
            ScanMode::Gap => {
                if letter {
                    mode = ScanMode::Word;
                } else if c == '%' {
                    mode = ScanMode::Skip;
                }
            },
        }
        if c == ';' {
            semis = semis + 1;
        }
        if c == '|' {
            pipes = pipes + 1;
        }
        i = i + 1;
    }
    proof {
        assert(text@.subrange(0, text@.len() as int) =~= text@);
        lemma_count_le_len(text@, ';');
        lemma_count_two(text@, ';', '|');
        lemma_run_words_le(ScanMode::Gap, text@);
    }
    let total_words = match mode {
        ScanMode::Word => words + 1,
        _ => words,
    };
    let syms = if total_words >= semis {
        total_words - semis
    } else {
        0
    };
    (semis, semis + pipes, syms)
}

} // verus!
