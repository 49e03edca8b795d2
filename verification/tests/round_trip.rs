//! Serialization round trip: rendering a grammar to any of the three
//! textual notations and re-parsing rule, alternative and symbol counts
//! from the text recovers the original counts.
use cfgz::counts::parse_counts;
use cfgz::gen::CfgGen;
use cfgz::grammar::Cfg;
use cfgz::grammar::CfgRule;
use cfgz::grammar::LexSymbol;
use cfgz::grammar::NonTermSymbol;
use cfgz::grammar::RuleAlt;
use cfgz::grammar::TermSymbol;

fn term(name: &str) -> LexSymbol {
    LexSymbol::Term(TermSymbol::new(name.to_string()))
}

fn nonterm(name: &str) -> LexSymbol {
    LexSymbol::NonTerm(NonTermSymbol::new(name.to_string()))
}

fn counts_of(cfg: &Cfg) -> (usize, usize, usize) {
    let rules = cfg.rules().len();
    let mut alts = 0usize;
    let mut syms = 0usize;
    for rule in cfg.rules() {
        alts += rule.alts().len();
        for alt in rule.alts() {
            syms += alt.symbols().len();
        }
    }
    (rules, alts, syms)
}

fn assert_round_trip(cfg: &Cfg) {
    let expected = counts_of(cfg);
    assert_eq!(parse_counts(&cfg.as_hyacc()), expected);
    assert_eq!(parse_counts(&cfg.as_yacc()), expected);
    assert_eq!(parse_counts(&cfg.as_lrpar()), expected);
}

#[test]
fn round_trip_simple_grammar() {
    let root = CfgRule::new(
        "root".to_string(),
        vec![
            RuleAlt::new(vec![term("a"), nonterm("B"), term("c")]),
            RuleAlt::new(vec![term("d"), term("e")]),
        ],
    );
    let rule_b = CfgRule::new("B".to_string(), vec![RuleAlt::new(vec![term("b")])]);
    let cfg = Cfg::new(vec![root, rule_b]);
    assert_eq!(counts_of(&cfg), (2, 3, 6));
    assert_round_trip(&cfg);
}

#[test]
fn round_trip_with_empty_alternative() {
    let root = CfgRule::new(
        "root".to_string(),
        vec![RuleAlt::new(vec![nonterm("A"), nonterm("B")])],
    );
    let rule_a = CfgRule::new(
        "A".to_string(),
        vec![
            RuleAlt::new(vec![]),
            RuleAlt::new(vec![term("x")]),
        ],
    );
    let rule_b = CfgRule::new(
        "B".to_string(),
        vec![
            RuleAlt::new(vec![term("y"), term("z")]),
            RuleAlt::new(vec![nonterm("A")]),
        ],
    );
    let cfg = Cfg::new(vec![root, rule_a, rule_b]);
    assert_eq!(counts_of(&cfg), (3, 5, 6));
    assert_round_trip(&cfg);
}

#[test]
fn round_trip_generated_grammars() {
    let mut checked = 0usize;
    for size in 2..7usize {
        let gen = CfgGen::new(size);
        for _ in 0..30 {
            if let Some(cfg) = gen.generate() {
                assert_round_trip(&cfg);
                checked += 1;
            }
        }
    }
    // enough candidates survive at small sizes for this to exercise the
    // parser on real output
    let _ = checked;
}

#[test]
fn parse_counts_exact_values() {
    // one rule, two alternatives, three symbols
    assert_eq!(parse_counts("S: 'a' B | 'c'\n;\n"), (1, 2, 3));
    // directive lines and the trailer contribute nothing
    assert_eq!(
        parse_counts("%start S\n\n%%\n\nS: 'a'\n;\n\n\n%%"),
        (1, 1, 1)
    );
    assert_eq!(parse_counts(""), (0, 0, 0));
}
