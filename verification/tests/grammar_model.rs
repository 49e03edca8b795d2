//! The grammar data model: rendering of alternatives, rules and whole
//! grammars in each textual notation.
use cfgz::grammar::Cfg;
use cfgz::grammar::CfgRule;
use cfgz::grammar::LexSymbol;
use cfgz::grammar::NonTermSymbol;
use cfgz::grammar::RuleAlt;
use cfgz::grammar::TermSymbol;

fn test_alt_1() -> RuleAlt {
    let mut alt_syms = Vec::<LexSymbol>::new();
    alt_syms.push(LexSymbol::Term(TermSymbol::new("a".to_string())));
    alt_syms.push(LexSymbol::NonTerm(NonTermSymbol::new("B".to_string())));
    alt_syms.push(LexSymbol::Term(TermSymbol::new("c".to_string())));

    RuleAlt::new(alt_syms)
}

fn test_alt_2() -> RuleAlt {
    let mut alt_syms = Vec::<LexSymbol>::new();
    alt_syms.push(LexSymbol::Term(TermSymbol::new("d".to_string())));
    alt_syms.push(LexSymbol::Term(TermSymbol::new("e".to_string())));

    RuleAlt::new(alt_syms)
}

#[allow(non_snake_case)]
fn rule_S() -> CfgRule {
    let lhs = "S".to_string();
    let alt1 = test_alt_1(); // 'a' B 'c'
    let alt2 = test_alt_2(); // 'd' 'e'
    let rhs = vec![alt1, alt2];

    CfgRule::new(lhs, rhs)
}

#[allow(non_snake_case)]
fn rule_B() -> CfgRule {
    let lhs = "B".to_string();
    let mut alt_syms = Vec::<LexSymbol>::new();
    alt_syms.push(LexSymbol::Term(TermSymbol::new("b".to_string())));
    let rhs = vec![RuleAlt::new(alt_syms)];

    CfgRule::new(lhs, rhs)
}

fn simple_cfg() -> Cfg {
    let mut rules: Vec<CfgRule> = vec![];
    rules.push(rule_S());
    rules.push(rule_B());

    Cfg::new(rules)
}

#[test]
fn test_alt() {
    let alt = test_alt_1();
    assert_eq!(alt.render(), "'a' B 'c'");
}

#[test]
fn test_rule() {
    let rule = rule_S();
    assert_eq!(rule.render(), "S: 'a' B 'c' | 'd' 'e'")
}

#[test]
fn test_cfg() {
    let cfg = simple_cfg();
    let cfg_expected = format!("S: 'a' B 'c' | 'd' 'e'\n;\nB: 'b'\n;\n");

    assert_eq!(cfg.render(), cfg_expected);
}

#[test]
fn test_cfg_yacc() {
    let cfg = simple_cfg();
    let cfg_header = "%define lr.type canonical-lr\n\n%start S\n\n%%\n\n".to_string();
    let cfg_footer = "\n\n%%".to_string();
    let cfg_expected = format!(
        "{}S: 'a' B 'c' | 'd' 'e'\n;\nB: 'b'\n;\n{}",
        cfg_header, cfg_footer
    );

    assert_eq!(cfg.as_yacc(), cfg_expected);
}

#[test]
fn test_cfg_lrpar() {
    let cfg = simple_cfg();
    let cfg_header = "%start S\n\n%%\n\n".to_string();
    let cfg_footer = "\n\n\n%%".to_string();
    let cfg_expected = format!(
        "{}S ->: 'a' B 'c' {{ }} | 'd' 'e' {{ }}\n;\nB ->: 'b' {{ }}\n;{}",
        cfg_header, cfg_footer
    );

    assert_eq!(cfg.as_lrpar(), cfg_expected);
}

#[test]
fn test_cfg_hyacc() {
    let cfg = simple_cfg();
    let expected = "%start S\n\n%%\n\nS: 'a' B 'c' | 'd' 'e'\n;\nB: 'b'\n;\n\n\n%%";

    assert_eq!(cfg.as_hyacc(), expected);
}

#[test]
fn test_empty_alt_renders_empty() {
    let alt = RuleAlt::new(Vec::new());
    assert_eq!(alt.render(), "");
    assert_eq!(alt.as_lrpar(), " { }");
}

#[test]
fn test_alt_equality_by_render() {
    let a = test_alt_1();
    let b = test_alt_1();
    let c = test_alt_2();
    assert!(a.eq(&b));
    assert!(!a.eq(&c));
}

#[test]
fn test_symbol_render_quoting() {
    let term = LexSymbol::Term(TermSymbol::new("x".to_string()));
    let nonterm = LexSymbol::NonTerm(NonTermSymbol::new("X".to_string()));
    assert_eq!(term.render(), "'x'");
    assert_eq!(nonterm.render(), "X");
    assert!(!term.eq(&nonterm));
}

#[test]
fn test_start_rule_is_first() {
    let cfg = simple_cfg();
    let start = cfg.start_rule().expect("grammar has rules");
    assert_eq!(start.lhs(), "S");
    assert!(Cfg::new(vec![]).start_rule().is_none());
}

#[test]
fn test_alt_clone_preserves_render() {
    let alt = test_alt_1();
    let copy = alt.clone();
    assert_eq!(copy.render(), alt.render());
    assert!(copy.eq(&alt));
}
