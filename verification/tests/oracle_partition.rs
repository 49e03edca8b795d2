//! Oracle output interpretation and the corpus partition.
use cfgz::lr1_check;
use cfgz::oracle::contains_sub;
use cfgz::oracle::run_bison;
use cfgz::oracle::run_hyacc;
use cfgz::oracle::CfgGenResult;
use cfgz::oracle::CfgLr1Result;

#[test]
fn contains_sub_finds_markers() {
    assert!(contains_sub("warning: 1 shift/reduce conflict", "shift/reduce"));
    assert!(!contains_sub("all clear", "shift/reduce"));
    assert!(contains_sub("abc", ""));
    assert!(!contains_sub("ab", "abc"));
    assert!(contains_sub("aaab", "aab"));
}

#[test]
fn bison_markers_reject() {
    assert!(!run_bison("gram.y: warning: 1 shift/reduce conflict [-Wconflicts-sr]").0);
    assert!(!run_bison("gram.y: warning: 2 reduce/reduce conflicts").0);
    assert!(!run_bison("warning: 3 nonterminals useless in grammar").0);
    assert!(!run_bison("warning: 4 rules useless in grammar").0);
    let (accepted, msg) = run_bison("");
    assert!(accepted);
    assert_eq!(msg, "err: \n");
}

#[test]
fn lr1_check_matches_bison_interpretation() {
    assert!(lr1_check(""));
    assert!(lr1_check("everything fine"));
    assert!(!lr1_check("x.y: warning: 1 shift/reduce conflict"));
}

#[test]
fn hyacc_max_k_accepts() {
    let out = "some preamble\nwhile loop: k = 2\nMax K in LR(k): 2\n";
    let (accepted, _msg) = run_hyacc(out, "");
    assert!(accepted);
}

#[test]
fn hyacc_lane_head_list_rejects() {
    let out = "laneHeadList is NULL. return\nwhile loop: k = 2\nMax K in LR(k): 2\n";
    let (accepted, _msg) = run_hyacc(out, "");
    assert!(!accepted);
}

#[test]
fn hyacc_timeout_output_rejects() {
    // a run cut off by the time budget prints no maximum-lookahead line
    let (accepted, msg) = run_hyacc("while loop: k = 2\n", "killed");
    assert!(!accepted);
    assert_eq!(msg, "out: while loop: k = 2\n\nerr: killed");
}

fn record(id: &str, lrpar: bool, bison: bool, hyacc: bool) -> CfgLr1Result {
    CfgLr1Result::new(
        format!("/tmp/{}.bison.y", id),
        format!("/tmp/{}.hyacc.y", id),
        lrpar,
        bison,
        hyacc,
    )
}

#[test]
fn three_records() {
    // one LR(1) grammar, one LR(k) grammar, one rejected by all oracles
    let checks = vec![
        record("0", true, true, true),
        record("1", false, false, true),
        record("2", false, false, false),
    ];
    let batch = CfgGenResult::new(checks, "/tmp/scratch".to_string(), 5);

    let lr1 = batch.lr1_grammars();
    let lrk = batch.lrk_grammars();

    assert_eq!(lr1.len(), 1);
    assert_eq!(lr1[0].bisonp(), "/tmp/0.bison.y");
    assert_eq!(lrk.len(), 1);
    assert_eq!(lrk[0].hyaccp(), "/tmp/1.hyacc.y");

    // partition disjointness on the concrete batch
    for a in &lr1 {
        for b in &lrk {
            assert_ne!(a.bisonp(), b.bisonp());
        }
    }
}

#[test]
fn scenario_b_lands_in_lrk_set() {
    // the strict oracle rejects (it would need two lookahead symbols), the
    // relaxed oracle accepts: the grammar lands in the LR(k) set only
    let bison_said = "gram.y: warning: 2 shift/reduce conflicts [-Wconflicts-sr]";
    let hyacc_said = "while loop: k = 2\nMax K in LR(k): 2\n";
    let (bison_ok, _) = run_bison(bison_said);
    let (hyacc_ok, _) = run_hyacc(hyacc_said, "");
    assert!(!bison_ok && hyacc_ok);

    let checks = vec![record("b", false, bison_ok, hyacc_ok)];
    let batch = CfgGenResult::new(checks, "/tmp/scratch".to_string(), 4);
    assert_eq!(batch.lr1_grammars().len(), 0);
    assert_eq!(batch.lrk_grammars().len(), 1);
}

#[test]
fn batch_accessors_round_trip() {
    let batch = CfgGenResult::new(Vec::new(), "/tmp/x".to_string(), 7);
    assert_eq!(batch.grammar_dir(), "/tmp/x");
    assert_eq!(batch.cfg_size(), 7);
    assert!(batch.lr_checks().is_empty());
}

#[test]
fn gen_error_carries_its_message() {
    let e = cfgz::gen::CfgGenError::new("scratch directory vanished".to_string());
    assert_eq!(e.message(), "scratch directory vanished");
}

#[test]
fn hyacc_lane_marker_matters_only_on_first_line() {
    let out = "preamble\nlaneHeadList is NULL\nMax K in LR(k): 2\n";
    let (accepted, _msg) = run_hyacc(out, "");
    assert!(accepted);
}
