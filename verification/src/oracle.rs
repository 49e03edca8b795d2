//! Interpretation of classification-oracle output, and the aggregation of
//! per-grammar verdicts into the labeled corpus partition.
//!
//! Each external engine is invoked elsewhere; this module owns the logic
//! that turns captured output text into an accept/reject verdict plus a
//! diagnostic, and the partition of verdicts into the LR(1) set and the
//! LR(k), k greater than one, set.
use vstd::prelude::*;

verus! {

/// Whether `p` occurs contiguously anywhere in `t`.
pub open spec fn has_sub(t: Seq<char>, p: Seq<char>) -> bool {
    exists|k: int| 0 <= k <= t.len() - p.len() && #[trigger] t.subrange(k, k + p.len()) == p
}

/// Substring search, character by character.
pub fn contains_sub(t: &str, p: &str) -> (r: bool)
    ensures
        r == has_sub(t@, p@),
{
    let tl = t.unicode_len();
    let pl = p.unicode_len();
    if pl > tl {
        proof {
            assert(!has_sub(t@, p@));
        }
        return false;
    }
    let mut k: usize = 0;
    while k <= tl - pl
        invariant
            pl <= tl,
            tl == t@.len(),
            pl == p@.len(),
            k <= tl - pl + 1,
            forall|x: int| 0 <= x < k ==> #[trigger] t@.subrange(x, x + pl) != p@,
        decreases tl - pl - k + 1,
    {
        let mut m: usize = 0;
        let mut same = true;
        while m < pl
            invariant
                pl <= tl,
                tl == t@.len(),
                pl == p@.len(),
                k <= tl - pl,
                m <= pl,
                same == forall|y: int| 0 <= y < m ==> t@[k + y] == p@[y],
            decreases pl - m,
        {
            let tc = t.get_char(k + m);
            let pc = p.get_char(m);
            if tc != pc {
                proof {
                    assert(t@[k + m] != p@[m as int]);
                }
                same = false;
                m = pl;
            } else {
                proof {
                    assert(t@[k + m] == p@[m as int]);
                }
                m = m + 1;
            }
        }
        if same {
            proof {
                assert(t@.subrange(k as int, k + pl) =~= p@);
            }
            return true;
        }
        proof {
            let y = choose|y: int| 0 <= y < pl && t@[k + y] != p@[y];
            assert(t@.subrange(k as int, k + pl)[y] == t@[k + y]);
            assert(t@.subrange(k as int, k + pl) != p@);
        }
        k = k + 1;
    }
    proof {
        assert forall|x: int| 0 <= x <= t@.len() - p@.len() implies #[trigger] t@.subrange(
            x,
            x + p@.len(),
        ) != p@ by {
            assert(x < k);
        }
    }
    false
}

/// The strict oracle accepts unless its captured output mentions a parsing
/// conflict or a useless-symbol diagnosis.
pub open spec fn spec_bison_accepts(err: Seq<char>) -> bool {
    !(has_sub(err, "shift/reduce"@) || has_sub(err, "reduce/reduce"@) || has_sub(
        err,
        "nonterminals useless"@,
    ) || has_sub(err, "rules useless"@))
}

/// Interprets the strict oracle's captured error output: rejected when any
/// conflict or useless-symbol marker occurs, accepted otherwise. The raw
/// text is returned as the diagnostic either way.
pub fn run_bison(err: &str) -> (r: (bool, String))
    ensures
        r.0 == spec_bison_accepts(err@),
        r.1@ == "err: "@ + err@ + "\n"@,
{
    let mut msg = String::from_str("err: ");
    msg.append(err);
    msg.append("\n");
    let rejected = contains_sub(err, "shift/reduce") || contains_sub(err, "reduce/reduce")
        || contains_sub(err, "nonterminals useless") || contains_sub(err, "rules useless");
    (!rejected, msg)
}


/// The text of `t` up to, and not including, its first line break.
pub open spec fn spec_first_line(t: Seq<char>) -> Seq<char>
    decreases t.len(),
{
    if t.len() == 0 {
        Seq::empty()
    } else if t[0] == '\n' {
        Seq::empty()
    } else {
        seq![t[0]] + spec_first_line(t.drop_first())
    }
}

/// The first line is the prefix that ends at the first line break.
proof fn lemma_first_line_prefix(t: Seq<char>, nl: int)
    requires
        0 <= nl <= t.len(),
        forall|x: int| 0 <= x < nl ==> t[x] != '\n',
        nl == t.len() || t[nl] == '\n',
    ensures
        spec_first_line(t) == t.subrange(0, nl),
    decreases t.len(),
{
    if t.len() == 0 {
        assert(t.subrange(0, 0) =~= Seq::<char>::empty());
    } else if nl == 0 {
        assert(t.subrange(0, 0) =~= Seq::<char>::empty());
    } else {
        assert(t[0] != '\n');
        lemma_first_line_prefix(t.drop_first(), nl - 1);
        assert(seq![t[0]] + t.drop_first().subrange(0, nl - 1) =~= t.subrange(0, nl));
    }
}

/// The relaxed LR(k) oracle accepts when its output reports a maximum
/// lookahead, unless the very first line reports the failed-analysis
/// marker. A timed-out run prints neither, so it is rejected.
pub open spec fn spec_hyacc_accepts(out: Seq<char>) -> bool {
    &&& !has_sub(spec_first_line(out), "laneHeadList is NULL"@)
    &&& has_sub(out, "Max K in LR(k): "@)
}

/// Interprets the relaxed oracle's captured output; the raw captured text
/// is the diagnostic regardless of the verdict.
pub fn run_hyacc(out: &str, err: &str) -> (r: (bool, String))
    ensures
        r.0 == spec_hyacc_accepts(out@),
        r.1@ == "out: "@ + out@ + "\nerr: "@ + err@,
{
    let n = out.unicode_len();
    let mut nl: usize = 0;
    while nl < n
        invariant
            n == out@.len(),
            nl <= n,
            forall|x: int| 0 <= x < nl ==> out@[x] != '\n',
        ensures
            nl <= n,
            forall|x: int| 0 <= x < nl ==> out@[x] != '\n',
            nl == n || out@[nl as int] == '\n',
        decreases n - nl,
    {
        if out.get_char(nl) == '\n' {
            break ;
        }
        nl = nl + 1;
    }
    let first = out.substring_char(0, nl);
    proof {
        lemma_first_line_prefix(out@, nl as int);
    }
    let lane = contains_sub(first, "laneHeadList is NULL");
    let accepted = if lane {
        false
    } else {
        contains_sub(out, "Max K in LR(k): ")
    };
    let mut msg = String::from_str("out: ");
    msg.append(out);
    msg.append("\nerr: ");
    msg.append(err);
    (accepted, msg)
}

/// Mathematical model of one grammar's classification: where its rendered
/// forms were stored, and one verdict per oracle.
pub struct ResultView {
    pub bisonp: Seq<char>,
    pub hyaccp: Seq<char>,
    pub lrpar_lr1: bool,
    pub bison_lr1: bool,
    pub hyacc_lr1: bool,
}

/// One grammar's classification result: its serialized locations on durable
/// storage and the three oracle verdicts.
pub struct CfgLr1Result {
    bisonp: String,
    hyaccp: String,
    lrpar_lr1: bool,
    bison_lr1: bool,
    hyacc_lr1: bool,
}

impl View for CfgLr1Result {
    type V = ResultView;

    closed spec fn view(&self) -> ResultView {
        ResultView {
            bisonp: self.bisonp@,
            hyaccp: self.hyaccp@,
            lrpar_lr1: self.lrpar_lr1,
            bison_lr1: self.bison_lr1,
            hyacc_lr1: self.hyacc_lr1,
        }
    }
}

impl DeepView for CfgLr1Result {
    type V = ResultView;

    open spec fn deep_view(&self) -> ResultView {
        self@
    }
}

impl CfgLr1Result {
    pub fn new(bisonp: String, hyaccp: String, lrpar_lr1: bool, bison_lr1: bool, hyacc_lr1: bool) -> (r:
        Self)
        ensures
            r@ == (ResultView {
                bisonp: bisonp@,
                hyaccp: hyaccp@,
                lrpar_lr1,
                bison_lr1,
                hyacc_lr1,
            }),
    {
        CfgLr1Result { bisonp, hyaccp, lrpar_lr1, bison_lr1, hyacc_lr1 }
    }

    /// Where the strict oracle's rendering of the grammar was stored.
    pub fn bisonp(&self) -> (r: &str)
        ensures
            r@ == self@.bisonp,
    {
        self.bisonp.as_str()
    }

    /// Where the relaxed oracle's rendering of the grammar was stored.
    pub fn hyaccp(&self) -> (r: &str)
        ensures
            r@ == self@.hyaccp,
    {
        self.hyaccp.as_str()
    }

    /// The reference oracle's verdict.
    pub fn lrpar_lr1(&self) -> (r: bool)
        ensures
            r == self@.lrpar_lr1,
    {
        self.lrpar_lr1
    }

    /// The strict oracle's verdict.
    pub fn bison_lr1(&self) -> (r: bool)
        ensures
            r == self@.bison_lr1,
    {
        self.bison_lr1
    }

    /// The relaxed oracle's verdict.
    pub fn hyacc_lr1(&self) -> (r: bool)
        ensures
            r == self@.hyacc_lr1,
    {
        self.hyacc_lr1
    }

    pub fn clone(&self) -> (r: Self)
        ensures
            r@ == self@,
    {
        CfgLr1Result {
            bisonp: self.bisonp.clone(),
            hyaccp: self.hyaccp.clone(),
            lrpar_lr1: self.lrpar_lr1,
            bison_lr1: self.bison_lr1,
            hyacc_lr1: self.hyacc_lr1,
        }
    }
}

/// A result belongs to the LR(1) class when the reference oracle and the
/// strict oracle both accept.
pub open spec fn is_lr1_result(c: ResultView) -> bool {
    c.lrpar_lr1 && c.bison_lr1
}

/// A result belongs to the LR(k), k greater than one, class when the
/// relaxed oracle accepts but the strict one does not; requiring the strict
/// rejection keeps the two classes from double-counting a grammar.
pub open spec fn is_lrk_result(c: ResultView) -> bool {
    c.hyacc_lr1 && !c.bison_lr1
}

/// The results of the LR(1) class, in trial order.
pub open spec fn lr1_filter(s: Seq<ResultView>) -> Seq<ResultView> {
    s.filter(|c: ResultView| is_lr1_result(c))
}

/// The results of the LR(k) class, in trial order.
pub open spec fn lrk_filter(s: Seq<ResultView>) -> Seq<ResultView> {
    s.filter(|c: ResultView| is_lrk_result(c))
}

/// Partition disjointness: no classification result lands in both the
/// LR(1) set and the LR(k) set, since one demands the strict oracle's
/// acceptance and the other its rejection.
pub proof fn lemma_partition_disjoint(s: Seq<ResultView>)
    ensures
        forall|c: ResultView| lr1_filter(s).contains(c) ==> !lrk_filter(s).contains(c),
{
    assert forall|c: ResultView| lr1_filter(s).contains(c) implies !lrk_filter(s).contains(c) by {
        let i = choose|i: int| 0 <= i < lr1_filter(s).len() && lr1_filter(s)[i] == c;
        s.lemma_filter_pred(|x: ResultView| is_lr1_result(x), i);
        assert(is_lr1_result(c));
        if lrk_filter(s).contains(c) {
            let j = choose|j: int| 0 <= j < lrk_filter(s).len() && lrk_filter(s)[j] == c;
            s.lemma_filter_pred(|x: ResultView| is_lrk_result(x), j);
            assert(is_lrk_result(c));
        }
    }
}

/// The outcome of one whole batch: the classification results of the
/// completed trials, in trial order, together with the scratch directory
/// that held the rendered grammars and the size they were generated at.
pub struct CfgGenResult {
    lr_checks: Vec<CfgLr1Result>,
    src_grammar_dir: String,
    cfg_size: usize,
}

impl CfgGenResult {
    /// The per-trial classification results, in trial order.
    pub closed spec fn checks(&self) -> Seq<ResultView> {
        self.lr_checks.deep_view()
    }

    /// The scratch directory the batch worked in.
    pub closed spec fn dir(&self) -> Seq<char> {
        self.src_grammar_dir@
    }

    /// The grammar size of the batch.
    pub closed spec fn size_of(&self) -> int {
        self.cfg_size as int
    }

    pub fn new(lr_checks: Vec<CfgLr1Result>, src_grammar_dir: String, cfg_size: usize) -> (r: Self)
        ensures
            r.checks() == lr_checks.deep_view(),
            r.dir() == src_grammar_dir@,
            r.size_of() == cfg_size,
    {
        CfgGenResult { lr_checks, src_grammar_dir, cfg_size }
    }

    /// The per-trial results.
    pub fn lr_checks(&self) -> (r: &Vec<CfgLr1Result>)
        ensures
            r.deep_view() == self.checks(),
    {
        &self.lr_checks
    }

    /// The scratch directory the batch worked in.
    pub fn grammar_dir(&self) -> (r: &str)
        ensures
            r@ == self.dir(),
    {
        self.src_grammar_dir.as_str()
    }

    /// The grammar size of the batch.
    pub fn cfg_size(&self) -> (r: usize)
        ensures
            r == self.size_of(),
    {
        self.cfg_size
    }

    /// The grammars accepted by both the reference and the strict oracle:
    /// the LR(1) class, in trial order.
    pub fn lr1_grammars(&self) -> (r: Vec<CfgLr1Result>)
        ensures
            r.deep_view() == lr1_filter(self.checks()),
    {
        let mut out: Vec<CfgLr1Result> = Vec::new();
        let mut i: usize = 0;
        proof {
            assert(self.checks().subrange(0, 0) =~= Seq::<ResultView>::empty());
            assert(lr1_filter(self.checks().subrange(0, 0)) =~= Seq::<ResultView>::empty());
        }
        while i < self.lr_checks.len()
            invariant
                i <= self.lr_checks@.len(),
                self.checks().len() == self.lr_checks@.len(),
                forall|j: int| 0 <= j < self.checks().len() ==> self.checks()[j] == self.lr_checks@[j]@,
                out.deep_view() == lr1_filter(self.checks().subrange(0, i as int)),
            decreases self.lr_checks@.len() - i,
        {
            let ghost prev = self.checks().subrange(0, i as int);
            let ghost cur = self.checks().subrange(0, i + 1 as int);
            proof {
                assert(cur =~= prev.push(self.checks()[i as int]));
                prev.lemma_filter_push(self.checks()[i as int], |c: ResultView| is_lr1_result(c));
            }
            let c = &self.lr_checks[i];
            if c.lrpar_lr1() && c.bison_lr1() {
                let ghost before = out.deep_view();
                out.push(c.clone());
                proof {
                    assert(out.deep_view() =~= before.push(self.checks()[i as int]));
                }
            }
            i = i + 1;
        }
        proof {
            assert(self.checks().subrange(0, self.checks().len() as int) =~= self.checks());
        }
        out
    }

    /// The grammars accepted by the relaxed oracle but rejected by the
    /// strict one: the LR(k), k greater than one, class, in trial order.
    /// Requiring the strict rejection avoids double-counting grammars
    /// already captured by the LR(1) class.
    pub fn lrk_grammars(&self) -> (r: Vec<CfgLr1Result>)
        ensures
            r.deep_view() == lrk_filter(self.checks()),
    {
        let mut out: Vec<CfgLr1Result> = Vec::new();
        let mut i: usize = 0;
        proof {
            assert(self.checks().subrange(0, 0) =~= Seq::<ResultView>::empty());
            assert(lrk_filter(self.checks().subrange(0, 0)) =~= Seq::<ResultView>::empty());
        }
        while i < self.lr_checks.len()
            invariant
                i <= self.lr_checks@.len(),
                self.checks().len() == self.lr_checks@.len(),
                forall|j: int| 0 <= j < self.checks().len() ==> self.checks()[j] == self.lr_checks@[j]@,
                out.deep_view() == lrk_filter(self.checks().subrange(0, i as int)),
            decreases self.lr_checks@.len() - i,
        {
            let ghost prev = self.checks().subrange(0, i as int);
            let ghost cur = self.checks().subrange(0, i + 1 as int);
            proof {
                assert(cur =~= prev.push(self.checks()[i as int]));
                prev.lemma_filter_push(self.checks()[i as int], |c: ResultView| is_lrk_result(c));
            }
            let c = &self.lr_checks[i];
            if c.hyacc_lr1() && !c.bison_lr1() {
                let ghost before = out.deep_view();
                out.push(c.clone());
                proof {
                    assert(out.deep_view() =~= before.push(self.checks()[i as int]));
                }
            }
            i = i + 1;
        }
        proof {
            assert(self.checks().subrange(0, self.checks().len() as int) =~= self.checks());
        }
        out
    }
}

} // verus!
