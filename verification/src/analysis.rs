//! Reachability and productivity analysis over a grammar's rule set.
//!
//! Reachability is the closure of the nonterminal names referenced from the
//! root rule's alternatives; productivity is the monotone fixpoint of rules
//! with one alternative made only of terminals and already-productive
//! nonterminals.
use vstd::prelude::*;

use crate::grammar::Cfg;
use crate::grammar::CfgRule;
use crate::grammar::LexSymbol;
use crate::grammar::RuleAlt;
use crate::grammar::RuleView;
use crate::grammar::SymView;

verus! {

broadcast use vstd::seq_lib::group_seq_lib_default;

/// The nonterminal names that occur in one alternative.
pub open spec fn alt_nts(a: Seq<SymView>) -> Set<Seq<char>> {
    Set::new(
        |n: Seq<char>|
            exists|i: int| 0 <= i < a.len() && (#[trigger] a[i]) is NonTerm && a[i].name() == n,
    )
}

/// The nonterminal names that occur anywhere in a rule's alternatives.
pub open spec fn rule_nts(r: RuleView) -> Set<Seq<char>> {
    Set::new(
        |n: Seq<char>|
            exists|i: int| 0 <= i < r.alts.len() && #[trigger] alt_nts(r.alts[i]).contains(n),
    )
}

/// The left-hand-side names of a grammar, in rule order.
pub open spec fn lhs_seq(g: Seq<RuleView>) -> Seq<Seq<char>> {
    g.map_values(|r: RuleView| r.lhs)
}

/// The left-hand-side names of the non-root rules.
pub open spec fn nonroot_lhs_set(g: Seq<RuleView>) -> Set<Seq<char>> {
    lhs_seq(g).drop_first().to_set()
}

/// One step of the reachability closure: the names referenced by rules whose
/// own name is already reachable.
pub open spec fn reach_step(g: Seq<RuleView>, s: Set<Seq<char>>) -> Set<Seq<char>> {
    s.union(
        Set::new(
            |n: Seq<char>|
                exists|i: int|
                    0 <= i < g.len() && s.contains((#[trigger] g[i]).lhs) && rule_nts(g[i]).contains(
                        n,
                    ),
        ),
    )
}

/// The reachability closure after `k` steps, seeded with the names referenced
/// from the root rule's alternatives.
pub open spec fn reach_n(g: Seq<RuleView>, k: nat) -> Set<Seq<char>>
    recommends
        g.len() > 0,
    decreases k,
{
    if k == 0 {
        rule_nts(g[0])
    } else {
        reach_step(g, reach_n(g, (k - 1) as nat))
    }
}

/// The set of names reachable from the root rule's alternatives. A chain of
/// references visits each rule at most once, so the closure is saturated
/// after as many steps as the grammar has rules.
pub open spec fn spec_reachable(g: Seq<RuleView>) -> Set<Seq<char>>
    recommends
        g.len() > 0,
{
    reach_n(g, g.len() as nat)
}

/// An alternative is productive over `prod` when every nonterminal in it is
/// already in `prod`; an alternative with no nonterminals (the empty one
/// included) is trivially productive.
pub open spec fn alt_productive(a: Seq<SymView>, prod: Set<Seq<char>>) -> bool {
    forall|i: int|
        0 <= i < a.len() ==> ((#[trigger] a[i]) is NonTerm ==> prod.contains(a[i].name()))
}

/// A rule is productive over `prod` when some alternative of it is.
pub open spec fn rule_productive(r: RuleView, prod: Set<Seq<char>>) -> bool {
    exists|i: int| 0 <= i < r.alts.len() && alt_productive(#[trigger] r.alts[i], prod)
}

/// One pass of the productivity fixpoint over the non-root rules.
pub open spec fn prod_step(g: Seq<RuleView>, prod: Set<Seq<char>>) -> Set<Seq<char>> {
    prod.union(
        Set::new(
            |n: Seq<char>|
                exists|i: int|
                    1 <= i < g.len() && (#[trigger] g[i]).lhs == n && rule_productive(g[i], prod),
        ),
    )
}

/// The productive names after `k` passes, starting from nothing.
pub open spec fn prod_n(g: Seq<RuleView>, k: nat) -> Set<Seq<char>>
    decreases k,
{
    if k == 0 {
        Set::empty()
    } else {
        prod_step(g, prod_n(g, (k - 1) as nat))
    }
}

/// The productive non-root names of the grammar: each pass of the fixpoint
/// either adds a non-root name or changes nothing ever after, so as many
/// passes as the grammar has rules saturate it.
pub open spec fn productive_names(g: Seq<RuleView>) -> Set<Seq<char>> {
    prod_n(g, g.len() as nat)
}

/// The grammar is productive when every non-root rule's name is productive.
/// The root rule is the derivation's entry point and is excluded.
pub open spec fn spec_is_productive(g: Seq<RuleView>) -> bool {
    forall|i: int| 1 <= i < g.len() ==> productive_names(g).contains((#[trigger] g[i]).lhs)
}

/// A duplicate-free sequence drawn from the entries of another sequence is
/// no longer than it.
pub proof fn lemma_nts_card(nts: Seq<Seq<char>>, rr: Seq<Seq<char>>)
    requires
        rr.no_duplicates(),
        forall|j: int| 0 <= j < rr.len() ==> nts.contains(#[trigger] rr[j]),
    ensures
        rr.len() <= nts.len(),
{
    rr.unique_seq_to_set();
    nts.lemma_cardinality_of_set();
    assert forall|n: Seq<char>| rr.to_set().contains(n) implies nts.to_set().contains(n) by {
        let j = choose|j: int| 0 <= j < rr.len() && rr[j] == n;
        assert(nts.contains(rr[j]));
    }
    vstd::set_lib::lemma_len_subset(rr.to_set(), nts.to_set());
}

/// Worklist entry `t` was referenced by a rule generated no later than its
/// own position: the discovery order of worklist-driven generation.
pub open spec fn discovered_by(g: Seq<RuleView>, rr: Seq<Seq<char>>, t: int) -> bool {
    exists|j: int| 0 <= j <= t && j < g.len() && #[trigger] rule_nts(g[j]).contains(rr[t])
}

/// Every worklist entry obeys the discovery order.
pub open spec fn worklist_discovery(g: Seq<RuleView>, rr: Seq<Seq<char>>) -> bool {
    forall|t: int| 0 <= t < rr.len() ==> #[trigger] discovered_by(g, rr, t)
}

/// More reachability steps never lose names.
pub proof fn lemma_reach_n_mono(g: Seq<RuleView>, k: nat, m: nat)
    requires
        k <= m,
    ensures
        reach_n(g, k).subset_of(reach_n(g, m)),
    decreases m,
{
    if k < m {
        lemma_reach_n_mono(g, k, (m - 1) as nat);
        assert(reach_n(g, m) == reach_step(g, reach_n(g, (m - 1) as nat)));
    }
}

/// In a grammar grown from a worklist, each worklist entry was referenced by
/// an earlier rule, so it is reachable within as many steps as its position.
proof fn lemma_discovered_reachable(g: Seq<RuleView>, rr: Seq<Seq<char>>, k: int)
    requires
        g.len() == rr.len() + 1,
        forall|t: int| 1 <= t < g.len() ==> (#[trigger] g[t]).lhs == rr[t - 1],
        worklist_discovery(g, rr),
        0 <= k < rr.len(),
    ensures
        reach_n(g, (k + 1) as nat).contains(rr[k]),
    decreases k,
{
    assert(discovered_by(g, rr, k));
    let j = choose|j: int| 0 <= j <= k && j < g.len() && #[trigger] rule_nts(g[j]).contains(rr[k]);
    if j == 0 {
        assert(reach_n(g, 0).contains(rr[k]));
        lemma_reach_n_mono(g, 0, (k + 1) as nat);
    } else {
        lemma_discovered_reachable(g, rr, j - 1);
        lemma_reach_n_mono(g, j as nat, k as nat);
        assert(reach_n(g, k as nat).contains(g[j].lhs));
        assert(reach_step(g, reach_n(g, k as nat)).contains(rr[k]));
        assert(reach_n(g, (k + 1) as nat) == reach_step(g, reach_n(g, k as nat)));
    }
}

/// When every rule's references stay inside the worklist, so does the whole
/// reachability closure.
proof fn lemma_reach_bounded(g: Seq<RuleView>, rr: Seq<Seq<char>>, m: nat)
    requires
        g.len() == rr.len() + 1,
        forall|t: int| 0 <= t < g.len() ==> rule_nts(#[trigger] g[t]).subset_of(rr.to_set()),
    ensures
        reach_n(g, m).subset_of(rr.to_set()),
    decreases m,
{
    if m == 0 {
        assert(rule_nts(g[0]).subset_of(rr.to_set()));
    } else {
        lemma_reach_bounded(g, rr, (m - 1) as nat);
        assert forall|n: Seq<char>| reach_n(g, m).contains(n) implies rr.to_set().contains(n) by {
            if !reach_n(g, (m - 1) as nat).contains(n) {
                let i = choose|i: int|
                    0 <= i < g.len() && reach_n(g, (m - 1) as nat).contains((#[trigger] g[i]).lhs)
                        && rule_nts(g[i]).contains(n);
                assert(rule_nts(g[i]).subset_of(rr.to_set()));
            }
        }
    }
}

/// The reachability invariant of worklist-driven generation: the worklist,
/// which is exactly the set of non-root rule names, equals the set of names
/// reachable from the root rule's alternatives.
pub proof fn lemma_worklist_reachable(g: Seq<RuleView>, rr: Seq<Seq<char>>)
    requires
        g.len() == rr.len() + 1,
        forall|t: int| 1 <= t < g.len() ==> (#[trigger] g[t]).lhs == rr[t - 1],
        worklist_discovery(g, rr),
        forall|t: int| 0 <= t < g.len() ==> rule_nts(#[trigger] g[t]).subset_of(rr.to_set()),
    ensures
        spec_reachable(g) == rr.to_set(),
{
    lemma_reach_bounded(g, rr, g.len() as nat);
    assert forall|n: Seq<char>| rr.to_set().contains(n) implies spec_reachable(g).contains(n) by {
        let k = choose|k: int| 0 <= k < rr.len() && rr[k] == n;
        lemma_discovered_reachable(g, rr, k);
        lemma_reach_n_mono(g, (k + 1) as nat, g.len() as nat);
    }
    assert(spec_reachable(g) =~= rr.to_set());
}

/// Productivity of an alternative is monotone in the productive set.
pub proof fn lemma_alt_productive_mono(a: Seq<SymView>, s1: Set<Seq<char>>, s2: Set<Seq<char>>)
    requires
        s1.subset_of(s2),
        alt_productive(a, s1),
    ensures
        alt_productive(a, s2),
{
}

/// Productivity of a rule is monotone in the productive set.
pub proof fn lemma_rule_productive_mono(r: RuleView, s1: Set<Seq<char>>, s2: Set<Seq<char>>)
    requires
        s1.subset_of(s2),
        rule_productive(r, s1),
    ensures
        rule_productive(r, s2),
{
    let i = choose|i: int| 0 <= i < r.alts.len() && alt_productive(#[trigger] r.alts[i], s1);
    lemma_alt_productive_mono(r.alts[i], s1, s2);
}

/// More passes never lose names.
pub proof fn lemma_prod_n_mono(g: Seq<RuleView>, k: nat, m: nat)
    requires
        k <= m,
    ensures
        prod_n(g, k).subset_of(prod_n(g, m)),
    decreases m,
{
    if k < m {
        lemma_prod_n_mono(g, k, (m - 1) as nat);
        assert(prod_n(g, m) == prod_step(g, prod_n(g, (m - 1) as nat)));
    }
}

/// Every productive name is a non-root left-hand side.
pub proof fn lemma_prod_n_subset_lhs(g: Seq<RuleView>, k: nat)
    ensures
        prod_n(g, k).subset_of(nonroot_lhs_set(g)),
    decreases k,
{
    if k > 0 {
        lemma_prod_n_subset_lhs(g, (k - 1) as nat);
        assert forall|n: Seq<char>| prod_n(g, k).contains(n) implies nonroot_lhs_set(g).contains(
            n,
        ) by {
            if !prod_n(g, (k - 1) as nat).contains(n) {
                let i = choose|i: int|
                    1 <= i < g.len() && (#[trigger] g[i]).lhs == n && rule_productive(
                        g[i],
                        prod_n(g, (k - 1) as nat),
                    );
                assert(lhs_seq(g).drop_first()[i - 1] == n);
                assert(lhs_seq(g).drop_first().contains(n));
            }
        }
    }
}

/// The non-root left-hand sides form a finite set no larger than the number
/// of non-root rules.
pub proof fn lemma_nonroot_lhs_card(g: Seq<RuleView>)
    requires
        g.len() > 0,
    ensures
        nonroot_lhs_set(g).finite(),
        nonroot_lhs_set(g).len() <= g.len() - 1,
{
    let s = lhs_seq(g).drop_first();
    s.lemma_cardinality_of_set();
    assert(s.len() == g.len() - 1);
}

/// Once one pass changes nothing, no later pass ever does.
pub proof fn lemma_prod_fix_forward(g: Seq<RuleView>, k: nat, m: nat)
    requires
        prod_n(g, k) == prod_n(g, (k + 1) as nat),
        k <= m,
    ensures
        prod_n(g, m) == prod_n(g, k),
    decreases m,
{
    if k < m {
        lemma_prod_fix_forward(g, k, (m - 1) as nat);
        assert(prod_n(g, m) == prod_step(g, prod_n(g, (m - 1) as nat)));
        assert(prod_n(g, m) == prod_step(g, prod_n(g, k)));
        assert(prod_step(g, prod_n(g, k)) == prod_n(g, (k + 1) as nat));
    }
}

/// While the fixpoint keeps changing, each pass adds at least one name.
pub proof fn lemma_prod_growth(g: Seq<RuleView>, k: nat)
    requires
        g.len() > 0,
        forall|j: nat| j < k ==> #[trigger] prod_n(g, j) != prod_n(g, (j + 1) as nat),
    ensures
        prod_n(g, k).finite(),
        prod_n(g, k).len() >= k,
    decreases k,
{
    lemma_nonroot_lhs_card(g);
    lemma_prod_n_subset_lhs(g, k);
    vstd::set_lib::lemma_set_subset_finite(nonroot_lhs_set(g), prod_n(g, k));
    if k > 0 {
        let j = (k - 1) as nat;
        lemma_prod_growth(g, j);
        assert(prod_n(g, j) != prod_n(g, (j + 1) as nat));
        lemma_prod_n_mono(g, j, k);
        assert((j + 1) as nat == k);
        if prod_n(g, k).subset_of(prod_n(g, j)) {
            assert(prod_n(g, j) =~= prod_n(g, k));
            assert(false);
        }
        let extra = choose|n: Seq<char>| prod_n(g, k).contains(n) && !prod_n(g, j).contains(n);
        prod_n(g, j).lemma_subset_not_in_lt(prod_n(g, k), extra);
    }
}

/// After as many passes as the grammar has rules, the fixpoint is saturated.
pub proof fn lemma_prod_saturated(g: Seq<RuleView>)
    requires
        g.len() > 0,
    ensures
        prod_step(g, productive_names(g)) == productive_names(g),
{
    let len = g.len() as nat;
    if exists|j: nat| j < len && #[trigger] prod_n(g, j) == prod_n(g, (j + 1) as nat) {
        let j = choose|j: nat| j < len && #[trigger] prod_n(g, j) == prod_n(g, (j + 1) as nat);
        lemma_prod_fix_forward(g, j, len);
        assert(prod_n(g, len) == prod_n(g, j));
        assert(prod_step(g, prod_n(g, len)) == prod_n(g, (j + 1) as nat));
    } else {
        assert(forall|j: nat| j < len ==> #[trigger] prod_n(g, j) != prod_n(g, (j + 1) as nat));
        lemma_prod_growth(g, len);
        lemma_prod_n_subset_lhs(g, len);
        lemma_nonroot_lhs_card(g);
        vstd::set_lib::lemma_len_subset(prod_n(g, len), nonroot_lhs_set(g));
        assert(false);
    }
}

/// A productive name got productive at some pass, through its own rule.
proof fn lemma_member_has_rule(g: Seq<RuleView>, n: Seq<char>, k: nat)
    requires
        g.len() >= 1,
        k <= g.len(),
        prod_n(g, k).contains(n),
    ensures
        exists|j: int|
            1 <= j < g.len() && (#[trigger] g[j]).lhs == n && rule_productive(
                g[j],
                productive_names(g),
            ),
    decreases k,
{
    if k > 0 {
        let prev = prod_n(g, (k - 1) as nat);
        if prev.contains(n) {
            lemma_member_has_rule(g, n, (k - 1) as nat);
        } else {
            let j = choose|j: int|
                1 <= j < g.len() && (#[trigger] g[j]).lhs == n && rule_productive(g[j], prev);
            lemma_prod_n_mono(g, (k - 1) as nat, g.len() as nat);
            lemma_rule_productive_mono(g[j], prev, productive_names(g));
        }
    }
}

/// The productivity invariant, rule by rule: in a productive grammar with
/// one rule per name, every non-root rule has at least one alternative
/// whose symbols are all terminals or productive nonterminals.
pub proof fn lemma_productive_rules(g: Seq<RuleView>)
    requires
        g.len() >= 1,
        spec_is_productive(g),
        lhs_seq(g).no_duplicates(),
    ensures
        forall|i: int|
            1 <= i < g.len() ==> rule_productive(#[trigger] g[i], productive_names(g)),
{
    assert forall|i: int| 1 <= i < g.len() implies rule_productive(
        #[trigger] g[i],
        productive_names(g),
    ) by {
        let n = g[i].lhs;
        assert(productive_names(g).contains(n));
        lemma_member_has_rule(g, n, g.len() as nat);
        let j = choose|j: int|
            1 <= j < g.len() && (#[trigger] g[j]).lhs == n && rule_productive(
                g[j],
                productive_names(g),
            );
        assert(lhs_seq(g)[j] == g[j].lhs && lhs_seq(g)[i] == g[i].lhs);
        assert(j == i);
    }
}

/// A set that is closed under one pass of the fixpoint contains every
/// productive name.
pub proof fn lemma_prod_closed_complete(g: Seq<RuleView>, s: Set<Seq<char>>, k: nat)
    requires
        forall|i: int|
            1 <= i < g.len() && !s.contains((#[trigger] g[i]).lhs) ==> !rule_productive(g[i], s),
    ensures
        prod_n(g, k).subset_of(s),
    decreases k,
{
    if k > 0 {
        let j = (k - 1) as nat;
        lemma_prod_closed_complete(g, s, j);
        assert forall|n: Seq<char>| prod_n(g, k).contains(n) implies s.contains(n) by {
            if !prod_n(g, j).contains(n) {
                let i = choose|i: int|
                    1 <= i < g.len() && (#[trigger] g[i]).lhs == n && rule_productive(
                        g[i],
                        prod_n(g, j),
                    );
                lemma_rule_productive_mono(g[i], prod_n(g, j), s);
                if !s.contains(n) {
                    assert(!rule_productive(g[i], s));
                }
            }
        }
    }
}

/// Whether a vector of names contains the given name.
pub fn contains_name(names: &Vec<String>, name: &str) -> (r: bool)
    ensures
        r == names.deep_view().contains(name@),
{
    let owned = String::from_str(name);
    let mut i: usize = 0;
    while i < names.len()
        invariant
            i <= names@.len(),
            owned@ == name@,
            forall|j: int| 0 <= j < i ==> names@[j]@ != name@,
        decreases names@.len() - i,
    {
        if names[i] == owned {
            proof {
                assert(names.deep_view()[i as int] == name@);
            }
            return true;
        }
        i = i + 1;
    }
    proof {
        assert forall|j: int| 0 <= j < names.deep_view().len() implies names.deep_view()[j]
            != name@ by {
            assert(names@[j]@ != name@);
        }
    }
    false
}

/// Scans one alternative and appends every nonterminal name not already
/// present to the reachable worklist, in the order they occur.
pub fn update_reachable(alt: &RuleAlt, root_reach: &mut Vec<String>)
    ensures
        final(root_reach).deep_view().len() >= old(root_reach).deep_view().len(),
        final(root_reach).deep_view().subrange(0, old(root_reach).deep_view().len() as int) == old(
            root_reach,
        ).deep_view(),
        final(root_reach).deep_view().to_set() == old(root_reach).deep_view().to_set().union(
            alt_nts(alt@),
        ),
        old(root_reach).deep_view().no_duplicates() ==> final(root_reach).deep_view().no_duplicates(),
        forall|j: int|
            old(root_reach).deep_view().len() <= j < final(root_reach).deep_view().len()
                ==> alt_nts(alt@).contains(#[trigger] final(root_reach).deep_view()[j]),
{
    let syms = alt.symbols();
    let ghost orig = root_reach.deep_view();
    let mut i: usize = 0;
    while i < syms.len()
        invariant
            i <= syms@.len(),
            syms.deep_view() == alt@,
            syms@.len() == alt@.len(),
            forall|j: int| 0 <= j < alt@.len() ==> alt@[j] == syms@[j]@,
            root_reach.deep_view().len() >= orig.len(),
            root_reach.deep_view().subrange(0, orig.len() as int) == orig,
            root_reach.deep_view().to_set() == orig.to_set().union(
                alt_nts(alt@.subrange(0, i as int)),
            ),
            orig.no_duplicates() ==> root_reach.deep_view().no_duplicates(),
            forall|j: int|
                orig.len() <= j < root_reach.deep_view().len() ==> alt_nts(alt@).contains(
                    #[trigger] root_reach.deep_view()[j],
                ),
        decreases syms@.len() - i,
    {
        let ghost prefix = alt@.subrange(0, i as int);
        let ghost cur = alt@.subrange(0, i + 1 as int);
        proof {
            assert(cur =~= prefix.push(alt@[i as int]));
        }
        match &syms[i] {
            LexSymbol::NonTerm(nt) => {
                let name = nt.name();
                proof {
                    assert(alt@[i as int] is NonTerm && alt@[i as int].name() == name@);
                    assert(cur[i as int] == alt@[i as int]);
                    assert((cur[i as int]) is NonTerm && cur[i as int].name() == name@);
                    assert(alt_nts(cur).contains(name@));
                }
                if !contains_name(root_reach, name) {
                    let ghost before = root_reach.deep_view();
                    root_reach.push(String::from_str(name));
                    proof {
                        assert(root_reach.deep_view() =~= before.push(name@));
                        assert(root_reach.deep_view().subrange(0, orig.len() as int) =~= orig);
                        before.lemma_push_to_set_commute(name@);
                        assert(root_reach.deep_view().to_set() =~= before.to_set().insert(name@));
                        assert forall|n: Seq<char>| alt_nts(cur).contains(n) implies alt_nts(
                            prefix,
                        ).contains(n) || n == name@ by {
                            let x = choose|x: int|
                                0 <= x < cur.len() && (#[trigger] cur[x]) is NonTerm
                                    && cur[x].name() == n;
                            if x < i as int {
                                assert(prefix[x] == cur[x]);
                            }
                        }
                        assert(root_reach.deep_view().to_set() =~= orig.to_set().union(
                            alt_nts(cur),
                        ));
                        if orig.no_duplicates() {
                            assert(before.no_duplicates());
                            assert(!before.contains(name@));
                            assert(root_reach.deep_view().no_duplicates());
                        }
                    }
                } else {
                    proof {
                        assert(root_reach.deep_view().to_set().contains(name@));
                        assert forall|n: Seq<char>| alt_nts(cur).contains(n) implies alt_nts(
                            prefix,
                        ).contains(n) || n == name@ by {
                            let x = choose|x: int|
                                0 <= x < cur.len() && (#[trigger] cur[x]) is NonTerm
                                    && cur[x].name() == n;
                            if x < i as int {
                                assert(prefix[x] == cur[x]);
                            }
                        }
                        assert(root_reach.deep_view().to_set() =~= orig.to_set().union(
                            alt_nts(cur),
                        ));
                    }
                }
            },
            LexSymbol::Term(_) => {
                proof {
                    assert forall|n: Seq<char>| alt_nts(cur).contains(n) implies alt_nts(
                        prefix,
                    ).contains(n) by {
                        let x = choose|x: int|
                            0 <= x < cur.len() && (#[trigger] cur[x]) is NonTerm && cur[x].name()
                                == n;
                        assert(x < i as int);
                        assert(prefix[x] == cur[x]);
                    }
                    assert(root_reach.deep_view().to_set() =~= orig.to_set().union(alt_nts(cur)));
                }
            },
        }
        i = i + 1;
    }
    proof {
        assert(alt@.subrange(0, alt@.len() as int) =~= alt@);
    }
}

/// The set difference as a sublist: the entries of `nts` whose names are
/// not in `reach`, in their original order and multiplicity.
pub open spec fn spec_unreachable(nts: Seq<Seq<char>>, reach: Seq<Seq<char>>) -> Seq<Seq<char>> {
    nts.filter(|n: Seq<char>| !reach.contains(n))
}

/// The declared nonterminal names that the reachable set never picked up:
/// the sublist of `non_terms` outside `root_reach`, order preserved.
pub fn unreachable_non_terms(non_terms: &Vec<String>, root_reach: &Vec<String>) -> (r: Vec<String>)
    ensures
        r.deep_view() == spec_unreachable(non_terms.deep_view(), root_reach.deep_view()),
        forall|n: Seq<char>|
            #[trigger] r.deep_view().contains(n) <==> (non_terms.deep_view().contains(n)
                && !root_reach.deep_view().contains(n)),
{
    let mut unreach: Vec<String> = Vec::new();
    let mut i: usize = 0;
    proof {
        assert(non_terms.deep_view().subrange(0, 0) =~= Seq::<Seq<char>>::empty());
        assert(unreach.deep_view() =~= spec_unreachable(
            non_terms.deep_view().subrange(0, 0),
            root_reach.deep_view(),
        ));
    }
    while i < non_terms.len()
        invariant
            i <= non_terms@.len(),
            unreach.deep_view() == spec_unreachable(
                non_terms.deep_view().subrange(0, i as int),
                root_reach.deep_view(),
            ),
            forall|n: Seq<char>|
                #[trigger] unreach.deep_view().contains(n) <==> (non_terms.deep_view().subrange(
                    0,
                    i as int,
                ).contains(n) && !root_reach.deep_view().contains(n)),
        decreases non_terms@.len() - i,
    {
        let ghost prefix = non_terms.deep_view().subrange(0, i as int);
        let ghost cur = non_terms.deep_view().subrange(0, i + 1 as int);
        proof {
            assert(cur =~= prefix.push(non_terms.deep_view()[i as int]));
            prefix.lemma_filter_push(
                non_terms.deep_view()[i as int],
                |n: Seq<char>| !root_reach.deep_view().contains(n),
            );
            assert forall|n: Seq<char>| #[trigger] cur.contains(n) implies prefix.contains(n) || n
                == non_terms.deep_view()[i as int] by {
                let x = choose|x: int| 0 <= x < cur.len() && cur[x] == n;
                if x < i as int {
                    assert(prefix[x] == cur[x]);
                }
            }
            assert forall|n: Seq<char>| #[trigger] prefix.contains(n) implies cur.contains(n) by {
                let x = choose|x: int| 0 <= x < prefix.len() && prefix[x] == n;
                assert(cur[x] == prefix[x]);
            }
        }
        let nt = &non_terms[i];
        proof {
            assert(non_terms.deep_view()[i as int] == nt@);
            assert(cur[i as int] == nt@);
            assert(cur.contains(nt@));
        }
        if !contains_name(root_reach, nt.as_str()) {
            let ghost before = unreach.deep_view();
            unreach.push(nt.clone());
            proof {
                assert(unreach.deep_view() =~= before.push(nt@));
                assert(unreach.deep_view().contains(nt@)) by {
                    assert(unreach.deep_view()[before.len() as int] == nt@);
                }
                assert forall|n: Seq<char>| #[trigger] unreach.deep_view().contains(n) implies (
                cur.contains(n) && !root_reach.deep_view().contains(n)) by {
                    if n != nt@ {
                        let x = choose|x: int|
                            0 <= x < unreach.deep_view().len() && unreach.deep_view()[x] == n;
                        assert(before[x] == n);
                        assert(before.contains(n));
                    }
                }
                assert forall|n: Seq<char>|
                    cur.contains(n) && !root_reach.deep_view().contains(
                        n,
                    ) implies #[trigger] unreach.deep_view().contains(n) by {
                    if n != nt@ {
                        assert(prefix.contains(n));
                        assert(before.contains(n));
                        let x = choose|x: int| 0 <= x < before.len() && before[x] == n;
                        assert(unreach.deep_view()[x] == n);
                    }
                }
            }
        } else {
            proof {
                assert forall|n: Seq<char>| #[trigger] unreach.deep_view().contains(n) implies (
                cur.contains(n) && !root_reach.deep_view().contains(n)) by {
                    assert(prefix.contains(n));
                }
                assert forall|n: Seq<char>|
                    cur.contains(n) && !root_reach.deep_view().contains(
                        n,
                    ) implies #[trigger] unreach.deep_view().contains(n) by {
                    assert(n != nt@);
                    assert(prefix.contains(n));
                }
            }
        }
        i = i + 1;
    }
    proof {
        assert(non_terms.deep_view().subrange(0, non_terms.deep_view().len() as int)
            =~= non_terms.deep_view());
    }
    unreach
}


/// Whether every nonterminal of the alternative is already marked.
pub fn alt_all_productive(alt: &RuleAlt, marked: &Vec<String>) -> (r: bool)
    ensures
        r == alt_productive(alt@, marked.deep_view().to_set()),
{
    let syms = alt.symbols();
    let mut i: usize = 0;
    while i < syms.len()
        invariant
            i <= syms@.len(),
            syms.deep_view() == alt@,
            syms@.len() == alt@.len(),
            forall|j: int| 0 <= j < alt@.len() ==> alt@[j] == syms@[j]@,
            forall|j: int|
                0 <= j < i ==> ((#[trigger] alt@[j]) is NonTerm ==> marked.deep_view().contains(
                    alt@[j].name(),
                )),
        decreases syms@.len() - i,
    {
        match &syms[i] {
            LexSymbol::NonTerm(nt) => {
                if !contains_name(marked, nt.name()) {
                    proof {
                        assert(alt@[i as int] is NonTerm && alt@[i as int].name() == nt@);
                        assert(!marked.deep_view().to_set().contains(alt@[i as int].name()));
                    }
                    return false;
                }
                proof {
                    assert(alt@[i as int] is NonTerm && alt@[i as int].name() == nt@);
                }
            },
            LexSymbol::Term(_) => {
                proof {
                    assert(!((alt@[i as int]) is NonTerm));
                }
            },
        }
        i = i + 1;
    }
    true
}

/// Whether some alternative of the rule is already productive over the
/// marked set.
pub fn rule_any_alt_productive(rule: &CfgRule, marked: &Vec<String>) -> (r: bool)
    ensures
        r == rule_productive(rule@, marked.deep_view().to_set()),
{
    let alts = rule.alts();
    let mut i: usize = 0;
    while i < alts.len()
        invariant
            i <= alts@.len(),
            alts.deep_view() == rule@.alts,
            alts@.len() == rule@.alts.len(),
            forall|j: int| 0 <= j < rule@.alts.len() ==> rule@.alts[j] == alts@[j]@,
            forall|j: int|
                0 <= j < i ==> !alt_productive(
                    #[trigger] rule@.alts[j],
                    marked.deep_view().to_set(),
                ),
        decreases alts@.len() - i,
    {
        if alt_all_productive(&alts[i], marked) {
            proof {
                assert(alt_productive(rule@.alts[i as int], marked.deep_view().to_set()));
            }
            return true;
        }
        i = i + 1;
    }
    false
}

/// Whether every non-root rule of the grammar is productive: the monotone
/// fixpoint of marking rules whose alternatives bottom out in terminals.
/// Cyclic rules that never reach terminals make this fail.
pub fn is_productive(g: &Cfg) -> (r: bool)
    ensures
        r == spec_is_productive(g@),
{
    let rules = g.rules();
    let n = rules.len();
    if n == 0 {
        return true;
    }
    let mut marked: Vec<String> = Vec::new();
    loop
        invariant
            n == g@.len(),
            1 <= n,
            rules.deep_view() == g@,
            rules@.len() == n,
            forall|j: int| 0 <= j < g@.len() ==> g@[j] == rules@[j]@,
            marked.deep_view().no_duplicates(),
            marked.deep_view().to_set().subset_of(productive_names(g@)),
            marked.deep_view().to_set().subset_of(nonroot_lhs_set(g@)),
            marked.deep_view().len() < n,
        ensures
            marked.deep_view().to_set().subset_of(productive_names(g@)),
            forall|j: int|
                1 <= j < g@.len() && !marked.deep_view().to_set().contains((#[trigger] g@[j]).lhs)
                    ==> !rule_productive(g@[j], marked.deep_view().to_set()),
        decreases n - marked.deep_view().len(),
    {
        let ghost snap = marked.deep_view();
        let mut found = false;
        let mut i: usize = 1;
        while i < n
            invariant
                n == g@.len(),
                1 <= i,
                i <= n,
                rules.deep_view() == g@,
                rules@.len() == n,
                forall|j: int| 0 <= j < g@.len() ==> g@[j] == rules@[j]@,
                marked.deep_view().no_duplicates(),
                marked.deep_view().to_set().subset_of(productive_names(g@)),
                marked.deep_view().to_set().subset_of(nonroot_lhs_set(g@)),
                marked.deep_view().len() >= snap.len(),
                found ==> marked.deep_view().len() > snap.len(),
                !found ==> marked.deep_view() == snap,
                !found ==> forall|j: int|
                    1 <= j < i ==> (marked.deep_view().to_set().contains((#[trigger] g@[j]).lhs)
                        || !rule_productive(g@[j], marked.deep_view().to_set())),
            decreases n - i,
        {
            let rule = &rules[i];
            let lhs = rule.lhs();
            proof {
                assert(rule@ == g@[i as int]);
            }
            if !contains_name(&marked, lhs) {
                if rule_any_alt_productive(rule, &marked) {
                    proof {
                        let ms = marked.deep_view().to_set();
                        lemma_rule_productive_mono(g@[i as int], ms, productive_names(g@));
                        assert(prod_step(g@, productive_names(g@)).contains(g@[i as int].lhs));
                        lemma_prod_saturated(g@);
                        assert(productive_names(g@).contains(lhs@));
                        assert(lhs_seq(g@).drop_first()[i - 1] == g@[i as int].lhs);
                        assert(nonroot_lhs_set(g@).contains(lhs@));
                    }
                    let ghost before = marked.deep_view();
                    marked.push(String::from_str(lhs));
                    found = true;
                    proof {
                        assert(marked.deep_view() =~= before.push(lhs@));
                        before.lemma_push_to_set_commute(lhs@);
                        assert(!before.contains(lhs@));
                        assert(marked.deep_view().no_duplicates());
                    }
                }
            }
            i = i + 1;
        }
        if !found {
            break;
        }
        proof {
            let m = marked.deep_view();
            m.unique_seq_to_set();
            lemma_nonroot_lhs_card(g@);
            vstd::set_lib::lemma_len_subset(m.to_set(), nonroot_lhs_set(g@));
            assert(m.len() < n);
        }
    }
    proof {
        lemma_prod_closed_complete(g@, marked.deep_view().to_set(), g@.len() as nat);
    }
    let mut ok = true;
    let mut i: usize = 1;
    while i < n
        invariant
            n == g@.len(),
            1 <= i,
            i <= n,
            rules.deep_view() == g@,
            rules@.len() == n,
            forall|j: int| 0 <= j < g@.len() ==> g@[j] == rules@[j]@,
            marked.deep_view().to_set().subset_of(productive_names(g@)),
            productive_names(g@).subset_of(marked.deep_view().to_set()),
            ok == forall|j: int|
                1 <= j < i ==> marked.deep_view().to_set().contains((#[trigger] g@[j]).lhs),
        decreases n - i,
    {
        let rule = &rules[i];
        proof {
            assert(rule@ == g@[i as int]);
        }
        if !contains_name(&marked, rule.lhs()) {
            proof {
                assert(!marked.deep_view().to_set().contains(g@[i as int].lhs));
            }
            ok = false;
        }
        i = i + 1;
    }
    ok
}

} // verus!
