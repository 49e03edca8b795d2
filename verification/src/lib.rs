//! Random context-free grammar corpus tooling: a grammar data model with
//! textual renderings, reachability and productivity analysis, a randomized
//! grammar generator, and classification-verdict aggregation.
use vstd::prelude::*;

pub mod analysis;
pub mod counts;
pub(crate) mod draw;
pub mod gen;
pub mod grammar;
pub mod oracle;

use crate::gen::CfgGen;
use crate::gen::CfgGenError;
use crate::gen::wf_gen_cfg;
use crate::grammar::Cfg;
use crate::oracle::run_bison;
use crate::oracle::spec_bison_accepts;

verus! {

/// Generates candidate grammars for every size in `from_size..to_size`,
/// `n` independent trials per size, and collects the candidates that
/// survived every structural check. Trials whose candidate is rejected (an
/// unreachable nonterminal, an unproductive grammar, exhausted re-rolls)
/// are dropped silently: such rejections are expected, frequent outcomes,
/// not errors, so this stage itself never fails.
pub fn generate(from_size: usize, to_size: usize, n: usize) -> (r: Result<Vec<Cfg>, CfgGenError>)
    requires
        from_size >= 2,
        to_size <= 27,
    ensures
        r is Ok,
        match r {
            Ok(cfgs) => forall|j: int|
                0 <= j < cfgs@.len() ==> wf_gen_cfg((#[trigger] cfgs@[j])@) && from_size
                    <= cfgs@[j]@.len() < to_size,
            Err(_) => false,
        },
{
    let mut out: Vec<Cfg> = Vec::new();
    let mut size = from_size;
    while size < to_size
        invariant
            from_size >= 2,
            to_size <= 27,
            size >= from_size,
            forall|j: int|
                0 <= j < out@.len() ==> wf_gen_cfg((#[trigger] out@[j])@) && from_size
                    <= out@[j]@.len() < to_size,
        decreases to_size - size,
    {
        let gen_cfg = CfgGen::new(size);
        let mut t: usize = 0;
        while t < n
            invariant
                gen_cfg.wf(),
                gen_cfg.size_of() == size,
                from_size <= size < to_size,
                forall|j: int|
                    0 <= j < out@.len() ==> wf_gen_cfg((#[trigger] out@[j])@) && from_size
                        <= out@[j]@.len() < to_size,
            decreases n - t,
        {
            let ghost before = out@;
            match gen_cfg.generate() {
                Some(cfg) => {
                    out.push(cfg);
                    proof {
                        assert forall|j: int| 0 <= j < out@.len() implies wf_gen_cfg(
                            (#[trigger] out@[j])@,
                        ) && from_size <= out@[j]@.len() < to_size by {
                            if j < before.len() {
                                assert(out@[j] == before[j]);
                            }
                        }
                    }
                },
                None => {},
            }
            t = t + 1;
        }
        size = size + 1;
    }
    Ok(out)
}

/// Decides, from the strict oracle's error text, whether the grammar is
/// LR(1): it is unless a conflict or useless-symbol marker occurs in the
/// text.
pub fn lr1_check(err: &str) -> (r: bool)
    ensures
        r == spec_bison_accepts(err@),
{
    let (accepted, _msg) = run_bison(err);
    accepted
}

} // verus!
