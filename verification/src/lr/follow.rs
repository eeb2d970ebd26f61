//! FOLLOW computation used by the SLR construction.
use vstd::prelude::*;
use crate::analysis::{
    FirstSet, FirstSetCalculator, FollowSet, FollowSetCalculator, flags, flags2, is_first_sets,
    is_follow_sets, is_nullable_set, matrix_shape,
};
use crate::cfg::{ContextFreeGrammar, TerminalId};

verus! {

/// FOLLOW computation for LR table construction.
pub struct LRFollowCalculator;

impl LRFollowCalculator {
    /// The FOLLOW sets of `cfg` (computing NULLABLE and FIRST first).
    pub fn compute(cfg: &ContextFreeGrammar) -> (res: FollowSet)
        requires
            cfg.wf(),
        ensures
            exists|nullable: Seq<bool>, first: Seq<Vec<bool>>|
                is_nullable_set(cfg, nullable) && is_first_sets(cfg, flags(nullable), first)
                    && is_follow_sets(cfg, flags(nullable), flags2(first), res.table@),
            res.end_marker == TerminalId(cfg.terminals.len()),
    {
        let nullable = FirstSetCalculator::compute_nullable(cfg);
        let first_sets = FirstSetCalculator::compute_with_nullable(cfg, &nullable);
        Self::compute_with_first(cfg, &first_sets, &nullable)
    }

    /// The FOLLOW sets of `cfg` from its FIRST sets and NULLABLE flags: the least
    /// relation with `$` in FOLLOW(start) that is closed under the FOLLOW rule.
    pub fn compute_with_first(cfg: &ContextFreeGrammar, first_sets: &FirstSet, nullable: &Vec<bool>) -> (res:
        FollowSet)
        requires
            cfg.wf(),
            nullable.len() == cfg.non_terminals.len(),
            matrix_shape(first_sets.table@, cfg.non_terminals.len() as nat, cfg.terminals.len() as nat),
        ensures
            is_follow_sets(cfg, flags(nullable@), flags2(first_sets.table@), res.table@),
            res.end_marker == TerminalId(cfg.terminals.len()),
    {
        FollowSetCalculator::compute(cfg, first_sets, nullable)
    }

    /// NULLABLE, FIRST and FOLLOW of `cfg`.
    pub fn compute_all(cfg: &ContextFreeGrammar) -> (res: (Vec<bool>, FirstSet, FollowSet))
        requires
            cfg.wf(),
        ensures
            is_nullable_set(cfg, res.0@),
            is_first_sets(cfg, flags(res.0@), res.1.table@),
            is_follow_sets(cfg, flags(res.0@), flags2(res.1.table@), res.2.table@),
            res.2.end_marker == TerminalId(cfg.terminals.len()),
    {
        let nullable = FirstSetCalculator::compute_nullable(cfg);
        let first_sets = FirstSetCalculator::compute_with_nullable(cfg, &nullable);
        let follow_sets = Self::compute_with_first(cfg, &first_sets, &nullable);
        (nullable, first_sets, follow_sets)
    }
}

} // verus!
