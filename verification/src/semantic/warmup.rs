//! The counts of the warm-up pass.
use vstd::prelude::*;
use crate::semantic::context::WarmupStats;

verus! {

/// Counts nodes, the deepest scope nesting and the identifiers.
#[derive(Debug)]
pub struct WarmupEvaluator {
    node_count: usize,
    max_scope_depth: usize,
    current_depth: usize,
    estimated_symbol_count: usize,
}

impl WarmupEvaluator {
    /// The counts so far.
    pub closed spec fn spec_stats(&self) -> WarmupStats {
        WarmupStats {
            node_count: self.node_count,
            max_scope_depth: self.max_scope_depth,
            estimated_symbol_count: self.estimated_symbol_count,
        }
    }

    /// Nothing counted.
    pub fn new() -> (res: Self)
        ensures
            res.spec_stats() == (WarmupStats { node_count: 0, max_scope_depth: 0, estimated_symbol_count: 0 }),
    {
        WarmupEvaluator { node_count: 0, max_scope_depth: 0, current_depth: 0, estimated_symbol_count: 0 }
    }

    /// The counts.
    pub fn into_stats(self) -> (res: WarmupStats)
        ensures
            res == self.spec_stats(),
    {
        WarmupStats {
            node_count: self.node_count,
            max_scope_depth: self.max_scope_depth,
            estimated_symbol_count: self.estimated_symbol_count,
        }
    }
}

impl Default for WarmupEvaluator {
    fn default() -> (res: Self)
        ensures
            res.spec_stats() == (WarmupStats { node_count: 0, max_scope_depth: 0, estimated_symbol_count: 0 }),
    {
        Self::new()
    }
}

} // verus!
