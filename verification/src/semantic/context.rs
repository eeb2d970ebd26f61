//! The passes of the semantic analysis and the counts of the first one.
use vstd::prelude::*;

verus! {

/// The passes of the analysis, in order.
#[derive(Debug, Clone, Copy, PartialEq, Eq, Structural)]
pub enum Pass {
    Warmup,
    NameResolution,
    TypeChecking,
    IrGeneration,
}

/// What the warm-up pass counts, for sizing the later passes.
#[derive(Debug, Clone, Copy, PartialEq, Eq, Structural)]
pub struct WarmupStats {
    pub node_count: usize,
    pub max_scope_depth: usize,
    pub estimated_symbol_count: usize,
}

} // verus!
