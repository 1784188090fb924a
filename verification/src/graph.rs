//! Per-block fact storage for analyses that keep one incoming and one
//! outgoing set per basic block.

use vstd::prelude::*;
use crate::cfg::ControlFlowGraph;

verus! {

/// One incoming and one outgoing set of dataflow facts per basic block.
pub struct Graph<D> {
    pub in_sets: Vec<D>,
    pub out_sets: Vec<D>,
}

impl<D: Clone> Graph<D> {
    /// Fills both tables with copies of `empty_set`, one per block of `cfg`.
    pub fn new(empty_set: D, cfg: &ControlFlowGraph) -> (r: Graph<D>)
        ensures
            r.in_sets@.len() == cfg.blocks@.len(),
            r.out_sets@.len() == cfg.blocks@.len(),
    {
        let n = cfg.blocks.len();
        let mut in_sets: Vec<D> = Vec::new();
        let mut out_sets: Vec<D> = Vec::new();
        let mut i: usize = 0;
        while i < n
            invariant
                i <= n,
                in_sets@.len() == i,
                out_sets@.len() == i,
            decreases n - i,
        {
            in_sets.push(empty_set.clone());
            out_sets.push(empty_set.clone());
            i = i + 1;
        }
        Graph { in_sets, out_sets }
    }
}

} // verus!
