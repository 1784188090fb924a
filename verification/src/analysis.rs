//! The contract a concrete dataflow analysis implements, and the replay
//! machinery shared by the fixed-point engine and the results cursor.
//!
//! An analysis supplies a lattice of domain values (a bottom value, a join,
//! and a clone/assign operation), a transfer function per statement and per
//! terminator, and a direction. Every operation is described by a
//! specification-level model, and the lattice laws are proof obligations, so
//! that the engine can guarantee a fixed point and its own termination.

use vstd::prelude::*;
use crate::cfg::{ControlFlowGraph, Location, LocationKind};

verus! {

/// Marks the dataflow state immediately before or after a transfer function
/// is applied.
#[derive(Clone, Copy, PartialEq, Eq, Structural)]
pub enum Effect {
    Before,
    After,
}

/// A position in a block's analysis order: a raw statement index (the block's
/// statement count denotes the terminator) and a side of its transfer.
#[derive(Clone, Copy, PartialEq, Eq, Structural)]
pub struct EffectIndex {
    pub idx: usize,
    pub effect: Effect,
}

/// The raw index of a location within its block: statements keep their index,
/// the terminator maps to the block's statement count.
pub open spec fn spec_location_index(cfg: &ControlFlowGraph, loc: Location) -> nat {
    match loc.kind {
        LocationKind::Statement(i) => i as nat,
        LocationKind::Terminator => cfg.blocks@[loc.block as int].statements@.len(),
    }
}

impl Effect {
    /// Attaches this effect to a raw statement index.
    pub fn at_index(self, idx: usize) -> (r: EffectIndex)
        ensures
            r == (EffectIndex { idx, effect: self }),
    {
        EffectIndex { idx, effect: self }
    }

    /// Attaches this effect to a location; the terminator maps to the block's
    /// statement count.
    pub fn at_location(self, loc: Location, cfg: &ControlFlowGraph) -> (r: EffectIndex)
        requires
            loc.block < cfg.blocks@.len(),
        ensures
            r.idx == spec_location_index(cfg, loc),
            r.effect == self,
    {
        let idx = match loc.kind {
            LocationKind::Statement(i) => i,
            LocationKind::Terminator => cfg.blocks[loc.block].statements.len(),
        };
        EffectIndex { idx, effect: self }
    }
}

/// The number of transfer applications in one block: one per statement plus
/// one for the terminator.
pub open spec fn n_effects(cfg: &ControlFlowGraph, block: int) -> nat {
    cfg.blocks@[block].statements@.len() + 1
}

/// How many transfers have been applied once the cursor sits at `target`:
/// the number of locations that precede it in analysis order, plus one if the
/// target's own transfer has been applied.
pub open spec fn transfer_count(n_stmts: nat, forward: bool, target: EffectIndex) -> nat {
    let ord: nat = if forward {
        target.idx as nat
    } else {
        (n_stmts - target.idx) as nat
    };
    ord + if target.effect is After {
        1nat
    } else {
        0nat
    }
}

/// The contract between the engine, the cursor, and a concrete analysis.
///
/// The `Domain` is the lattice element the analysis works on. Every
/// executable operation is pinned to a specification-level model, and the
/// proof obligations state the lattice laws the fixed-point argument needs:
/// the join is commutative, associative and idempotent, and a `level`
/// function bounded by `max_level` grows strictly whenever a join changes its
/// first argument (the domain has finite height).
pub trait Analysis: Sized {
    type Domain: View;

    /// Whether this is a forward analysis; a backward one walks statements in
    /// reverse and propagates along predecessor edges.
    spec fn forward(&self) -> bool;

    /// Well-formedness of a domain value for this graph (for instance: drawn
    /// from the right universe).
    spec fn wf_dom(&self, cfg: &ControlFlowGraph, v: <Self::Domain as View>::V) -> bool;

    /// Model of the bottom (initial) value.
    spec fn bottom_model(&self, cfg: &ControlFlowGraph) -> <Self::Domain as View>::V;

    /// Model of the entry initialization applied when a block is entered.
    spec fn init_model(&self, cfg: &ControlFlowGraph, v: <Self::Domain as View>::V) -> <Self::Domain as View>::V;

    /// Model of the transfer function of statement `idx` of `block`.
    spec fn stmt_model(&self, cfg: &ControlFlowGraph, block: int, idx: int, v: <Self::Domain as View>::V) -> <Self::Domain as View>::V;

    /// Model of the transfer function of the terminator of `block`.
    spec fn term_model(&self, cfg: &ControlFlowGraph, block: int, v: <Self::Domain as View>::V) -> <Self::Domain as View>::V;

    /// Model of the join operation.
    spec fn join_model(&self, a: <Self::Domain as View>::V, b: <Self::Domain as View>::V) -> <Self::Domain as View>::V;

    /// Height of a value in the lattice.
    spec fn level(&self, cfg: &ControlFlowGraph, v: <Self::Domain as View>::V) -> nat;

    /// The lattice's finite height.
    spec fn max_level(&self, cfg: &ControlFlowGraph) -> nat;

    proof fn lemma_bottom_wf(&self, cfg: &ControlFlowGraph)
        ensures
            self.wf_dom(cfg, self.bottom_model(cfg)),
    ;

    proof fn lemma_init_wf(&self, cfg: &ControlFlowGraph, v: <Self::Domain as View>::V)
        requires
            self.wf_dom(cfg, v),
        ensures
            self.wf_dom(cfg, self.init_model(cfg, v)),
    ;

    proof fn lemma_transfer_wf(&self, cfg: &ControlFlowGraph, block: int, idx: int, v: <Self::Domain as View>::V)
        requires
            self.wf_dom(cfg, v),
            0 <= block < cfg.blocks@.len(),
        ensures
            self.wf_dom(cfg, self.stmt_model(cfg, block, idx, v)),
            self.wf_dom(cfg, self.term_model(cfg, block, v)),
    ;

    proof fn lemma_join_wf(&self, cfg: &ControlFlowGraph, a: <Self::Domain as View>::V, b: <Self::Domain as View>::V)
        requires
            self.wf_dom(cfg, a),
            self.wf_dom(cfg, b),
        ensures
            self.wf_dom(cfg, self.join_model(a, b)),
    ;

    proof fn lemma_join_comm(&self, cfg: &ControlFlowGraph, a: <Self::Domain as View>::V, b: <Self::Domain as View>::V)
        requires
            self.wf_dom(cfg, a),
            self.wf_dom(cfg, b),
        ensures
            self.join_model(a, b) == self.join_model(b, a),
    ;

    proof fn lemma_join_assoc(&self, cfg: &ControlFlowGraph, a: <Self::Domain as View>::V, b: <Self::Domain as View>::V, c: <Self::Domain as View>::V)
        requires
            self.wf_dom(cfg, a),
            self.wf_dom(cfg, b),
            self.wf_dom(cfg, c),
        ensures
            self.join_model(self.join_model(a, b), c) == self.join_model(a, self.join_model(b, c)),
    ;

    proof fn lemma_join_idem(&self, cfg: &ControlFlowGraph, a: <Self::Domain as View>::V)
        requires
            self.wf_dom(cfg, a),
        ensures
            self.join_model(a, a) == a,
    ;

    proof fn lemma_join_level(&self, cfg: &ControlFlowGraph, a: <Self::Domain as View>::V, b: <Self::Domain as View>::V)
        requires
            self.wf_dom(cfg, a),
            self.wf_dom(cfg, b),
        ensures
            self.level(cfg, a) <= self.max_level(cfg),
            self.level(cfg, self.join_model(a, b)) >= self.level(cfg, a),
            self.join_model(a, b) != a ==> self.level(cfg, self.join_model(a, b)) > self.level(cfg, a),
    ;

    fn is_forward(&self) -> (r: bool)
        ensures
            r == self.forward(),
    ;

    fn bottom_value(&self, cfg: &ControlFlowGraph) -> (d: Self::Domain)
        ensures
            d@ == self.bottom_model(cfg),
    ;

    fn clone_value(&self, d: &Self::Domain) -> (r: Self::Domain)
        ensures
            r@ == d@,
    ;

    fn copy_value(&self, cfg: &ControlFlowGraph, dst: &mut Self::Domain, src: &Self::Domain)
        requires
            self.wf_dom(cfg, old(dst)@),
            self.wf_dom(cfg, src@),
        ensures
            final(dst)@ == src@,
    ;

    fn init_block(&self, cfg: &ControlFlowGraph, state: &mut Self::Domain)
        requires
            self.wf_dom(cfg, old(state)@),
        ensures
            final(state)@ == self.init_model(cfg, old(state)@),
    ;

    fn apply_statement_effect(&self, cfg: &ControlFlowGraph, state: &mut Self::Domain, block: usize, idx: usize)
        requires
            block < cfg.blocks@.len(),
            idx < cfg.blocks@[block as int].statements@.len(),
            self.wf_dom(cfg, old(state)@),
        ensures
            final(state)@ == self.stmt_model(cfg, block as int, idx as int, old(state)@),
    ;

    fn apply_terminator_effect(&self, cfg: &ControlFlowGraph, state: &mut Self::Domain, block: usize)
        requires
            block < cfg.blocks@.len(),
            self.wf_dom(cfg, old(state)@),
        ensures
            final(state)@ == self.term_model(cfg, block as int, old(state)@),
    ;

    fn join_into(&self, cfg: &ControlFlowGraph, dst: &mut Self::Domain, src: &Self::Domain) -> (changed: bool)
        requires
            self.wf_dom(cfg, old(dst)@),
            self.wf_dom(cfg, src@),
        ensures
            final(dst)@ == self.join_model(old(dst)@, src@),
            changed == (final(dst)@ != old(dst)@),
    ;
}

/// The transfer applied at position `k` of `block`'s analysis order: for a
/// forward analysis the statements in program order then the terminator, for
/// a backward one the terminator then the statements in reverse.
pub open spec fn transfer_model<A: Analysis>(
    a: &A,
    cfg: &ControlFlowGraph,
    block: int,
    k: int,
    v: <A::Domain as View>::V,
) -> <A::Domain as View>::V {
    let n = cfg.blocks@[block].statements@.len() as int;
    if a.forward() {
        if k < n {
            a.stmt_model(cfg, block, k, v)
        } else {
            a.term_model(cfg, block, v)
        }
    } else {
        if k == 0 {
            a.term_model(cfg, block, v)
        } else {
            a.stmt_model(cfg, block, n - k, v)
        }
    }
}

/// The canonical dataflow state inside `block` once `k` transfers have been
/// applied in analysis order, starting from the block's stored set `entry`
/// with the entry initialization applied.
pub open spec fn state_after<A: Analysis>(
    a: &A,
    cfg: &ControlFlowGraph,
    entry: <A::Domain as View>::V,
    block: int,
    k: nat,
) -> <A::Domain as View>::V
    decreases k,
{
    if k == 0 {
        a.init_model(cfg, entry)
    } else {
        transfer_model(a, cfg, block, k - 1, state_after(a, cfg, entry, block, (k - 1) as nat))
    }
}

/// Replayed states stay well formed.
pub proof fn lemma_state_after_wf<A: Analysis>(
    a: &A,
    cfg: &ControlFlowGraph,
    entry: <A::Domain as View>::V,
    block: int,
    k: nat,
)
    requires
        a.wf_dom(cfg, entry),
        0 <= block < cfg.blocks@.len(),
    ensures
        a.wf_dom(cfg, state_after(a, cfg, entry, block, k)),
    decreases k,
{
    if k == 0 {
        a.lemma_init_wf(cfg, entry);
    } else {
        lemma_state_after_wf(a, cfg, entry, block, (k - 1) as nat);
        let prev = state_after(a, cfg, entry, block, (k - 1) as nat);
        let n = cfg.blocks@[block].statements@.len() as int;
        if a.forward() {
            if k - 1 < n {
                a.lemma_transfer_wf(cfg, block, k - 1, prev);
            } else {
                a.lemma_transfer_wf(cfg, block, 0, prev);
            }
        } else {
            if k - 1 == 0 {
                a.lemma_transfer_wf(cfg, block, 0, prev);
            } else {
                a.lemma_transfer_wf(cfg, block, n - (k - 1), prev);
            }
        }
    }
}

/// Applies the transfers at positions `from..to` of `block`'s analysis order
/// to `state`, which must hold the canonical state after `from` transfers;
/// it then holds the canonical state after `to` transfers.
pub fn apply_effects_in_range<A: Analysis>(
    analysis: &A,
    cfg: &ControlFlowGraph,
    state: &mut A::Domain,
    block: usize,
    from: usize,
    to: usize,
    Ghost(entry): Ghost<<A::Domain as View>::V>,
) -> (applied: usize)
    requires
        block < cfg.blocks@.len(),
        from <= to,
        to <= n_effects(cfg, block as int),
        analysis.wf_dom(cfg, entry),
        old(state)@ == state_after(analysis, cfg, entry, block as int, from as nat),
    ensures
        final(state)@ == state_after(analysis, cfg, entry, block as int, to as nat),
        analysis.wf_dom(cfg, final(state)@),
        applied == to - from,
{
    proof {
        lemma_state_after_wf(analysis, cfg, entry, block as int, from as nat);
    }
    let n_stmts = cfg.blocks[block].statements.len();
    let forward = analysis.is_forward();
    let mut k = from;
    while k < to
        invariant
            from <= k <= to,
            to <= n_effects(cfg, block as int),
            block < cfg.blocks@.len(),
            n_stmts == cfg.blocks@[block as int].statements@.len(),
            forward == analysis.forward(),
            analysis.wf_dom(cfg, entry),
            state@ == state_after(analysis, cfg, entry, block as int, k as nat),
            analysis.wf_dom(cfg, state@),
        decreases to - k,
    {
        if forward {
            if k < n_stmts {
                analysis.apply_statement_effect(cfg, state, block, k);
            } else {
                analysis.apply_terminator_effect(cfg, state, block);
            }
        } else {
            if k == 0 {
                analysis.apply_terminator_effect(cfg, state, block);
            } else {
                analysis.apply_statement_effect(cfg, state, block, n_stmts - k);
            }
        }
        k = k + 1;
        proof {
            lemma_state_after_wf(analysis, cfg, entry, block as int, k as nat);
        }
    }
    to - from
}

} // verus!
