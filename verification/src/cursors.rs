//! Random access inspection of the results of a dataflow analysis.
//!
//! A cursor holds a snapshot of the dataflow state and replays effects to
//! answer point queries. Every seek leaves the snapshot equal to the state
//! obtained by resetting to the target block's stored set and replaying every
//! effect up to the target from scratch; the ghost `applied` counter pins the
//! cost down: queries issued in analysis order replay only the effects
//! between the old and the new position.

use vstd::prelude::*;
use crate::analysis::{Analysis, Effect, EffectIndex, apply_effects_in_range, state_after,
    transfer_count};
use crate::cfg::{ControlFlowGraph, Location};
use crate::engine::{Results, blocks_sized};

verus! {

/// The entry block of a graph.
pub const START_BLOCK: usize = 0;

/// Where a cursor currently sits: a block, and the last effect applied within
/// it (`None` right after a reset to block entry).
#[derive(Clone, Copy, PartialEq, Eq, Structural)]
pub struct CursorPosition {
    pub block: usize,
    pub curr_effect_index: Option<EffectIndex>,
}

impl CursorPosition {
    /// The position at the entry of `block`, before any effect.
    pub fn block_entry(block: usize) -> (r: CursorPosition)
        ensures
            r == (CursorPosition { block, curr_effect_index: None }),
    {
        CursorPosition { block, curr_effect_index: None }
    }
}

/// How many transfers the cursor at `pos` has replayed within its block.
pub open spec fn pos_count<A: Analysis>(
    a: &A,
    cfg: &ControlFlowGraph,
    pos: CursorPosition,
) -> nat {
    match pos.curr_effect_index {
        None => 0,
        Some(e) => transfer_count(
            cfg.blocks@[pos.block as int].statements@.len(),
            a.forward(),
            e,
        ),
    }
}

/// Allows random access inspection of the results of a dataflow analysis.
///
/// The cursor has linear cost within a basic block when its statements are
/// visited in the analysis's order, and quadratic cost at worst when they are
/// visited in reverse. The order in which blocks are visited has no cost
/// effect: each block starts from its precomputed stored set.
pub struct ResultsCursor<A: Analysis> {
    results: Results<A>,
    state: A::Domain,
    pos: CursorPosition,
    /// Set when `state` was modified with a custom effect; the next seek then
    /// resets to a block entry before replaying.
    state_needs_reset: bool,
    /// How many transfer applications the cursor has performed so far.
    applied: Ghost<nat>,
}

impl<A: Analysis> ResultsCursor<A> {
    /// The results this cursor reads.
    pub closed spec fn spec_results(&self) -> Results<A> {
        self.results
    }

    /// The model of the current snapshot.
    pub closed spec fn spec_state(&self) -> <A::Domain as View>::V {
        self.state@
    }

    /// The current snapshot, as a value.
    pub closed spec fn spec_state_value(&self) -> A::Domain {
        self.state
    }

    /// The cursor's position.
    pub closed spec fn spec_pos(&self) -> CursorPosition {
        self.pos
    }

    /// Whether the snapshot must be reset before the next seek.
    pub closed spec fn spec_needs_reset(&self) -> bool {
        self.state_needs_reset
    }

    /// Total transfer applications performed so far.
    pub closed spec fn spec_applied(&self) -> nat {
        self.applied@
    }

    /// The canonical state at position `pos`: the stored set of its block,
    /// initialized, with `pos_count` transfers replayed.
    pub open spec fn state_at(&self, cfg: &ControlFlowGraph, pos: CursorPosition) -> <A::Domain as View>::V {
        state_after(
            &self.spec_results().analysis,
            cfg,
            self.spec_results().entries()[pos.block as int],
            pos.block as int,
            pos_count(&self.spec_results().analysis, cfg, pos),
        )
    }

    /// The cursor is consistent with `cfg`: its results cover the graph, its
    /// position is in range, and, unless the dirty flag is set, its snapshot
    /// equals the canonical state at its position.
    pub closed spec fn wf(&self, cfg: &ControlFlowGraph) -> bool {
        &&& self.results.wf(cfg)
        &&& blocks_sized(cfg)
        &&& cfg.blocks@.len() > 0
        &&& (self.pos.block as int) < cfg.blocks@.len()
        &&& match self.pos.curr_effect_index {
            None => true,
            Some(e) => e.idx <= cfg.blocks@[self.pos.block as int].statements@.len(),
        }
        &&& self.results.analysis.wf_dom(cfg, self.state@)
        &&& !self.state_needs_reset ==> self.state@ == self.state_at(cfg, self.pos)
    }

    /// A clean cursor's snapshot is canonical: whenever the dirty flag is
    /// clear, the snapshot equals the state obtained by resetting to the
    /// block's stored set and replaying every effect up to the cursor's
    /// position from scratch. In particular a seek to the current position
    /// leaves the snapshot unchanged.
    pub proof fn lemma_clean_cursor_canonical(&self, cfg: &ControlFlowGraph)
        requires
            self.wf(cfg),
            !self.spec_needs_reset(),
        ensures
            self.spec_state() == self.state_at(cfg, self.spec_pos()),
    {
    }

    /// Returns a new cursor that can inspect `results`. It starts on the
    /// bottom value with the dirty flag set, so the first seek performs a
    /// full reset and no stale state is ever observable.
    pub fn new(cfg: &ControlFlowGraph, results: Results<A>) -> (r: ResultsCursor<A>)
        requires
            results.wf(cfg),
            blocks_sized(cfg),
            cfg.blocks@.len() > 0,
        ensures
            r.wf(cfg),
            r.spec_results() == results,
            r.spec_needs_reset(),
            r.spec_applied() == 0,
            r.spec_state() == results.analysis.bottom_model(cfg),
            r.spec_pos() == (CursorPosition { block: START_BLOCK, curr_effect_index: None }),
    {
        let bottom_value = results.analysis.bottom_value(cfg);
        proof {
            results.analysis.lemma_bottom_wf(cfg);
        }
        ResultsCursor {
            results,
            state_needs_reset: true,
            state: bottom_value,
            pos: CursorPosition::block_entry(START_BLOCK),
            applied: Ghost(0),
        }
    }

    /// Returns the underlying `Results`.
    pub fn results(&self) -> (r: &Results<A>)
        ensures
            *r == self.spec_results(),
    {
        &self.results
    }

    /// Returns the `Analysis` used to generate the underlying `Results`.
    pub fn analysis(&self) -> (r: &A)
        ensures
            *r == self.spec_results().analysis,
    {
        &self.results.analysis
    }

    /// Returns the dataflow state at the current location.
    pub fn get(&self) -> (r: &A::Domain)
        ensures
            r@ == self.spec_state(),
    {
        &self.state
    }

    /// Consumes the cursor, handing out its snapshot.
    pub fn finish(self) -> (r: A::Domain)
        ensures
            r@ == self.spec_state(),
    {
        self.state
    }

    /// Resets the cursor to hold the stored set of `block` (the state prior
    /// to the first statement for a forward analysis, the state after the
    /// terminator for a backward one), with the entry initialization applied.
    pub fn seek_to_block_entry(&mut self, block: usize, cfg: &ControlFlowGraph)
        requires
            old(self).wf(cfg),
            block < cfg.blocks@.len(),
        ensures
            final(self).wf(cfg),
            final(self).spec_results() == old(self).spec_results(),
            final(self).spec_pos() == (CursorPosition { block, curr_effect_index: None }),
            !final(self).spec_needs_reset(),
            final(self).spec_state() == final(self).state_at(
                cfg,
                (CursorPosition { block, curr_effect_index: None }),
            ),
            final(self).spec_applied() == old(self).spec_applied(),
    {
        let analysis = &self.results.analysis;
        let src = &self.results.entry_sets[block];
        proof {
            assert(src@ == self.results.entries()[block as int]);
        }
        analysis.copy_value(cfg, &mut self.state, src);
        analysis.init_block(cfg, &mut self.state);
        self.pos = CursorPosition::block_entry(block);
        self.state_needs_reset = false;
        proof {
            self.results.analysis.lemma_init_wf(
                cfg,
                self.results.entries()[block as int],
            );
        }
    }

    /// What a seek costs, in transfer applications: nothing if the cursor
    /// already sits on the target; only the distance if the target lies ahead
    /// in analysis order; a full replay from block entry if the snapshot is
    /// dirty, the cursor is in another block, or the target lies behind.
    pub open spec fn seek_cost(&self, cfg: &ControlFlowGraph, target: EffectIndex, block: usize) -> nat {
        let a = &self.spec_results().analysis;
        let n = cfg.blocks@[block as int].statements@.len();
        let tc = transfer_count(n, a.forward(), target);
        if self.spec_needs_reset() || self.spec_pos().block != block {
            tc
        } else {
            match self.spec_pos().curr_effect_index {
                None => tc,
                Some(cur) => {
                    if cur == target {
                        0
                    } else {
                        let cc = transfer_count(n, a.forward(), cur);
                        let later = if a.forward() {
                            cur.idx > target.idx
                        } else {
                            cur.idx < target.idx
                        };
                        if later || (cur.idx == target.idx && cur.effect is After) {
                            tc
                        } else {
                            (tc - cc) as nat
                        }
                    }
                },
            }
        }
    }

    /// In-order seeks cost exactly the distance: a clean cursor sitting in
    /// `block` whose position does not lie past `target` in analysis order
    /// pays `transfer_count(target) - transfer_count(position)` applications.
    /// Together with [`lemma_in_order_seek_cost_linear`], which sums such
    /// distances to at most one block's effect count, this pins the linear
    /// total cost of visiting a block's positions in analysis order.
    pub proof fn lemma_seek_cost_in_order(&self, cfg: &ControlFlowGraph, target: EffectIndex, block: usize)
        requires
            !self.spec_needs_reset(),
            self.spec_pos().block == block,
            block < cfg.blocks@.len(),
            self.spec_pos().curr_effect_index is Some,
            ({
                let cur = self.spec_pos().curr_effect_index->Some_0;
                let fwd = self.spec_results().analysis.forward();
                &&& if fwd {
                    cur.idx <= target.idx
                } else {
                    cur.idx >= target.idx
                }
                &&& cur.idx == target.idx ==> !(cur.effect is After && target.effect is Before)
            }),
            self.spec_pos().curr_effect_index->Some_0.idx
                <= cfg.blocks@[block as int].statements@.len(),
            target.idx <= cfg.blocks@[block as int].statements@.len(),
        ensures
            self.seek_cost(cfg, target, block) == transfer_count(
                cfg.blocks@[block as int].statements@.len(),
                self.spec_results().analysis.forward(),
                target,
            ) - transfer_count(
                cfg.blocks@[block as int].statements@.len(),
                self.spec_results().analysis.forward(),
                self.spec_pos().curr_effect_index->Some_0,
            ),
    {
    }

    /// Moves the cursor to `target` within `block`. Afterwards the snapshot
    /// equals the canonical state there: the block's stored set with every
    /// effect up to `target` replayed from scratch, whatever the prior
    /// position was.
    pub fn seek(&mut self, target: EffectIndex, block: usize, cfg: &ControlFlowGraph)
        requires
            old(self).wf(cfg),
            block < cfg.blocks@.len(),
            target.idx <= cfg.blocks@[block as int].statements@.len(),
        ensures
            final(self).wf(cfg),
            final(self).spec_results() == old(self).spec_results(),
            final(self).spec_pos() == (CursorPosition {
                block,
                curr_effect_index: Some(target),
            }),
            !final(self).spec_needs_reset(),
            final(self).spec_state() == final(self).state_at(
                cfg,
                (CursorPosition { block, curr_effect_index: Some(target) }),
            ),
            final(self).spec_applied() == old(self).spec_applied() + old(self).seek_cost(
                cfg,
                target,
                block,
            ),
    {
        let forward = self.results.analysis.is_forward();
        let n_stmts = cfg.blocks[block].statements.len();
        if self.state_needs_reset || self.pos.block != block {
            self.seek_to_block_entry(block, cfg);
        } else {
            match self.pos.curr_effect_index {
                None => {},
                Some(cur) => {
                    let same_idx = cur.idx == target.idx;
                    let eq = same_idx && (match (cur.effect, target.effect) {
                        (Effect::Before, Effect::Before) => true,
                        (Effect::After, Effect::After) => true,
                        _ => false,
                    });
                    if eq {
                        proof {
                            assert(cur == target);
                        }
                        return ;
                    }
                    let later = if forward {
                        cur.idx > target.idx
                    } else {
                        cur.idx < target.idx
                    };
                    let behind_in_idx = later || (same_idx && match cur.effect {
                        Effect::After => true,
                        Effect::Before => false,
                    });
                    if behind_in_idx {
                        self.seek_to_block_entry(block, cfg);
                    }
                },
            }
        }
        // the cursor now sits in `block`, at or before the target
        let cc = match self.pos.curr_effect_index {
            None => 0,
            Some(cur) => {
                let ord = if forward {
                    cur.idx
                } else {
                    n_stmts - cur.idx
                };
                match cur.effect {
                    Effect::After => ord + 1,
                    Effect::Before => ord,
                }
            },
        };
        let tc = {
            let ord = if forward {
                target.idx
            } else {
                n_stmts - target.idx
            };
            match target.effect {
                Effect::After => ord + 1,
                Effect::Before => ord,
            }
        };
        proof {
            assert(cc == pos_count(&self.results.analysis, cfg, self.pos));
            assert(tc == transfer_count(n_stmts as nat, forward, target));
            assert(cc <= tc);
            assert(self.state@ == state_after(
                &self.results.analysis,
                cfg,
                self.results.entries()[block as int],
                block as int,
                cc as nat,
            ));
        }
        apply_effects_in_range(
            &self.results.analysis,
            cfg,
            &mut self.state,
            block,
            cc,
            tc,
            Ghost(self.results.entries()[block as int]),
        );
        self.pos = CursorPosition { block, curr_effect_index: Some(target) };
        proof {
            self.applied@ = self.applied@ + (tc - cc) as nat;
        }
    }

    /// Advances the cursor to hold the dataflow state at `target` after its
    /// effect is applied. The result is the same as resetting to the block's
    /// entry and replaying every effect up to and including `target`.
    pub fn seek_after_effect(&mut self, target: Location, cfg: &ControlFlowGraph)
        requires
            old(self).wf(cfg),
            target.block < cfg.blocks@.len(),
            crate::analysis::spec_location_index(cfg, target)
                <= cfg.blocks@[target.block as int].statements@.len(),
        ensures
            final(self).wf(cfg),
            final(self).spec_results() == old(self).spec_results(),
            !final(self).spec_needs_reset(),
            final(self).spec_pos().block == target.block,
            final(self).spec_state() == final(self).state_at(cfg, final(self).spec_pos()),
            final(self).spec_pos().curr_effect_index == Some(
                EffectIndex {
                    idx: crate::analysis::spec_location_index(cfg, target) as usize,
                    effect: Effect::After,
                },
            ),
            final(self).spec_applied() == old(self).spec_applied() + old(self).seek_cost(
                cfg,
                (EffectIndex {
                    idx: crate::analysis::spec_location_index(cfg, target) as usize,
                    effect: Effect::After,
                }),
                target.block,
            ),
    {
        let e = Effect::After.at_location(target, cfg);
        self.seek(e, target.block, cfg)
    }

    /// Advances the cursor to hold the dataflow state at `target` just before
    /// its effect is applied.
    pub fn seek_before_effect(&mut self, target: Location, cfg: &ControlFlowGraph)
        requires
            old(self).wf(cfg),
            target.block < cfg.blocks@.len(),
            crate::analysis::spec_location_index(cfg, target)
                <= cfg.blocks@[target.block as int].statements@.len(),
        ensures
            final(self).wf(cfg),
            final(self).spec_results() == old(self).spec_results(),
            !final(self).spec_needs_reset(),
            final(self).spec_pos().block == target.block,
            final(self).spec_state() == final(self).state_at(cfg, final(self).spec_pos()),
            final(self).spec_pos().curr_effect_index == Some(
                EffectIndex {
                    idx: crate::analysis::spec_location_index(cfg, target) as usize,
                    effect: Effect::Before,
                },
            ),
            final(self).spec_applied() == old(self).spec_applied() + old(self).seek_cost(
                cfg,
                (EffectIndex {
                    idx: crate::analysis::spec_location_index(cfg, target) as usize,
                    effect: Effect::Before,
                }),
                target.block,
            ),
    {
        let e = Effect::Before.at_location(target, cfg);
        self.seek(e, target.block, cfg)
    }

    /// Resets the cursor to hold the state prior to the first statement of
    /// `block` in program order: the stored set for a forward analysis, the
    /// fully replayed state for a backward one.
    pub fn seek_to_block_start(&mut self, block: usize, cfg: &ControlFlowGraph)
        requires
            old(self).wf(cfg),
            block < cfg.blocks@.len(),
        ensures
            final(self).wf(cfg),
            final(self).spec_results() == old(self).spec_results(),
            !final(self).spec_needs_reset(),
            final(self).spec_pos().block == block,
            old(self).spec_results().analysis.forward() ==> final(self).spec_pos()
                == (CursorPosition { block, curr_effect_index: None }),
            !old(self).spec_results().analysis.forward() ==> final(self).spec_pos()
                == (CursorPosition {
                block,
                curr_effect_index: Some(EffectIndex { idx: 0, effect: Effect::After }),
            }),
            final(self).spec_state() == final(self).state_at(cfg, final(self).spec_pos()),
    {
        if self.results.analysis.is_forward() {
            self.seek_to_block_entry(block, cfg)
        } else {
            self.seek(Effect::After.at_index(0), block, cfg)
        }
    }

    /// Resets the cursor to hold the state after the terminator of `block` in
    /// program order: the fully replayed state for a forward analysis, the
    /// stored set for a backward one.
    pub fn seek_to_block_end(&mut self, block: usize, cfg: &ControlFlowGraph)
        requires
            old(self).wf(cfg),
            block < cfg.blocks@.len(),
        ensures
            final(self).wf(cfg),
            final(self).spec_results() == old(self).spec_results(),
            !final(self).spec_needs_reset(),
            final(self).spec_pos().block == block,
            old(self).spec_results().analysis.forward() ==> final(self).spec_pos()
                == (CursorPosition {
                block,
                curr_effect_index: Some(
                    EffectIndex {
                        idx: cfg.blocks@[block as int].statements@.len() as usize,
                        effect: Effect::After,
                    },
                ),
            }),
            !old(self).spec_results().analysis.forward() ==> final(self).spec_pos()
                == (CursorPosition { block, curr_effect_index: None }),
            final(self).spec_state() == final(self).state_at(cfg, final(self).spec_pos()),
    {
        if self.results.analysis.is_forward() {
            let idx = cfg.blocks[block].statements.len();
            self.seek(Effect::After.at_index(idx), block, cfg)
        } else {
            self.seek_to_block_entry(block, cfg)
        }
    }

    /// Resets the cursor to hold the state after the terminator of the exit
    /// block of the graph.
    pub fn seek_to_exit_block_end(&mut self, cfg: &ControlFlowGraph)
        requires
            old(self).wf(cfg),
        ensures
            final(self).wf(cfg),
            final(self).spec_results() == old(self).spec_results(),
            !final(self).spec_needs_reset(),
            final(self).spec_pos().block == cfg.blocks@.len() - 1,
            old(self).spec_results().analysis.forward() ==> final(self).spec_pos()
                == (CursorPosition {
                block: (cfg.blocks@.len() - 1) as usize,
                curr_effect_index: Some(
                    EffectIndex {
                        idx: cfg.blocks@[cfg.blocks@.len() - 1].statements@.len() as usize,
                        effect: Effect::After,
                    },
                ),
            }),
            !old(self).spec_results().analysis.forward() ==> final(self).spec_pos()
                == (CursorPosition {
                block: (cfg.blocks@.len() - 1) as usize,
                curr_effect_index: None,
            }),
            final(self).spec_state() == final(self).state_at(cfg, final(self).spec_pos()),
    {
        let end = cfg.blocks.len() - 1;
        self.seek_to_block_end(end, cfg)
    }

    /// Applies `f` to the cursor's snapshot -- for instance a call's
    /// return-value effect -- and sets the dirty flag: the snapshot no longer
    /// corresponds to any canonical position, so the next seek performs a
    /// full block-entry reset whatever its target is.
    pub fn apply_custom_effect<F: FnOnce(&A, &A::Domain) -> A::Domain>(
        &mut self,
        cfg: &ControlFlowGraph,
        f: F,
    )
        requires
            old(self).wf(cfg),
            f.requires((&old(self).spec_results().analysis, &old(self).spec_state_value())),
            forall|out: A::Domain|
                f.ensures(
                    (&old(self).spec_results().analysis, &old(self).spec_state_value()),
                    out,
                ) ==> old(self).spec_results().analysis.wf_dom(cfg, out@),
        ensures
            final(self).wf(cfg),
            final(self).spec_results() == old(self).spec_results(),
            final(self).spec_needs_reset(),
            final(self).spec_pos() == old(self).spec_pos(),
            final(self).spec_applied() == old(self).spec_applied(),
            f.ensures(
                (&old(self).spec_results().analysis, &old(self).spec_state_value()),
                final(self).spec_state_value(),
            ),
    {
        let out = f(&self.results.analysis, &self.state);
        self.state = out;
        self.state_needs_reset = true;
    }
}

/// The costs of a sequence of in-order seeks, taken from the positions'
/// transfer counts: each seek costs the distance from the previous position.
pub open spec fn in_order_seek_cost(counts: Seq<nat>) -> nat
    decreases counts.len(),
{
    if counts.len() <= 1 {
        0
    } else {
        in_order_seek_cost(counts.drop_last()) + (counts.last() - counts[counts.len() - 2]) as nat
    }
}

/// Visiting the positions of one block in non-decreasing analysis order costs
/// their total span, not a fresh replay per visit: the per-seek distances
/// telescope to `last - first`, at most the bound on a position's count.
pub proof fn lemma_in_order_seek_cost_linear(counts: Seq<nat>, bound: nat)
    requires
        counts.len() > 0,
        forall|i: int| 0 <= i < counts.len() - 1 ==> #[trigger] counts[i] <= counts[i + 1],
        forall|i: int| 0 <= i < counts.len() ==> #[trigger] counts[i] <= bound,
    ensures
        in_order_seek_cost(counts) == counts.last() - counts[0],
        in_order_seek_cost(counts) <= bound,
    decreases counts.len(),
{
    if counts.len() > 1 {
        let prefix = counts.drop_last();
        assert forall|i: int| 0 <= i < prefix.len() - 1 implies #[trigger] prefix[i]
            <= prefix[i + 1] by {
            assert(counts[i] <= counts[i + 1]);
        }
        assert forall|i: int| 0 <= i < prefix.len() implies #[trigger] prefix[i] <= bound by {
            assert(counts[i] <= bound);
        }
        lemma_in_order_seek_cost_linear(prefix, bound);
        assert(counts[counts.len() - 2] <= counts.last());
    }
}

} // verus!
