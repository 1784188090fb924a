//! The fixed-point engine: seeds every block's stored set with bottom and
//! iterates a worklist, replaying each popped block's effects and joining the
//! outcome into the stored sets of the blocks its facts flow to, until
//! nothing changes. The result is a fixed point of the transfer/join system;
//! termination rests on the lattice's finite height.

use vstd::prelude::*;
use crate::analysis::{Analysis, apply_effects_in_range, n_effects, state_after, lemma_state_after_wf};
use crate::bitset::BitSet;
use crate::cfg::ControlFlowGraph;
use std::collections::VecDeque;

verus! {

/// The computed dataflow facts: the analysis plus one stored domain value per
/// block (the entry set for a forward analysis, the exit set for a backward
/// one).
/// The models of a sequence of domain values.
pub open spec fn views_of<A: Analysis>(v: Seq<A::Domain>) -> Seq<<A::Domain as View>::V> {
    v.map_values(|d: A::Domain| d@)
}

pub struct Results<A: Analysis> {
    pub analysis: A,
    pub entry_sets: Vec<A::Domain>,
}

impl<A: Analysis> Results<A> {
    /// The stored sets, as their models.
    pub open spec fn entries(&self) -> Seq<<A::Domain as View>::V> {
        views_of::<A>(self.entry_sets@)
    }

    /// One stored set per block, all well formed.
    pub open spec fn wf(&self, cfg: &ControlFlowGraph) -> bool {
        &&& self.entry_sets@.len() == cfg.blocks@.len()
        &&& forall|i: int|
            0 <= i < self.entry_sets@.len() ==> self.analysis.wf_dom(
                cfg,
                #[trigger] self.entries()[i],
            )
    }

    /// The stored set of `block`.
    pub fn entry_set_for_block(&self, block: usize) -> (r: &A::Domain)
        requires
            block < self.entry_sets@.len(),
        ensures
            r@ == self.entries()[block as int],
    {
        &self.entry_sets[block]
    }
}

/// The blocks the facts of `b` flow to: its successors for a forward
/// analysis, its predecessors for a backward one.
pub open spec fn flow_targets<A: Analysis>(a: &A, cfg: &ControlFlowGraph, b: int) -> Seq<usize> {
    if a.forward() {
        cfg.blocks@[b].successors@
    } else {
        cfg.blocks@[b].predecessors@
    }
}

/// Every block's statement list leaves room for one terminator index.
pub open spec fn blocks_sized(cfg: &ControlFlowGraph) -> bool {
    forall|b: int|
        0 <= b < cfg.blocks@.len() ==> (#[trigger] cfg.blocks@[b].statements@.len())
            < usize::MAX
}

/// Every successor and predecessor named by an edge is a block of the graph.
pub open spec fn edges_well_formed(cfg: &ControlFlowGraph) -> bool {
    &&& forall|b: int, k: int|
        0 <= b < cfg.blocks@.len() && 0 <= k < cfg.blocks@[b].successors@.len() ==> (
        #[trigger] cfg.blocks@[b].successors@[k]) < cfg.blocks@.len()
    &&& forall|b: int, k: int|
        0 <= b < cfg.blocks@.len() && 0 <= k < cfg.blocks@[b].predecessors@.len() ==> (
        #[trigger] cfg.blocks@[b].predecessors@[k]) < cfg.blocks@.len()
}

/// The state a block hands on: its stored set with every effect of the block
/// replayed in analysis order.
pub open spec fn block_out<A: Analysis>(
    a: &A,
    cfg: &ControlFlowGraph,
    entries: Seq<<A::Domain as View>::V>,
    b: int,
) -> <A::Domain as View>::V {
    state_after(a, cfg, entries[b], b, n_effects(cfg, b))
}

/// The stored set of `t` already absorbs what `b` hands on: joining changes
/// nothing.
pub open spec fn edge_absorbed<A: Analysis>(
    a: &A,
    cfg: &ControlFlowGraph,
    entries: Seq<<A::Domain as View>::V>,
    b: int,
    t: int,
) -> bool {
    a.join_model(entries[t], block_out(a, cfg, entries, b)) == entries[t]
}

/// The stored sets are a fixed point: replaying any block and joining the
/// outcome into any of the blocks its facts flow to changes nothing.
pub open spec fn is_fixpoint<A: Analysis>(
    a: &A,
    cfg: &ControlFlowGraph,
    entries: Seq<<A::Domain as View>::V>,
) -> bool {
    forall|b: int, k: int|
        0 <= b < cfg.blocks@.len() && 0 <= k < flow_targets(a, cfg, b).len() ==> edge_absorbed(
            a,
            cfg,
            entries,
            b,
            #[trigger] flow_targets(a, cfg, b)[k] as int,
        )
}

/// Re-running one engine iteration on a converged result changes nothing:
/// every join of a replayed block into a stored set returns the stored set.
pub proof fn lemma_fixed_point_rerun<A: Analysis>(
    a: &A,
    cfg: &ControlFlowGraph,
    entries: Seq<<A::Domain as View>::V>,
    b: int,
)
    requires
        is_fixpoint(a, cfg, entries),
        0 <= b < cfg.blocks@.len(),
    ensures
        forall|k: int|
            0 <= k < flow_targets(a, cfg, b).len() ==> a.join_model(
                entries[#[trigger] flow_targets(a, cfg, b)[k] as int],
                block_out(a, cfg, entries, b),
            ) == entries[flow_targets(a, cfg, b)[k] as int],
{
}

/// How far the stored sets still are from the top of the lattice; the engine
/// only ever shrinks this, and shrinks it strictly whenever a join changes a
/// stored set.
pub open spec fn deficit_sum<A: Analysis>(
    a: &A,
    cfg: &ControlFlowGraph,
    entries: Seq<<A::Domain as View>::V>,
    j: int,
) -> nat
    decreases j,
{
    if j <= 0 {
        0
    } else {
        deficit_sum(a, cfg, entries, j - 1) + (a.max_level(cfg) - a.level(
            cfg,
            entries[j - 1],
        )) as nat
    }
}

/// Raising levels pointwise lowers the deficit, strictly so if one level
/// strictly rises.
pub proof fn lemma_deficit_sum_grow<A: Analysis>(
    a: &A,
    cfg: &ControlFlowGraph,
    e1: Seq<<A::Domain as View>::V>,
    e2: Seq<<A::Domain as View>::V>,
    j: int,
)
    requires
        forall|i: int| 0 <= i < j ==> a.level(cfg, #[trigger] e1[i]) <= a.level(cfg, e2[i]),
        forall|i: int| 0 <= i < j ==> a.level(cfg, #[trigger] e2[i]) <= a.max_level(cfg),
    ensures
        deficit_sum(a, cfg, e2, j) <= deficit_sum(a, cfg, e1, j),
        (exists|i: int| 0 <= i < j && a.level(cfg, #[trigger] e1[i]) < a.level(cfg, e2[i]))
            ==> deficit_sum(a, cfg, e2, j) < deficit_sum(a, cfg, e1, j),
    decreases j,
{
    if j > 0 {
        lemma_deficit_sum_grow(a, cfg, e1, e2, j - 1);
        if exists|i: int| 0 <= i < j && a.level(cfg, #[trigger] e1[i]) < a.level(cfg, e2[i]) {
            let i = choose|i: int|
                0 <= i < j && a.level(cfg, #[trigger] e1[i]) < a.level(cfg, e2[i]);
            if i < j - 1 {
                assert(deficit_sum(a, cfg, e2, j - 1) < deficit_sum(a, cfg, e1, j - 1));
            }
        }
    }
}

/// The engine's worklist: a queue of pending blocks with duplicate
/// suppression; a popped block may be inserted again.
struct BlockQueue {
    deque: VecDeque<usize>,
    in_q: BitSet,
}

impl BlockQueue {
    /// Whether block `b` is pending.
    pub closed spec fn pending(&self, b: int) -> bool {
        0 <= b < self.in_q@.len() && self.in_q@[b]
    }

    pub closed spec fn universe(&self) -> nat {
        self.in_q@.len()
    }

    pub closed spec fn qlen(&self) -> nat {
        self.deque@.len()
    }

    pub closed spec fn wf(&self) -> bool {
        &&& self.in_q@.len() <= usize::MAX
        &&& forall|j: int|
            0 <= j < self.deque@.len() ==> (#[trigger] self.deque@[j]) < self.in_q@.len()
                && self.in_q@[self.deque@[j] as int]
        &&& forall|j1: int, j2: int|
            0 <= j1 < self.deque@.len() && 0 <= j2 < self.deque@.len() && j1 != j2 ==> (
            #[trigger] self.deque@[j1]) != (#[trigger] self.deque@[j2])
        &&& forall|b: int|
            0 <= b < self.in_q@.len() && self.in_q@[b] ==> self.deque@.contains(b as usize)
    }

    fn new(universe: usize) -> (r: BlockQueue)
        ensures
            r.wf(),
            r.universe() == universe,
            r.qlen() == 0,
            forall|b: int| !r.pending(b),
    {
        let r = BlockQueue { deque: VecDeque::new(), in_q: BitSet::new_empty(universe) };
        r
    }

    fn is_empty(&self) -> (r: bool)
        requires
            self.wf(),
        ensures
            r == (self.qlen() == 0),
            r ==> forall|b: int| !self.pending(b),
    {
        let r = self.deque.len() == 0;
        proof {
            if r {
                assert forall|b: int| !self.pending(b) by {
                    if self.pending(b) {
                        assert(self.deque@.contains(b as usize));
                        let j = choose|j: int|
                            0 <= j < self.deque@.len() && self.deque@[j] == b as usize;
                    }
                }
            }
        }
        r
    }

    fn insert(&mut self, b: usize)
        requires
            old(self).wf(),
            b < old(self).universe(),
        ensures
            final(self).wf(),
            final(self).universe() == old(self).universe(),
            final(self).pending(b as int),
            forall|x: int| old(self).pending(x) ==> final(self).pending(x),
            forall|x: int| final(self).pending(x) ==> old(self).pending(x) || x == b as int,
            old(self).pending(b as int) ==> *final(self) == *old(self),
            final(self).qlen() <= old(self).qlen() + 1,
    {
        if !self.in_q.contains(b) {
            proof {
                if self.deque@.contains(b) {
                    let j = choose|j: int| 0 <= j < self.deque@.len() && self.deque@[j] == b;
                    assert(self.in_q@[b as int]);
                }
            }
            self.deque.push_back(b);
            self.in_q.insert(b);
            proof {
                assert forall|bb: int|
                    0 <= bb < self.in_q@.len() && self.in_q@[bb] implies self.deque@.contains(
                    bb as usize,
                ) by {
                    if bb == b as int {
                        assert(self.deque@[self.deque@.len() - 1] == b);
                    } else {
                        assert(old(self).in_q@[bb]);
                        assert(old(self).deque@.contains(bb as usize));
                        let j = choose|j: int|
                            0 <= j < old(self).deque@.len() && old(self).deque@[j] == bb as usize;
                        assert(self.deque@[j] == bb as usize);
                    }
                }
            }
        }
    }

    fn pop(&mut self) -> (r: usize)
        requires
            old(self).wf(),
            old(self).qlen() > 0,
        ensures
            final(self).wf(),
            final(self).universe() == old(self).universe(),
            final(self).qlen() == old(self).qlen() - 1,
            old(self).pending(r as int),
            r < old(self).universe(),
            !final(self).pending(r as int),
            forall|x: int| final(self).pending(x) ==> old(self).pending(x),
            forall|x: int| old(self).pending(x) && x != r as int ==> final(self).pending(x),
    {
        let r = match self.deque.pop_front() {
            Some(x) => x,
            None => 0,
        };
        proof {
            assert(old(self).deque@[0] == r);
        }
        self.in_q.remove(r);
        proof {
            assert forall|bb: int|
                0 <= bb < self.in_q@.len() && self.in_q@[bb] implies self.deque@.contains(
                bb as usize,
            ) by {
                assert(bb != r as int);
                assert(old(self).in_q@[bb]);
                assert(old(self).deque@.contains(bb as usize));
                let j = choose|j: int|
                    0 <= j < old(self).deque@.len() && old(self).deque@[j] == bb as usize;
                assert(old(self).deque@[j] == bb as usize);
                assert((bb as usize) as int == bb);
                assert(old(self).deque@[j] as int == bb);
                assert(old(self).deque@[0] == r);
                assert(r as int != bb);
                assert(j != 0);
                assert(self.deque@.contains(bb as usize)) by {
                    assert(self.deque@[j - 1] == bb as usize);
                }
            }
        }
        r
    }
}

/// Computes the fixed point of `analysis` over `cfg`: every block's stored
/// set absorbs what every block flowing into it hands on.
pub fn iterate_to_fixpoint<A: Analysis>(analysis: A, cfg: &ControlFlowGraph) -> (r: Results<A>)
    requires
        edges_well_formed(cfg),
        blocks_sized(cfg),
    ensures
        r.analysis == analysis,
        r.wf(cfg),
        is_fixpoint(&r.analysis, cfg, r.entries()),
{
    let n = cfg.blocks.len();
    let mut entry_sets: Vec<A::Domain> = Vec::new();
    let mut i: usize = 0;
    while i < n
        invariant
            i <= n,
            entry_sets@.len() == i,
            forall|j: int|
                0 <= j < i ==> #[trigger] entry_sets@[j]@ == analysis.bottom_model(cfg),
        decreases n - i,
    {
        entry_sets.push(analysis.bottom_value(cfg));
        i = i + 1;
    }
    proof {
        analysis.lemma_bottom_wf(cfg);
    }
    let mut queue = BlockQueue::new(n);
    let mut i: usize = 0;
    while i < n
        invariant
            i <= n,
            queue.wf(),
            queue.universe() == n,
            forall|b: int| 0 <= b < i ==> queue.pending(b),
        decreases n - i,
    {
        queue.insert(i);
        i = i + 1;
    }
    let ghost a = analysis;
    let forward = analysis.is_forward();
    while !queue.is_empty()
        invariant
            n == cfg.blocks@.len(),
            edges_well_formed(cfg),
            blocks_sized(cfg),
            forward == analysis.forward(),
            analysis == a,
            entry_sets@.len() == n,
            queue.wf(),
            queue.universe() == n,
            forall|j: int|
                0 <= j < n ==> analysis.wf_dom(
                    cfg,
                    #[trigger] views_of::<A>(entry_sets@)[j],
                ),
            forall|x: int, j: int|
                0 <= x < n && 0 <= j < flow_targets(&a, cfg, x).len() ==> queue.pending(x)
                    || edge_absorbed(
                    &a,
                    cfg,
                    views_of::<A>(entry_sets@),
                    x,
                    #[trigger] flow_targets(&a, cfg, x)[j] as int,
                ),
        decreases deficit_sum(&a, cfg, views_of::<A>(entry_sets@), n as int),
            queue.qlen(),
    {
        let ghost entries0 = views_of::<A>(entry_sets@);
        let ghost gas0 = deficit_sum(&a, cfg, entries0, n as int);
        let ghost qlen0 = queue.qlen();
        let b = queue.pop();
        let mut state = analysis.clone_value(&entry_sets[b]);
        proof {
            assert(state@ == views_of::<A>(entry_sets@)[b as int]);
        }
        analysis.init_block(cfg, &mut state);
        let n_stmts = cfg.blocks[b].statements.len();
        proof {
            assert(state@ == state_after(&a, cfg, entries0[b as int], b as int, 0nat));
        }
        apply_effects_in_range(
            &analysis,
            cfg,
            &mut state,
            b,
            0,
            n_stmts + 1,
            Ghost(entries0[b as int]),
        );
        let n_edges = if forward {
            cfg.blocks[b].successors.len()
        } else {
            cfg.blocks[b].predecessors.len()
        };
        let mut k: usize = 0;
        while k < n_edges
            invariant
                n == cfg.blocks@.len(),
                edges_well_formed(cfg),
                forward == analysis.forward(),
                analysis == a,
                entry_sets@.len() == n,
                queue.wf(),
                queue.universe() == n,
                b < n,
                k <= n_edges,
                n_edges == flow_targets(&a, cfg, b as int).len(),
                forall|j: int|
                    0 <= j < n ==> analysis.wf_dom(
                        cfg,
                        #[trigger] views_of::<A>(entry_sets@)[j],
                    ),
                analysis.wf_dom(cfg, state@),
                // every edge out of another block is pending or absorbed
                forall|x: int, j: int|
                    0 <= x < n && 0 <= j < flow_targets(&a, cfg, x).len() && x != b as int
                        ==> queue.pending(x) || edge_absorbed(
                        &a,
                        cfg,
                        views_of::<A>(entry_sets@),
                        x,
                        #[trigger] flow_targets(&a, cfg, x)[j] as int,
                    ),
                // the edges of `b` already handled are absorbed, unless `b`
                // was re-enqueued by a self-loop
                forall|j: int|
                    0 <= j < k ==> queue.pending(b as int) || edge_absorbed(
                        &a,
                        cfg,
                        views_of::<A>(entry_sets@),
                        b as int,
                        #[trigger] flow_targets(&a, cfg, b as int)[j] as int,
                    ),
                // the replayed state matches the current stored set of `b`
                queue.pending(b as int) || state@ == block_out(
                    &a,
                    cfg,
                    views_of::<A>(entry_sets@),
                    b as int,
                ),
                deficit_sum(&a, cfg, views_of::<A>(entry_sets@), n as int)
                    <= gas0,
                deficit_sum(&a, cfg, views_of::<A>(entry_sets@), n as int)
                    == gas0 ==> queue.qlen() == qlen0 - 1,
            decreases n_edges - k,
        {
            let t = if forward {
                cfg.blocks[b].successors[k]
            } else {
                cfg.blocks[b].predecessors[k]
            };
            let ghost entries_prev = views_of::<A>(entry_sets@);
            proof {
                assert(t == flow_targets(&a, cfg, b as int)[k as int]);
                assert(t < n);
            }
            let mut tmp = analysis.clone_value(&entry_sets[t]);
            proof {
                assert(tmp@ == views_of::<A>(entry_sets@)[t as int]);
            }
            let changed = analysis.join_into(cfg, &mut tmp, &state);
            proof {
                a.lemma_join_wf(cfg, entries_prev[t as int], state@);
            }
            entry_sets.set(t, tmp);
            let ghost entries_new = views_of::<A>(entry_sets@);
            proof {
                assert(entries_new =~= entries_prev.update(
                    t as int,
                    a.join_model(entries_prev[t as int], state@),
                ));
            }
            if changed {
                queue.insert(t);
            }
            proof {
                let s = state@;
                let jt = a.join_model(entries_prev[t as int], s);
                if !changed {
                    assert(entries_new =~= entries_prev);
                } else {
                    // levels rise pointwise, strictly at t
                    a.lemma_join_level(cfg, entries_prev[t as int], s);
                    assert forall|ii: int| 0 <= ii < n implies a.level(
                        cfg,
                        #[trigger] entries_prev[ii],
                    ) <= a.level(cfg, entries_new[ii]) by {}
                    assert forall|ii: int| 0 <= ii < n implies a.level(
                        cfg,
                        #[trigger] entries_new[ii],
                    ) <= a.max_level(cfg) by {
                        a.lemma_join_level(cfg, entries_new[ii], entries_new[ii]);
                    }
                    lemma_deficit_sum_grow(&a, cfg, entries_prev, entries_new, n as int);
                    assert(a.level(cfg, entries_prev[t as int]) < a.level(
                        cfg,
                        entries_new[t as int],
                    ));
                    assert(deficit_sum(&a, cfg, entries_new, n as int) < deficit_sum(
                        &a,
                        cfg,
                        entries_prev,
                        n as int,
                    ));
                }
                // absorption facts carry over to the grown stored set
                assert forall|x: int, j: int|
                    0 <= x < n && 0 <= j < flow_targets(&a, cfg, x).len() && x != b as int
                        implies queue.pending(x) || edge_absorbed(
                        &a,
                        cfg,
                        entries_new,
                        x,
                        #[trigger] flow_targets(&a, cfg, x)[j] as int,
                    ) by {
                    let y = flow_targets(&a, cfg, x)[j] as int;
                    if !queue.pending(x) {
                        if changed && x == t as int {
                            assert(queue.pending(x));
                        } else {
                            assert(entries_new[x] == entries_prev[x]);
                            let out_x = block_out(&a, cfg, entries_prev, x);
                            assert(block_out(&a, cfg, entries_new, x) == out_x);
                            assert(edge_absorbed(&a, cfg, entries_prev, x, y));
                            if changed && y == t as int {
                                lemma_state_after_wf(
                                    &a,
                                    cfg,
                                    entries_prev[x],
                                    x,
                                    n_effects(cfg, x),
                                );
                                a.lemma_join_comm(cfg, entries_prev[y], s);
                                a.lemma_join_assoc(cfg, s, entries_prev[y], out_x);
                                a.lemma_join_comm(cfg, s, a.join_model(entries_prev[y], out_x));
                                a.lemma_join_comm(cfg, entries_prev[y], out_x);
                                assert(a.join_model(entries_new[y], out_x) == entries_new[y]);
                            } else {
                                assert(entries_new[y] == entries_prev[y]);
                            }
                        }
                    }
                }
                // the edges of b handled so far stay absorbed
                assert forall|j: int|
                    0 <= j < k + 1 implies queue.pending(b as int) || edge_absorbed(
                        &a,
                        cfg,
                        entries_new,
                        b as int,
                        #[trigger] flow_targets(&a, cfg, b as int)[j] as int,
                    ) by {
                    if !queue.pending(b as int) {
                        let y = flow_targets(&a, cfg, b as int)[j] as int;
                        assert(!(changed && t as int == b as int));
                        assert(entries_new[b as int] == entries_prev[b as int]);
                        let out_b = block_out(&a, cfg, entries_prev, b as int);
                        assert(block_out(&a, cfg, entries_new, b as int) == out_b);
                        assert(s == out_b);
                        lemma_state_after_wf(
                            &a,
                            cfg,
                            entries_prev[b as int],
                            b as int,
                            n_effects(cfg, b as int),
                        );
                        if j == k as int {
                            // the edge joined this iteration
                            assert(y == t as int);
                            assert(entries_new[y] == jt);
                            a.lemma_join_assoc(cfg, entries_prev[y], s, s);
                            a.lemma_join_idem(cfg, s);
                            assert(a.join_model(entries_new[y], out_b) == entries_new[y]);
                        } else {
                            assert(edge_absorbed(&a, cfg, entries_prev, b as int, y));
                            if changed && y == t as int {
                                a.lemma_join_comm(cfg, entries_prev[y], s);
                                a.lemma_join_assoc(cfg, s, entries_prev[y], out_b);
                                a.lemma_join_comm(cfg, s, a.join_model(entries_prev[y], out_b));
                                a.lemma_join_comm(cfg, entries_prev[y], out_b);
                                assert(a.join_model(entries_new[y], out_b) == entries_new[y]);
                            } else {
                                assert(entries_new[y] == entries_prev[y]);
                            }
                        }
                    }
                }
            }
            k = k + 1;
        }
    }
    proof {
        assert forall|x: int, j: int|
            0 <= x < n && 0 <= j < flow_targets(&a, cfg, x).len() implies edge_absorbed(
            &a,
            cfg,
            views_of::<A>(entry_sets@),
            x,
            #[trigger] flow_targets(&a, cfg, x)[j] as int,
        ) by {}
    }
    Results { analysis, entry_sets }
}

} // verus!
