//! The gen-kill fast path: analyses whose transfer function is "add one set
//! of bits, then remove another" have those two sets precomputed once per
//! location, so applying a transfer is two bitset operations instead of a
//! general call.

use vstd::prelude::*;
use crate::analysis::Analysis;
use crate::bitset::{BitSet, count_trues, lemma_count_trues_le_len, lemma_count_trues_pointwise};
use crate::cfg::ControlFlowGraph;

verus! {

/// The transfer of one location, as the bits it adds and the bits it removes.
pub struct GenKillSet {
    gen_bits: BitSet,
    kill_bits: BitSet,
}

impl GenKillSet {
    /// The bits this transfer adds.
    pub closed spec fn gens(&self) -> Seq<bool> {
        self.gen_bits@
    }

    /// The bits this transfer removes.
    pub closed spec fn kills(&self) -> Seq<bool> {
        self.kill_bits@
    }

    /// An empty transfer over `universe` bits.
    pub fn new(universe: usize) -> (r: GenKillSet)
        ensures
            r.gens().len() == universe,
            r.kills().len() == universe,
            forall|i: int| 0 <= i < universe ==> !r.gens()[i] && !r.kills()[i],
    {
        GenKillSet { gen_bits: BitSet::new_empty(universe), kill_bits: BitSet::new_empty(universe) }
    }

    /// The number of bits the transfer ranges over.
    pub fn universe(&self) -> (r: usize)
        ensures
            r == self.gens().len(),
    {
        self.gen_bits.universe()
    }

    /// Marks bit `x` as added by this transfer.
    pub fn gen(&mut self, x: usize)
        requires
            x < old(self).gens().len(),
            old(self).kills().len() == old(self).gens().len(),
        ensures
            final(self).gens() == old(self).gens().update(x as int, true),
            final(self).kills() == old(self).kills().update(x as int, false),
    {
        self.gen_bits.insert(x);
        self.kill_bits.remove(x);
    }

    /// Marks bit `x` as removed by this transfer.
    pub fn kill(&mut self, x: usize)
        requires
            x < old(self).gens().len(),
            old(self).kills().len() == old(self).gens().len(),
        ensures
            final(self).gens() == old(self).gens().update(x as int, false),
            final(self).kills() == old(self).kills().update(x as int, true),
    {
        self.gen_bits.remove(x);
        self.kill_bits.insert(x);
    }
}

/// An analysis whose transfers are gen-kill pairs. Implementations provide a
/// specification-level gen and kill set per location and fill the executable
/// pair to match; everything else (domain, join, replay) is provided by
/// [`GenKillAnalysisImpl`].
pub trait GenKillAnalysis: Sized {
    /// How many bits the domain has.
    spec fn size_model(&self, cfg: &ControlFlowGraph) -> nat;

    /// Whether the analysis runs forward.
    spec fn direction_forward(&self) -> bool;

    /// The bits the transfer of statement `idx` of `block` adds.
    spec fn stmt_gens(&self, cfg: &ControlFlowGraph, block: int, idx: int) -> Seq<bool>;

    /// The bits the transfer of statement `idx` of `block` removes.
    spec fn stmt_kills(&self, cfg: &ControlFlowGraph, block: int, idx: int) -> Seq<bool>;

    /// The bits the transfer of the terminator of `block` adds.
    spec fn term_gens(&self, cfg: &ControlFlowGraph, block: int) -> Seq<bool>;

    /// The bits the transfer of the terminator of `block` removes.
    spec fn term_kills(&self, cfg: &ControlFlowGraph, block: int) -> Seq<bool>;

    /// How many bits the domain has.
    fn domain_size(&self, cfg: &ControlFlowGraph) -> (r: usize)
        ensures
            r == self.size_model(cfg),
    ;

    /// Whether the analysis runs forward.
    fn is_forward(&self) -> (r: bool)
        ensures
            r == self.direction_forward(),
    ;

    /// Fills the empty `trans` with the transfer of statement `idx` of
    /// `block`, matching the analysis's stated gen and kill sets.
    fn statement_effect(&self, cfg: &ControlFlowGraph, trans: &mut GenKillSet, block: usize, idx: usize)
        requires
            old(trans).kills().len() == old(trans).gens().len(),
        ensures
            final(trans).gens().len() == old(trans).gens().len(),
            final(trans).kills().len() == old(trans).kills().len(),
            (old(trans).gens() == empty_bits(self.size_model(cfg)) && old(trans).kills()
                == empty_bits(self.size_model(cfg))) ==> final(trans).gens() == self.stmt_gens(
                cfg,
                block as int,
                idx as int,
            ) && final(trans).kills() == self.stmt_kills(cfg, block as int, idx as int),
    ;

    /// Fills the empty `trans` with the transfer of the terminator of
    /// `block`, matching the analysis's stated gen and kill sets.
    fn terminator_effect(&self, cfg: &ControlFlowGraph, trans: &mut GenKillSet, block: usize)
        requires
            old(trans).kills().len() == old(trans).gens().len(),
        ensures
            final(trans).gens().len() == old(trans).gens().len(),
            final(trans).kills().len() == old(trans).kills().len(),
            (old(trans).gens() == empty_bits(self.size_model(cfg)) && old(trans).kills()
                == empty_bits(self.size_model(cfg))) ==> final(trans).gens() == self.term_gens(
                cfg,
                block as int,
            ) && final(trans).kills() == self.term_kills(cfg, block as int),
    ;
}

/// All-clear bits over a universe of size `n`.
pub open spec fn empty_bits(n: nat) -> Seq<bool> {
    Seq::new(n, |i: int| false)
}

/// Whether `i` occurs in a list of indices.
pub open spec fn in_index_list(l: Seq<usize>, i: int) -> bool {
    exists|j: int| 0 <= j < l.len() && l[j] as int == i
}

/// The result of one gen-kill transfer: add `g`, then remove `k`.
pub open spec fn apply_gen_kill(v: Seq<bool>, g: Seq<bool>, k: Seq<bool>) -> Seq<bool> {
    Seq::new(v.len(), |i: int| (v[i] || (0 <= i < g.len() && g[i])) && !(0 <= i < k.len() && k[i]))
}

/// A gen-kill analysis packaged as a full [`Analysis`]: the gen and kill sets
/// of every location are computed once, up front, and each transfer is then
/// two bitset operations.
pub struct GenKillAnalysisImpl<G: GenKillAnalysis> {
    analysis: G,
    size: usize,
    forward_flag: bool,
    stmt_trans: Vec<Vec<GenKillSet>>,
    term_trans: Vec<GenKillSet>,
}

impl<G: GenKillAnalysis> GenKillAnalysisImpl<G> {
    /// The precomputed tables cover every block and statement of `cfg`, with
    /// every set drawn from the domain's universe.
    pub closed spec fn tables_consistent(&self, cfg: &ControlFlowGraph) -> bool {
        &&& self.stmt_trans@.len() == cfg.blocks@.len()
        &&& self.term_trans@.len() == cfg.blocks@.len()
        &&& forall|b: int|
            0 <= b < cfg.blocks@.len() ==> (#[trigger] self.stmt_trans@[b])@.len()
                == cfg.blocks@[b].statements@.len()
        &&& forall|b: int, j: int|
            0 <= b < cfg.blocks@.len() && 0 <= j < self.stmt_trans@[b]@.len() ==> (
            #[trigger] self.stmt_trans@[b]@[j]).gens().len() == self.size
                && self.stmt_trans@[b]@[j].kills().len() == self.size
        &&& forall|b: int|
            0 <= b < cfg.blocks@.len() ==> (#[trigger] self.term_trans@[b]).gens().len()
                == self.size && self.term_trans@[b].kills().len() == self.size
    }

    /// The underlying gen-kill analysis.
    pub closed spec fn spec_analysis(&self) -> G {
        self.analysis
    }

    /// The underlying gen-kill analysis.
    pub fn analysis(&self) -> (r: &G)
        ensures
            *r == self.spec_analysis(),
    {
        &self.analysis
    }

    /// Precomputes the transfer of every location of `cfg`. The packaged
    /// analysis's transfer models are exactly the gen-kill application of the
    /// underlying analysis's stated gen and kill sets.
    pub fn new(analysis: G, cfg: &ControlFlowGraph) -> (r: GenKillAnalysisImpl<G>)
        ensures
            r.tables_consistent(cfg),
            r.spec_analysis() == analysis,
            r.forward() == analysis.direction_forward(),
            r.bottom_model(cfg) == empty_bits(analysis.size_model(cfg)),
            forall|v: Seq<bool>|
                #[trigger] r.wf_dom(cfg, v) <==> v.len() == analysis.size_model(cfg),
            forall|b: int, j: int, v: Seq<bool>|
                0 <= b < cfg.blocks@.len() && 0 <= j < cfg.blocks@[b].statements@.len()
                    && v.len() == analysis.size_model(cfg) ==> #[trigger] r.stmt_model(
                    cfg,
                    b,
                    j,
                    v,
                ) == apply_gen_kill(
                    v,
                    analysis.stmt_gens(cfg, b, j),
                    analysis.stmt_kills(cfg, b, j),
                ),
            forall|b: int, v: Seq<bool>|
                0 <= b < cfg.blocks@.len() && v.len() == analysis.size_model(cfg)
                    ==> #[trigger] r.term_model(cfg, b, v) == apply_gen_kill(
                    v,
                    analysis.term_gens(cfg, b),
                    analysis.term_kills(cfg, b),
                ),
    {
        let size = analysis.domain_size(cfg);
        let forward_flag = analysis.is_forward();
        let mut stmt_trans: Vec<Vec<GenKillSet>> = Vec::new();
        let mut term_trans: Vec<GenKillSet> = Vec::new();
        let mut b: usize = 0;
        while b < cfg.blocks.len()
            invariant
                b <= cfg.blocks@.len(),
                size == analysis.size_model(cfg),
                stmt_trans@.len() == b,
                term_trans@.len() == b,
                forall|bb: int|
                    0 <= bb < b ==> (#[trigger] stmt_trans@[bb])@.len()
                        == cfg.blocks@[bb].statements@.len(),
                forall|bb: int, j: int|
                    0 <= bb < b && 0 <= j < stmt_trans@[bb]@.len() ==> (
                    #[trigger] stmt_trans@[bb]@[j]).gens().len() == size
                        && stmt_trans@[bb]@[j].kills().len() == size,
                forall|bb: int, j: int|
                    0 <= bb < b && 0 <= j < stmt_trans@[bb]@.len() ==> (
                    #[trigger] stmt_trans@[bb]@[j]).gens() == analysis.stmt_gens(cfg, bb, j)
                        && stmt_trans@[bb]@[j].kills() == analysis.stmt_kills(cfg, bb, j),
                forall|bb: int|
                    0 <= bb < b ==> (#[trigger] term_trans@[bb]).gens().len() == size
                        && term_trans@[bb].kills().len() == size,
                forall|bb: int|
                    0 <= bb < b ==> (#[trigger] term_trans@[bb]).gens() == analysis.term_gens(
                        cfg,
                        bb,
                    ) && term_trans@[bb].kills() == analysis.term_kills(cfg, bb),
            decreases cfg.blocks@.len() - b,
        {
            let n = cfg.blocks[b].statements.len();
            let mut row: Vec<GenKillSet> = Vec::new();
            let mut j: usize = 0;
            while j < n
                invariant
                    j <= n,
                    b < cfg.blocks@.len(),
                    size == analysis.size_model(cfg),
                    n == cfg.blocks@[b as int].statements@.len(),
                    row@.len() == j,
                    forall|jj: int|
                        0 <= jj < j ==> (#[trigger] row@[jj]).gens().len() == size
                            && row@[jj].kills().len() == size,
                    forall|jj: int|
                        0 <= jj < j ==> (#[trigger] row@[jj]).gens() == analysis.stmt_gens(
                            cfg,
                            b as int,
                            jj,
                        ) && row@[jj].kills() == analysis.stmt_kills(cfg, b as int, jj),
                decreases n - j,
            {
                let mut trans = GenKillSet::new(size);
                proof {
                    assert(trans.gens() =~= empty_bits(analysis.size_model(cfg)));
                    assert(trans.kills() =~= empty_bits(analysis.size_model(cfg)));
                }
                analysis.statement_effect(cfg, &mut trans, b, j);
                row.push(trans);
                j = j + 1;
            }
            stmt_trans.push(row);
            let mut term = GenKillSet::new(size);
            proof {
                assert(term.gens() =~= empty_bits(analysis.size_model(cfg)));
                assert(term.kills() =~= empty_bits(analysis.size_model(cfg)));
            }
            analysis.terminator_effect(cfg, &mut term, b);
            term_trans.push(term);
            b = b + 1;
        }
        let r = GenKillAnalysisImpl { analysis, size, forward_flag, stmt_trans, term_trans };
        proof {
            assert(r.bottom_model(cfg) =~= empty_bits(r.spec_analysis().size_model(cfg)));
            assert forall|b: int, j: int, v: Seq<bool>|
                0 <= b < cfg.blocks@.len() && 0 <= j < cfg.blocks@[b].statements@.len()
                    && v.len() == r.spec_analysis().size_model(cfg) implies #[trigger] r.stmt_model(
                cfg,
                b,
                j,
                v,
            ) == apply_gen_kill(
                v,
                r.spec_analysis().stmt_gens(cfg, b, j),
                r.spec_analysis().stmt_kills(cfg, b, j),
            ) by {
                assert(r.stmt_trans@[b]@[j].gens() == r.spec_analysis().stmt_gens(cfg, b, j));
                assert(r.stmt_trans@[b]@[j].gens().len() == v.len());
                assert(r.stmt_trans@[b]@[j].kills().len() == v.len());
            }
            assert forall|b: int, v: Seq<bool>|
                0 <= b < cfg.blocks@.len() && v.len() == r.spec_analysis().size_model(cfg)
                    implies #[trigger] r.term_model(cfg, b, v) == apply_gen_kill(
                v,
                r.spec_analysis().term_gens(cfg, b),
                r.spec_analysis().term_kills(cfg, b),
            ) by {
                assert(r.term_trans@[b].gens() == r.spec_analysis().term_gens(cfg, b));
                assert(r.term_trans@[b].gens().len() == v.len());
                assert(r.term_trans@[b].kills().len() == v.len());
            }
        }
        r
    }
}

impl<G: GenKillAnalysis> Analysis for GenKillAnalysisImpl<G> {
    type Domain = BitSet;

    closed spec fn forward(&self) -> bool {
        self.forward_flag
    }

    closed spec fn wf_dom(&self, cfg: &ControlFlowGraph, v: Seq<bool>) -> bool {
        v.len() == self.size
    }

    closed spec fn bottom_model(&self, cfg: &ControlFlowGraph) -> Seq<bool> {
        Seq::new(self.size as nat, |i: int| false)
    }

    closed spec fn init_model(&self, cfg: &ControlFlowGraph, v: Seq<bool>) -> Seq<bool> {
        v
    }

    closed spec fn stmt_model(&self, cfg: &ControlFlowGraph, block: int, idx: int, v: Seq<bool>) -> Seq<bool> {
        if 0 <= block < self.stmt_trans@.len() && 0 <= idx < self.stmt_trans@[block]@.len()
            && self.stmt_trans@[block]@[idx].gens().len() == v.len()
            && self.stmt_trans@[block]@[idx].kills().len() == v.len() {
            apply_gen_kill(
                v,
                self.stmt_trans@[block]@[idx].gens(),
                self.stmt_trans@[block]@[idx].kills(),
            )
        } else {
            v
        }
    }

    closed spec fn term_model(&self, cfg: &ControlFlowGraph, block: int, v: Seq<bool>) -> Seq<bool> {
        if 0 <= block < self.term_trans@.len() && self.term_trans@[block].gens().len() == v.len()
            && self.term_trans@[block].kills().len() == v.len() {
            apply_gen_kill(v, self.term_trans@[block].gens(), self.term_trans@[block].kills())
        } else {
            v
        }
    }

    closed spec fn join_model(&self, a: Seq<bool>, b: Seq<bool>) -> Seq<bool> {
        Seq::new(a.len(), |i: int| a[i] || (0 <= i < b.len() && b[i]))
    }

    closed spec fn level(&self, cfg: &ControlFlowGraph, v: Seq<bool>) -> nat {
        count_trues(v)
    }

    closed spec fn max_level(&self, cfg: &ControlFlowGraph) -> nat {
        self.size as nat
    }

    proof fn lemma_bottom_wf(&self, cfg: &ControlFlowGraph) {
    }

    proof fn lemma_init_wf(&self, cfg: &ControlFlowGraph, v: Seq<bool>) {
    }

    proof fn lemma_transfer_wf(&self, cfg: &ControlFlowGraph, block: int, idx: int, v: Seq<bool>) {
    }

    proof fn lemma_join_wf(&self, cfg: &ControlFlowGraph, a: Seq<bool>, b: Seq<bool>) {
    }

    proof fn lemma_join_comm(&self, cfg: &ControlFlowGraph, a: Seq<bool>, b: Seq<bool>) {
        assert(self.join_model(a, b) =~= self.join_model(b, a));
    }

    proof fn lemma_join_assoc(&self, cfg: &ControlFlowGraph, a: Seq<bool>, b: Seq<bool>, c: Seq<bool>) {
        assert(self.join_model(self.join_model(a, b), c) =~= self.join_model(
            a,
            self.join_model(b, c),
        ));
    }

    proof fn lemma_join_idem(&self, cfg: &ControlFlowGraph, a: Seq<bool>) {
        assert(self.join_model(a, a) =~= a);
    }

    proof fn lemma_join_level(&self, cfg: &ControlFlowGraph, a: Seq<bool>, b: Seq<bool>) {
        let j = self.join_model(a, b);
        lemma_count_trues_le_len(a);
        lemma_count_trues_pointwise(a, j);
        if j != a {
            assert(exists|i: int| 0 <= i < a.len() && !a[i] && j[i]) by {
                if forall|i: int| 0 <= i < a.len() ==> #[trigger] a[i] == j[i] {
                    assert(a =~= j);
                }
            }
        }
    }

    fn is_forward(&self) -> bool {
        self.forward_flag
    }

    fn bottom_value(&self, cfg: &ControlFlowGraph) -> (d: BitSet) {
        let d = BitSet::new_empty(self.size);
        proof {
            assert(d@ =~= self.bottom_model(cfg));
        }
        d
    }

    fn clone_value(&self, d: &BitSet) -> (r: BitSet) {
        d.clone_set()
    }

    fn copy_value(&self, cfg: &ControlFlowGraph, dst: &mut BitSet, src: &BitSet) {
        dst.copy_from(src);
    }

    fn init_block(&self, cfg: &ControlFlowGraph, state: &mut BitSet) {
    }

    fn apply_statement_effect(&self, cfg: &ControlFlowGraph, state: &mut BitSet, block: usize, idx: usize) {
        if block < self.stmt_trans.len() {
            let row = &self.stmt_trans[block];
            if idx < row.len() {
                let trans = &row[idx];
                let n = state.universe();
                if trans.gen_bits.universe() == n && trans.kill_bits.universe() == n {
                    let ghost v0 = state@;
                    state.union_with(&trans.gen_bits);
                    let ghost v1 = state@;
                    state.subtract(&trans.kill_bits);
                    proof {
                        assert forall|i: int| 0 <= i < state@.len() implies state@[i] == ((v0[i]
                            || trans.gens()[i]) && !trans.kills()[i]) by {
                            assert(v1[i] == (v0[i] || trans.gens()[i]));
                        }
                        assert(state@ =~= self.stmt_model(
                            cfg,
                            block as int,
                            idx as int,
                            old(state)@,
                        ));
                    }
                    return ;
                }
            }
        }
        proof {
            assert(state@ == self.stmt_model(cfg, block as int, idx as int, old(state)@));
        }
    }

    fn apply_terminator_effect(&self, cfg: &ControlFlowGraph, state: &mut BitSet, block: usize) {
        if block < self.term_trans.len() {
            let trans = &self.term_trans[block];
            let n = state.universe();
            if trans.gen_bits.universe() == n && trans.kill_bits.universe() == n {
                let ghost v0 = state@;
                state.union_with(&trans.gen_bits);
                let ghost v1 = state@;
                state.subtract(&trans.kill_bits);
                proof {
                    assert forall|i: int| 0 <= i < state@.len() implies state@[i] == ((v0[i]
                        || trans.gens()[i]) && !trans.kills()[i]) by {
                        assert(v1[i] == (v0[i] || trans.gens()[i]));
                    }
                    assert(state@ =~= self.term_model(cfg, block as int, old(state)@));
                }
                return ;
            }
        }
        proof {
            assert(state@ == self.term_model(cfg, block as int, old(state)@));
        }
    }

    fn join_into(&self, cfg: &ControlFlowGraph, dst: &mut BitSet, src: &BitSet) -> (changed: bool) {
        let changed = dst.union_with(src);
        proof {
            assert(dst@ =~= self.join_model(old(dst)@, src@));
        }
        changed
    }
}

/// A gen-kill analysis given by explicit per-location tables: statement
/// `idx` of block `b` adds the bits `stmt_rows[b][idx].gens` and removes the
/// bits `stmt_rows[b][idx].kills`; rows beyond the tables are empty.
pub struct GenKillRow {
    pub gens: Vec<usize>,
    pub kills: Vec<usize>,
}

/// The bits a tabulated row adds: listed among its gens and not later
/// removed by its kills (a kill of the same bit wins).
pub open spec fn row_gens(row: GenKillRow, n: nat) -> Seq<bool> {
    Seq::new(n, |i: int| in_index_list(row.gens@, i) && !in_index_list(row.kills@, i))
}

/// The bits a tabulated row removes.
pub open spec fn row_kills(row: GenKillRow, n: nat) -> Seq<bool> {
    Seq::new(n, |i: int| in_index_list(row.kills@, i))
}

/// Adding one entry to an index list extends its membership by that entry.
proof fn lemma_in_index_list_step(l: Seq<usize>, t: int)
    requires
        0 <= t < l.len(),
    ensures
        forall|i: int|
            #[trigger] in_index_list(l.take(t + 1), i) <==> (in_index_list(l.take(t), i) || l[t]
                as int == i),
{
    assert forall|i: int|
        #[trigger] in_index_list(l.take(t + 1), i) <==> (in_index_list(l.take(t), i) || l[t]
            as int == i) by {
        if in_index_list(l.take(t + 1), i) {
            let j = choose|j: int|
                0 <= j < l.take(t + 1).len() && (#[trigger] l.take(t + 1)[j]) as int == i;
            if j < t {
                assert(l.take(t)[j] as int == i);
            } else {
                assert(l[t] as int == i);
            }
        }
        if in_index_list(l.take(t), i) {
            let j = choose|j: int|
                0 <= j < l.take(t).len() && (#[trigger] l.take(t)[j]) as int == i;
            assert(l.take(t + 1)[j] as int == i);
        }
        if l[t] as int == i {
            assert(l.take(t + 1)[t] as int == i);
        }
    }
}

/// A tabulated gen-kill analysis, handy for driving the engine with explicit
/// transfer tables.
pub struct TableGenKillAnalysis {
    pub forward_analysis: bool,
    pub n_places: usize,
    pub stmt_rows: Vec<Vec<GenKillRow>>,
    pub term_rows: Vec<GenKillRow>,
}

impl TableGenKillAnalysis {
    fn apply_row(&self, trans: &mut GenKillSet, row: &GenKillRow)
        requires
            old(trans).kills().len() == old(trans).gens().len(),
        ensures
            final(trans).gens().len() == old(trans).gens().len(),
            final(trans).kills().len() == old(trans).kills().len(),
            (old(trans).gens() == empty_bits(old(trans).gens().len()) && old(trans).kills()
                == empty_bits(old(trans).gens().len())) ==> final(trans).gens() == row_gens(
                *row,
                old(trans).gens().len(),
            ) && final(trans).kills() == row_kills(*row, old(trans).gens().len()),
    {
        let universe = trans.universe();
        let ghost g0 = trans.gens();
        let ghost k0 = trans.kills();
        let mut i: usize = 0;
        while i < row.gens.len()
            invariant
                i <= row.gens@.len(),
                trans.gens().len() == universe,
                trans.kills().len() == universe,
                g0.len() == universe,
                k0.len() == universe,
                forall|p: int|
                    #![trigger trans.gens()[p]]
                    0 <= p < universe ==> trans.gens()[p] == (g0[p] || in_index_list(
                        row.gens@.take(i as int),
                        p,
                    )),
                forall|p: int|
                    #![trigger trans.kills()[p]]
                    0 <= p < universe ==> trans.kills()[p] == (k0[p] && !in_index_list(
                        row.gens@.take(i as int),
                        p,
                    )),
            decreases row.gens@.len() - i,
        {
            let x = row.gens[i];
            proof {
                lemma_in_index_list_step(row.gens@, i as int);
            }
            if x < universe {
                trans.gen(x);
            }
            i = i + 1;
        }
        proof {
            assert(row.gens@.take(row.gens@.len() as int) =~= row.gens@);
        }
        let ghost g1 = trans.gens();
        let ghost k1 = trans.kills();
        let mut i: usize = 0;
        while i < row.kills.len()
            invariant
                i <= row.kills@.len(),
                trans.gens().len() == universe,
                trans.kills().len() == universe,
                g1.len() == universe,
                k1.len() == universe,
                forall|p: int|
                    #![trigger trans.gens()[p]]
                    0 <= p < universe ==> trans.gens()[p] == (g1[p] && !in_index_list(
                        row.kills@.take(i as int),
                        p,
                    )),
                forall|p: int|
                    #![trigger trans.kills()[p]]
                    0 <= p < universe ==> trans.kills()[p] == (k1[p] || in_index_list(
                        row.kills@.take(i as int),
                        p,
                    )),
            decreases row.kills@.len() - i,
        {
            let x = row.kills[i];
            proof {
                lemma_in_index_list_step(row.kills@, i as int);
            }
            if x < universe {
                trans.kill(x);
            }
            i = i + 1;
        }
        proof {
            assert(row.kills@.take(row.kills@.len() as int) =~= row.kills@);
            if g0 == empty_bits(universe as nat) && k0 == empty_bits(universe as nat) {
                assert(trans.gens() =~= row_gens(*row, universe as nat));
                assert(trans.kills() =~= row_kills(*row, universe as nat));
            }
        }
    }
}

impl GenKillAnalysis for TableGenKillAnalysis {
    open spec fn size_model(&self, cfg: &ControlFlowGraph) -> nat {
        self.n_places as nat
    }

    open spec fn direction_forward(&self) -> bool {
        self.forward_analysis
    }

    open spec fn stmt_gens(&self, cfg: &ControlFlowGraph, block: int, idx: int) -> Seq<bool> {
        if 0 <= block < self.stmt_rows@.len() && 0 <= idx < self.stmt_rows@[block]@.len() {
            row_gens(self.stmt_rows@[block]@[idx], self.n_places as nat)
        } else {
            empty_bits(self.n_places as nat)
        }
    }

    open spec fn stmt_kills(&self, cfg: &ControlFlowGraph, block: int, idx: int) -> Seq<bool> {
        if 0 <= block < self.stmt_rows@.len() && 0 <= idx < self.stmt_rows@[block]@.len() {
            row_kills(self.stmt_rows@[block]@[idx], self.n_places as nat)
        } else {
            empty_bits(self.n_places as nat)
        }
    }

    open spec fn term_gens(&self, cfg: &ControlFlowGraph, block: int) -> Seq<bool> {
        if 0 <= block < self.term_rows@.len() {
            row_gens(self.term_rows@[block], self.n_places as nat)
        } else {
            empty_bits(self.n_places as nat)
        }
    }

    open spec fn term_kills(&self, cfg: &ControlFlowGraph, block: int) -> Seq<bool> {
        if 0 <= block < self.term_rows@.len() {
            row_kills(self.term_rows@[block], self.n_places as nat)
        } else {
            empty_bits(self.n_places as nat)
        }
    }

    fn domain_size(&self, cfg: &ControlFlowGraph) -> usize {
        self.n_places
    }

    fn is_forward(&self) -> bool {
        self.forward_analysis
    }

    fn statement_effect(&self, cfg: &ControlFlowGraph, trans: &mut GenKillSet, block: usize, idx: usize) {
        if block < self.stmt_rows.len() {
            let row_vec = &self.stmt_rows[block];
            if idx < row_vec.len() {
                let row = &row_vec[idx];
                self.apply_row(trans, row);
                return ;
            }
        }
        proof {
            if old(trans).gens() == empty_bits(self.size_model(cfg)) && old(trans).kills()
                == empty_bits(self.size_model(cfg)) {
                assert(trans.gens() =~= self.stmt_gens(cfg, block as int, idx as int));
                assert(trans.kills() =~= self.stmt_kills(cfg, block as int, idx as int));
            }
        }
    }

    fn terminator_effect(&self, cfg: &ControlFlowGraph, trans: &mut GenKillSet, block: usize) {
        if block < self.term_rows.len() {
            let row = &self.term_rows[block];
            self.apply_row(trans, row);
            return ;
        }
        proof {
            if old(trans).gens() == empty_bits(self.size_model(cfg)) && old(trans).kills()
                == empty_bits(self.size_model(cfg)) {
                assert(trans.gens() =~= self.term_gens(cfg, block as int));
                assert(trans.kills() =~= self.term_kills(cfg, block as int));
            }
        }
    }
}

} // verus!
