//! Backward program slicing over a program dependence graph: starting from a
//! set of relevant statements, follow data and control dependencies backwards
//! and keep exactly the statements reached, cutting the walk at statements
//! assumed to be already available.

use vstd::prelude::*;
use crate::bitset::BitSet;
use crate::cfg::{BasicBlockData, ControlFlowGraph, has_owner, owner_cache_consistent, owns,
    statements_well_formed};
use crate::work_queue::WorkQueue;

verus! {

/// Reaching-definitions-style use-def information: per variable, the
/// statements that may assign it (`None` meaning "never assigned"); per
/// statement and per terminator, the statements whose results it directly
/// consumes.
pub struct UseDefGraph {
    /// The number of statement handles the graph ranges over.
    pub stmt_count: usize,
    /// Per variable, the statements that may assign it.
    pub assignments: Vec<Option<BitSet>>,
    /// Per statement, the statements it directly uses.
    pub stmt_use_def_chains: Vec<Option<BitSet>>,
    /// Per block, the statements its terminator directly uses.
    pub terminator_use_def_chains: Vec<Option<BitSet>>,
}

impl UseDefGraph {
    /// The number of statement handles the graph ranges over.
    pub fn stmt_len(&self) -> (r: usize)
        ensures
            r == self.stmt_count,
    {
        self.stmt_count
    }
}

/// The program dependence graph: use-def data dependencies plus, per block,
/// the blocks whose branch outcome controls whether it executes.
pub struct ProgramDependenceGraph {
    pub data_dependencies: UseDefGraph,
    pub control_dependencies: Vec<Option<BitSet>>,
}

/// The members of an optional bitset; absent means empty.
pub open spec fn opt_members(o: Option<BitSet>) -> Set<int> {
    match o {
        Some(b) => b.members(),
        None => Set::empty(),
    }
}

/// The statements statement `s` directly uses.
pub open spec fn data_deps(pdg: &ProgramDependenceGraph, s: int) -> Set<int> {
    opt_members(pdg.data_dependencies.stmt_use_def_chains@[s])
}

/// The statements the terminator of block `b` directly uses.
pub open spec fn term_deps(pdg: &ProgramDependenceGraph, b: int) -> Set<int> {
    opt_members(pdg.data_dependencies.terminator_use_def_chains@[b])
}

/// The blocks whose branch outcome controls block `b`.
pub open spec fn ctrl_deps(pdg: &ProgramDependenceGraph, b: int) -> Set<int> {
    opt_members(pdg.control_dependencies@[b])
}

/// The block holding statement `s` (unique in a well-formed table).
pub open spec fn owner_of(blocks: Seq<BasicBlockData>, s: int) -> int {
    choose|b: int| owns(blocks, b, s)
}

/// The dependence graph covers the graph's statements and blocks.
pub open spec fn pdg_well_formed(pdg: &ProgramDependenceGraph, blocks: Seq<BasicBlockData>) -> bool {
    &&& pdg.data_dependencies.stmt_use_def_chains@.len() == pdg.data_dependencies.stmt_count
    &&& forall|v: int|
        0 <= v < pdg.data_dependencies.assignments@.len()
            && (#[trigger] pdg.data_dependencies.assignments@[v]) is Some
            ==> pdg.data_dependencies.assignments@[v]->Some_0@.len()
            == pdg.data_dependencies.stmt_count
    &&& pdg.data_dependencies.terminator_use_def_chains@.len() == blocks.len()
    &&& pdg.control_dependencies@.len() == blocks.len()
    &&& forall|s: int|
        0 <= s < pdg.data_dependencies.stmt_count
            && (#[trigger] pdg.data_dependencies.stmt_use_def_chains@[s]) is Some
            ==> pdg.data_dependencies.stmt_use_def_chains@[s]->Some_0@.len()
            == pdg.data_dependencies.stmt_count
    &&& forall|b: int|
        0 <= b < blocks.len()
            && (#[trigger] pdg.data_dependencies.terminator_use_def_chains@[b]) is Some
            ==> pdg.data_dependencies.terminator_use_def_chains@[b]->Some_0@.len()
            == pdg.data_dependencies.stmt_count
    &&& forall|b: int|
        0 <= b < blocks.len() && (#[trigger] pdg.control_dependencies@[b]) is Some
            ==> pdg.control_dependencies@[b]->Some_0@.len() == blocks.len()
}

/// `ks` (statements) and `kb` (blocks) are closed under the slicing walk from
/// the `relevant` seeds, with `assumed` statements cutting the walk: `ks`
/// holds the seeds, the data dependencies of its statements except assumed
/// ones, and the terminator dependencies of `kb`'s blocks except assumed
/// ones; `kb` holds the control dependencies of `ks`'s statements' blocks and
/// of its own blocks.
pub open spec fn slice_closed(
    blocks: Seq<BasicBlockData>,
    pdg: &ProgramDependenceGraph,
    relevant: Set<int>,
    assumed: Set<int>,
    ks: Set<int>,
    kb: Set<int>,
) -> bool {
    &&& relevant.subset_of(ks)
    &&& forall|s: int, t: int|
        ks.contains(s) && 0 <= s < pdg.data_dependencies.stmt_count && (#[trigger] data_deps(
            pdg,
            s,
        ).contains(t)) && !assumed.contains(t) ==> ks.contains(t)
    &&& forall|s: int, b: int|
        ks.contains(s) && 0 <= s < pdg.data_dependencies.stmt_count && (#[trigger] ctrl_deps(
            pdg,
            owner_of(blocks, s),
        ).contains(b)) ==> kb.contains(b)
    &&& forall|b: int, t: int|
        kb.contains(b) && 0 <= b < blocks.len() && (#[trigger] term_deps(pdg, b).contains(t))
            && !assumed.contains(t) ==> ks.contains(t)
    &&& forall|b: int, c: int|
        kb.contains(b) && 0 <= b < blocks.len() && (#[trigger] ctrl_deps(pdg, b).contains(c))
            ==> kb.contains(c)
}

/// The statements the slice keeps: those in every closed statement set -- the
/// least set of statements reachable backwards from the relevant seeds
/// without walking through an assumed statement.
pub open spec fn slice_kept(
    blocks: Seq<BasicBlockData>,
    pdg: &ProgramDependenceGraph,
    relevant: Set<int>,
    assumed: Set<int>,
) -> Set<int> {
    Set::new(
        |s: int|
            forall|ks: Set<int>, kb: Set<int>|
                #[trigger] slice_closed(blocks, pdg, relevant, assumed, ks, kb) ==> ks.contains(
                    s,
                ),
    )
}

/// The blocks the slicing walk visits: those in every closed block set.
pub open spec fn slice_kept_blocks(
    blocks: Seq<BasicBlockData>,
    pdg: &ProgramDependenceGraph,
    relevant: Set<int>,
    assumed: Set<int>,
) -> Set<int> {
    Set::new(
        |b: int|
            forall|ks: Set<int>, kb: Set<int>|
                #[trigger] slice_closed(blocks, pdg, relevant, assumed, ks, kb) ==> kb.contains(
                    b,
                ),
    )
}

/// The kept set is minimal: it lies within every dependency-closed superset
/// of the relevant seeds, so no statement reachable only through an assumed
/// statement is kept.
pub proof fn lemma_slice_kept_minimal(
    blocks: Seq<BasicBlockData>,
    pdg: &ProgramDependenceGraph,
    relevant: Set<int>,
    assumed: Set<int>,
    ks: Set<int>,
    kb: Set<int>,
)
    requires
        slice_closed(blocks, pdg, relevant, assumed, ks, kb),
    ensures
        slice_kept(blocks, pdg, relevant, assumed).subset_of(ks),
{
}

/// The kept set holds every relevant seed.
pub proof fn lemma_slice_kept_contains_relevant(
    blocks: Seq<BasicBlockData>,
    pdg: &ProgramDependenceGraph,
    relevant: Set<int>,
    assumed: Set<int>,
)
    ensures
        relevant.subset_of(slice_kept(blocks, pdg, relevant, assumed)),
{
    assert forall|s: int| relevant.contains(s) implies slice_kept(
        blocks,
        pdg,
        relevant,
        assumed,
    ).contains(s) by {
        assert forall|ks: Set<int>, kb: Set<int>|
            #[trigger] slice_closed(blocks, pdg, relevant, assumed, ks, kb) implies ks.contains(
            s,
        ) by {}
    }
}

/// The kept statement and block sets are themselves closed: the slice is a
/// superset of the seeds closed under both dependency relations, cut at
/// assumed statements.
pub proof fn lemma_slice_kept_closed(
    blocks: Seq<BasicBlockData>,
    pdg: &ProgramDependenceGraph,
    relevant: Set<int>,
    assumed: Set<int>,
)
    ensures
        slice_closed(
            blocks,
            pdg,
            relevant,
            assumed,
            slice_kept(blocks, pdg, relevant, assumed),
            slice_kept_blocks(blocks, pdg, relevant, assumed),
        ),
{
    let kept = slice_kept(blocks, pdg, relevant, assumed);
    let keptb = slice_kept_blocks(blocks, pdg, relevant, assumed);
    lemma_slice_kept_contains_relevant(blocks, pdg, relevant, assumed);
    assert forall|s: int, t: int|
        kept.contains(s) && 0 <= s < pdg.data_dependencies.stmt_count && (#[trigger] data_deps(
            pdg,
            s,
        ).contains(t)) && !assumed.contains(t) implies kept.contains(t) by {
        assert forall|ks: Set<int>, kb: Set<int>|
            #[trigger] slice_closed(blocks, pdg, relevant, assumed, ks, kb) implies ks.contains(
            t,
        ) by {
            assert(ks.contains(s));
        }
    }
    assert forall|s: int, b: int|
        kept.contains(s) && 0 <= s < pdg.data_dependencies.stmt_count && (#[trigger] ctrl_deps(
            pdg,
            owner_of(blocks, s),
        ).contains(b)) implies keptb.contains(b) by {
        assert forall|ks: Set<int>, kb: Set<int>|
            #[trigger] slice_closed(blocks, pdg, relevant, assumed, ks, kb) implies kb.contains(
            b,
        ) by {
            assert(ks.contains(s));
        }
    }
    assert forall|b: int, t: int|
        keptb.contains(b) && 0 <= b < blocks.len() && (#[trigger] term_deps(pdg, b).contains(t))
            && !assumed.contains(t) implies kept.contains(t) by {
        assert forall|ks: Set<int>, kb: Set<int>|
            #[trigger] slice_closed(blocks, pdg, relevant, assumed, ks, kb) implies ks.contains(
            t,
        ) by {
            assert(kb.contains(b));
        }
    }
    assert forall|b: int, c: int|
        keptb.contains(b) && 0 <= b < blocks.len() && (#[trigger] ctrl_deps(pdg, b).contains(c))
            implies keptb.contains(c) by {
        assert forall|ks: Set<int>, kb: Set<int>|
            #[trigger] slice_closed(blocks, pdg, relevant, assumed, ks, kb) implies kb.contains(
            c,
        ) by {
            assert(kb.contains(b));
        }
    }
}

/// Slice monotonicity: enlarging the relevant seed set can only enlarge the
/// kept statement set, for a fixed assumed set and dependence graph.
pub proof fn lemma_slice_monotone(
    blocks: Seq<BasicBlockData>,
    pdg: &ProgramDependenceGraph,
    relevant1: Set<int>,
    relevant2: Set<int>,
    assumed: Set<int>,
)
    requires
        relevant1.subset_of(relevant2),
    ensures
        slice_kept(blocks, pdg, relevant1, assumed).subset_of(
            slice_kept(blocks, pdg, relevant2, assumed),
        ),
{
    let k1 = slice_kept(blocks, pdg, relevant1, assumed);
    assert forall|s: int| k1.contains(s) implies slice_kept(
        blocks,
        pdg,
        relevant2,
        assumed,
    ).contains(s) by {
        assert forall|ks: Set<int>, kb: Set<int>|
            #[trigger] slice_closed(blocks, pdg, relevant2, assumed, ks, kb) implies ks.contains(
            s,
        ) by {
            assert(slice_closed(blocks, pdg, relevant1, assumed, ks, kb));
        }
    }
}


/// The new block table is the old one with each block's statement list
/// filtered down to the kept set of the slice from `relevant` cut at
/// `assumed`; blocks and edges are untouched.
pub open spec fn sliced_blocks(
    old_blocks: Seq<BasicBlockData>,
    new_blocks: Seq<BasicBlockData>,
    pdg: &ProgramDependenceGraph,
    relevant: Set<int>,
    assumed: Set<int>,
) -> bool {
    &&& new_blocks.len() == old_blocks.len()
    &&& forall|b: int|
        0 <= b < new_blocks.len() ==> (#[trigger] new_blocks[b]).statements@ == old_blocks[
            b
        ].statements@.filter(
            |s: usize| slice_kept(old_blocks, pdg, relevant, assumed).contains(s as int),
        ) && new_blocks[b].successors@ == old_blocks[b].successors@ && new_blocks[
            b
        ].predecessors@ == old_blocks[b].predecessors@
}

/// Computes the backward slice in place: keeps exactly the statements
/// backward-reachable from the `relevant_stmts` seeds through data and
/// control dependencies, cutting the walk at `assumed_stmts`; every block's
/// statement list is filtered down to the kept set, and the block and edge
/// structure is left untouched.
///
/// The walk is worklist-driven and each queue's membership set is never
/// cleared, so a statement or block enters its queue at most once; the loop
/// strictly decreases the queues' combined measure, which starts at no more
/// than twice the statement count plus the block count, bounding the number
/// of queue operations linearly in the graph's size.
pub fn backward_slice(
    cfg: &mut ControlFlowGraph,
    relevant_stmts: BitSet,
    assumed_stmts: BitSet,
    pdg: &ProgramDependenceGraph,
)
    requires
        pdg_well_formed(pdg, old(cfg).blocks@),
        statements_well_formed(old(cfg).blocks@, pdg.data_dependencies.stmt_count as nat),
        relevant_stmts@.len() == pdg.data_dependencies.stmt_count,
        assumed_stmts@.len() == pdg.data_dependencies.stmt_count,
    ensures
        sliced_blocks(
            old(cfg).blocks@,
            final(cfg).blocks@,
            pdg,
            relevant_stmts.members(),
            assumed_stmts.members(),
        ),
{
    let sc = pdg.data_dependencies.stmt_count;
    let ghost blocks0 = cfg.blocks@;
    let ghost rel0 = relevant_stmts.members();
    let ghost asm0 = assumed_stmts.members();
    let ghost kept = slice_kept(blocks0, pdg, rel0, asm0);
    cfg.compute_statement_owners(sc);
    let nb = cfg.blocks.len();
    let mut relevant = relevant_stmts;

    // seed the statement queue with every relevant statement
    let mut stmt_q = WorkQueue::with_none(sc);
    let mut s0: usize = 0;
    while s0 < sc
        invariant
            s0 <= sc,
            stmt_q.wf(),
            stmt_q.universe() == sc,
            stmt_q.queued().len() <= s0,
            relevant@.len() == sc,
            relevant.members() == rel0,
            forall|x: int|
                #![trigger stmt_q.in_set(x)]
                stmt_q.in_set(x) <==> (0 <= x < s0 && rel0.contains(x)),
            forall|x: int|
                #![trigger stmt_q.queued_set().contains(x)]
                stmt_q.queued_set().contains(x) <==> (0 <= x < s0 && rel0.contains(x)),
        decreases sc - s0,
    {
        let ghost qs_head = stmt_q.queued_set();
        if relevant.contains(s0) {
            proof {
                assert(rel0.contains(s0 as int));
            }
            stmt_q.insert(s0);
        } else {
            proof {
                assert(!rel0.contains(s0 as int));
            }
        }
        proof {
            assert forall|x: int|
                stmt_q.queued_set().contains(x) implies (0 <= x < s0 + 1 && rel0.contains(
                x,
            )) by {
                if qs_head.contains(x) {
                    assert(0 <= x < s0 && rel0.contains(x));
                } else {
                    assert(x == s0 as int);
                }
            }
            assert forall|x: int|
                0 <= x < s0 + 1 && rel0.contains(x) implies stmt_q.queued_set().contains(x) by {
                if x < s0 {
                    assert(qs_head.contains(x));
                }
            }
        }
        s0 = s0 + 1;
    }
    // mark the assumed statements as already visited: the walk is cut there
    stmt_q.mark_visited(&assumed_stmts);
    let mut bb_q = WorkQueue::with_none(nb);
    let ghost processed: Set<int> = Set::empty();
    let mut processed = Ghost(processed);
    proof {
        // the loop pops at least one item per iteration and no operation ever
        // raises this measure, so it runs at most 2 * sc + nb iterations
        stmt_q.lemma_measure_bound();
        bb_q.lemma_measure_bound();
        assert(stmt_q.measure() + bb_q.measure() <= 2 * sc + nb);
    }

    while stmt_q.len() > 0 || bb_q.len() > 0
        invariant
            sc == pdg.data_dependencies.stmt_count,
            cfg.blocks@ == blocks0,
            nb == blocks0.len(),
            cfg.statement_owners is Some,
            cfg.statement_owners->Some_0@.len() == sc,
            owner_cache_consistent(cfg, sc as nat),
            statements_well_formed(blocks0, sc as nat),
            pdg_well_formed(pdg, blocks0),
            relevant@.len() == sc,
            stmt_q.wf(),
            stmt_q.universe() == sc,
            bb_q.wf(),
            bb_q.universe() == nb,
            relevant.members() == rel0.union(processed@),
            rel0.subset_of(processed@.union(stmt_q.queued_set())),
            // every assumed statement is marked visited
            forall|x: int| asm0.contains(x) ==> #[trigger] stmt_q.in_set(x),
            // the membership set holds only assumed, marked, or pending items
            forall|x: int|
                #[trigger] stmt_q.in_set(x) ==> asm0.contains(x)
                    || relevant.members().contains(x) || stmt_q.queued_set().contains(x),
            // everything marked or pending lies in every closed set
            forall|ks: Set<int>, kb: Set<int>|
                #[trigger] slice_closed(blocks0, pdg, rel0, asm0, ks, kb) ==> (
                relevant.members().subset_of(ks) && stmt_q.queued_set().subset_of(ks)
                    && bb_q.queued_set().subset_of(kb)),
            // processed statements have their dependencies enqueued
            forall|s: int, t: int|
                processed@.contains(s) && #[trigger] data_deps(pdg, s).contains(t)
                    ==> stmt_q.in_set(t),
            forall|s: int, b: int|
                processed@.contains(s) && #[trigger] ctrl_deps(
                    pdg,
                    owner_of(blocks0, s),
                ).contains(b) ==> bb_q.in_set(b),
            processed@.subset_of(relevant.members()),
            // processed blocks have their dependencies enqueued
            forall|b: int, t: int|
                bb_q.in_set(b) && !bb_q.queued_set().contains(b) && #[trigger] term_deps(
                    pdg,
                    b,
                ).contains(t) ==> stmt_q.in_set(t),
            forall|b: int, c: int|
                bb_q.in_set(b) && !bb_q.queued_set().contains(b) && #[trigger] ctrl_deps(
                    pdg,
                    b,
                ).contains(c) ==> bb_q.in_set(c),
        decreases stmt_q.measure() + bb_q.measure(),
    {
        let ghost qs0 = stmt_q.queued_set();
        match stmt_q.take() {
            Some(stmt) => {
                let ghost m0 = relevant.members();
                let ghost p0 = processed@;
                proof {
                    processed@ = processed@.insert(stmt as int);
                }
                relevant.insert(stmt);
                proof {
                    assert forall|x: int|
                        relevant.members().contains(x) <==> rel0.union(processed@).contains(
                        x,
                    ) by {
                        assert(relevant.members().contains(x) <==> (0 <= x < relevant@.len()
                            && relevant@[x]));
                        assert(m0.contains(x) <==> rel0.union(p0).contains(x));
                        assert(rel0.union(processed@).contains(x) <==> (rel0.contains(x)
                            || processed@.contains(x)));
                        assert(processed@.contains(x) <==> (p0.contains(x) || x == stmt as int));
                    }
                    assert(relevant.members() =~= rel0.union(processed@));
                    assert(rel0.subset_of(processed@.union(stmt_q.queued_set()))) by {
                        assert forall|x: int| rel0.contains(x) implies processed@.union(
                            stmt_q.queued_set(),
                        ).contains(x) by {
                            if !p0.contains(x) {
                                assert(qs0.contains(x));
                                if x != stmt as int {
                                    assert(stmt_q.queued_set().contains(x));
                                }
                            }
                        }
                    }
                    // the popped statement lies in every closed set
                    assert forall|ks: Set<int>, kb: Set<int>|
                        #[trigger] slice_closed(blocks0, pdg, rel0, asm0, ks, kb) implies (
                        relevant.members().subset_of(ks) && stmt_q.queued_set().subset_of(ks)
                            && bb_q.queued_set().subset_of(kb)) by {
                        assert(qs0.contains(stmt as int));
                        assert(ks.contains(stmt as int));
                        assert forall|x: int|
                            relevant.members().contains(x) implies ks.contains(x) by {
                            if x != stmt as int {
                                assert(m0.contains(x));
                            }
                        }
                        assert forall|x: int|
                            stmt_q.queued_set().contains(x) implies ks.contains(x) by {
                            assert(qs0.contains(x));
                        }
                    }
                }
                let ghost qs1 = stmt_q.queued_set();
                let ghost is1 = Set::new(|x: int| stmt_q.in_set(x));
                match &pdg.data_dependencies.stmt_use_def_chains[stmt] {
                    Some(dd) => {
                        proof {
                            assert(dd@.len() == sc);
                            assert forall|t: int|
                                dd.members().contains(t) implies #[trigger] data_deps(
                                pdg,
                                stmt as int,
                            ).contains(t) by {}
                        }
                        stmt_q.enqueue_members(dd);
                        proof {
                            assert forall|ks: Set<int>, kb: Set<int>|
                                #[trigger] slice_closed(blocks0, pdg, rel0, asm0, ks, kb) implies (
                                relevant.members().subset_of(ks) && stmt_q.queued_set().subset_of(
                                    ks,
                                ) && bb_q.queued_set().subset_of(kb)) by {
                                assert forall|x: int|
                                    stmt_q.queued_set().contains(x) implies ks.contains(x) by {
                                    if !qs1.contains(x) {
                                        assert(dd.members().contains(x) && !is1.contains(x));
                                        assert(!asm0.contains(x));
                                        assert(data_deps(pdg, stmt as int).contains(x));
                                        assert(relevant.members().contains(stmt as int));
                                        assert(ks.contains(stmt as int));
                                        assert(0 <= x < sc);
                                    }
                                }
                            }
                        }
                    },
                    None => {},
                }
                proof {
                    assert forall|ss: int, t: int|
                        processed@.contains(ss) && #[trigger] data_deps(pdg, ss).contains(t)
                            implies stmt_q.in_set(t) by {
                        if ss == stmt as int {
                            match pdg.data_dependencies.stmt_use_def_chains@[ss] {
                                Some(ddv) => {
                                    assert(ddv.members().contains(t));
                                },
                                None => {},
                            }
                        }
                    }
                }
                let ghost bqs1 = bb_q.queued_set();
                let ghost bis1 = Set::new(|x: int| bb_q.in_set(x));
                let ob = cfg.containing_block(stmt);
                match ob {
                    Some(b) => {
                        proof {
                            let bo = owner_of(blocks0, stmt as int);
                            assert(has_owner(blocks0, stmt as int));
                            let bw = choose|bb: int| owns(blocks0, bb, stmt as int);
                            assert(owns(blocks0, bo, stmt as int));
                            assert(owns(cfg.blocks@, bo, stmt as int));
                            assert(b as int == bo);
                            assert(0 <= bo < nb);
                        }
                        match &pdg.control_dependencies[b] {
                            Some(cd) => {
                                proof {
                                    assert(cd@.len() == nb);
                                    assert forall|c: int|
                                        cd.members().contains(c) implies #[trigger] ctrl_deps(
                                        pdg,
                                        owner_of(blocks0, stmt as int),
                                    ).contains(c) by {}
                                }
                                bb_q.enqueue_members(cd);
                                proof {
                                    assert forall|ks: Set<int>, kb: Set<int>|
                                        #[trigger] slice_closed(
                                            blocks0,
                                            pdg,
                                            rel0,
                                            asm0,
                                            ks,
                                            kb,
                                        ) implies (relevant.members().subset_of(ks)
                                        && stmt_q.queued_set().subset_of(ks)
                                        && bb_q.queued_set().subset_of(kb)) by {
                                        assert forall|x: int|
                                            bb_q.queued_set().contains(x) implies kb.contains(
                                            x,
                                        ) by {
                                            if !bqs1.contains(x) {
                                                assert(cd.members().contains(x));
                                                assert(ctrl_deps(
                                                    pdg,
                                                    owner_of(blocks0, stmt as int),
                                                ).contains(x));
                                                assert(relevant.members().contains(stmt as int));
                                                assert(ks.contains(stmt as int));
                                            }
                                        }
                                    }
                                }
                            },
                            None => {},
                        }
                        proof {
                            assert forall|ss: int, c: int|
                                processed@.contains(ss) && #[trigger] ctrl_deps(
                                    pdg,
                                    owner_of(blocks0, ss),
                                ).contains(c) implies bb_q.in_set(c) by {
                                if ss == stmt as int {
                                    match pdg.control_dependencies@[owner_of(blocks0, ss)] {
                                        Some(cdv) => {
                                            assert(cdv.members().contains(c));
                                        },
                                        None => {},
                                    }
                                }
                            }
                        }
                    },
                    None => {
                        proof {
                            assert(has_owner(blocks0, stmt as int));
                            let bw = choose|bb: int| owns(blocks0, bb, stmt as int);
                            assert(owns(cfg.blocks@, bw, stmt as int));
                            assert(false);
                        }
                        vstd::pervasive::unreached()
                    },
                }
            },
            None => {},
        }
        let ghost bqs2 = bb_q.queued_set();
        match bb_q.take() {
            Some(bb) => {
                proof {
                    assert forall|ks: Set<int>, kb: Set<int>|
                        #[trigger] slice_closed(blocks0, pdg, rel0, asm0, ks, kb) implies (
                        relevant.members().subset_of(ks) && stmt_q.queued_set().subset_of(ks)
                            && bb_q.queued_set().subset_of(kb)) by {
                        assert forall|x: int|
                            bb_q.queued_set().contains(x) implies kb.contains(x) by {
                            assert(bqs2.contains(x));
                        }
                    }
                }
                let ghost qs3 = stmt_q.queued_set();
                let ghost is3 = Set::new(|x: int| stmt_q.in_set(x));
                match &pdg.data_dependencies.terminator_use_def_chains[bb] {
                    Some(td) => {
                        proof {
                            assert(td@.len() == sc);
                            assert forall|t: int|
                                td.members().contains(t) implies #[trigger] term_deps(
                                pdg,
                                bb as int,
                            ).contains(t) by {}
                        }
                        stmt_q.enqueue_members(td);
                        proof {
                            assert forall|ks: Set<int>, kb: Set<int>|
                                #[trigger] slice_closed(blocks0, pdg, rel0, asm0, ks, kb) implies (
                                relevant.members().subset_of(ks) && stmt_q.queued_set().subset_of(
                                    ks,
                                ) && bb_q.queued_set().subset_of(kb)) by {
                                assert forall|x: int|
                                    stmt_q.queued_set().contains(x) implies ks.contains(x) by {
                                    if !qs3.contains(x) {
                                        assert(td.members().contains(x) && !is3.contains(x));
                                        assert(!asm0.contains(x));
                                        assert(term_deps(pdg, bb as int).contains(x));
                                        assert(bqs2.contains(bb as int));
                                        assert(kb.contains(bb as int));
                                        assert(0 <= x < sc);
                                    }
                                }
                            }
                        }
                    },
                    None => {},
                }
                let ghost bqs3 = bb_q.queued_set();
                let ghost bis3 = Set::new(|x: int| bb_q.in_set(x));
                match &pdg.control_dependencies[bb] {
                    Some(cd) => {
                        proof {
                            assert(cd@.len() == nb);
                            assert forall|c: int|
                                cd.members().contains(c) implies #[trigger] ctrl_deps(
                                pdg,
                                bb as int,
                            ).contains(c) by {}
                        }
                        bb_q.enqueue_members(cd);
                        proof {
                            assert forall|ks: Set<int>, kb: Set<int>|
                                #[trigger] slice_closed(blocks0, pdg, rel0, asm0, ks, kb) implies (
                                relevant.members().subset_of(ks) && stmt_q.queued_set().subset_of(
                                    ks,
                                ) && bb_q.queued_set().subset_of(kb)) by {
                                assert forall|x: int|
                                    bb_q.queued_set().contains(x) implies kb.contains(x) by {
                                    if !bqs3.contains(x) {
                                        assert(cd.members().contains(x));
                                        assert(ctrl_deps(pdg, bb as int).contains(x));
                                        assert(bqs2.contains(bb as int));
                                        assert(kb.contains(bb as int));
                                    }
                                }
                            }
                        }
                    },
                    None => {},
                }
                proof {
                    // the popped block's dependencies are now enqueued, and no
                    // other processed block re-entered the queue
                    assert forall|b2: int, t: int|
                        bb_q.in_set(b2) && !bb_q.queued_set().contains(b2) && #[trigger] term_deps(
                            pdg,
                            b2,
                        ).contains(t) implies stmt_q.in_set(t) by {
                        if b2 == bb as int {
                            match pdg.data_dependencies.terminator_use_def_chains@[b2] {
                                Some(tdv) => {
                                    assert(tdv.members().contains(t));
                                },
                                None => {},
                            }
                        } else {
                            if bis3.contains(b2) && !bqs3.contains(b2) {
                            } else {
                                assert(false);
                            }
                        }
                    }
                    assert forall|b2: int, c: int|
                        bb_q.in_set(b2) && !bb_q.queued_set().contains(b2) && #[trigger] ctrl_deps(
                            pdg,
                            b2,
                        ).contains(c) implies bb_q.in_set(c) by {
                        if b2 == bb as int {
                            match pdg.control_dependencies@[b2] {
                                Some(cdv) => {
                                    assert(cdv.members().contains(c));
                                },
                                None => {},
                            }
                        } else {
                            if bis3.contains(b2) && !bqs3.contains(b2) {
                            } else {
                                assert(false);
                            }
                        }
                    }
                }
            },
            None => {},
        }
    }
    proof {
        // the marked set and the visited blocks are closed, so they hold the
        // kept set; by minimality they equal it
        let m = relevant.members();
        let mb = Set::new(|b: int| bb_q.in_set(b));
        assert(rel0.subset_of(processed@));
        assert(m =~= processed@);
        assert forall|x: int|
            0 <= x < sc && stmt_q.in_set(x) implies (asm0.contains(x) || m.contains(x)) by {}
        assert(slice_closed(blocks0, pdg, rel0, asm0, m, mb)) by {
            assert forall|s: int, t: int|
                m.contains(s) && 0 <= s < pdg.data_dependencies.stmt_count && (
                #[trigger] data_deps(pdg, s).contains(t)) && !asm0.contains(t) implies m.contains(
                t,
            ) by {
                assert(stmt_q.in_set(t));
                assert(0 <= t < sc);
            }
            assert forall|b: int, t: int|
                mb.contains(b) && 0 <= b < blocks0.len() && (#[trigger] term_deps(
                    pdg,
                    b,
                ).contains(t)) && !asm0.contains(t) implies m.contains(t) by {
                assert(stmt_q.in_set(t));
                assert(0 <= t < sc);
            }
        }
        lemma_slice_kept_minimal(blocks0, pdg, rel0, asm0, m, mb);
        assert forall|x: int| m.contains(x) implies kept.contains(x) by {
            assert forall|ks: Set<int>, kb: Set<int>|
                #[trigger] slice_closed(blocks0, pdg, rel0, asm0, ks, kb) implies ks.contains(
                x,
            ) by {}
        }
        assert(m =~= kept);
    }
    // keep only the marked statements in every block
    let mut b: usize = 0;
    while b < nb
        invariant
            nb == blocks0.len(),
            cfg.blocks@.len() == nb,
            sc == pdg.data_dependencies.stmt_count,
            relevant@.len() == sc,
            relevant.members() == kept,
            statements_well_formed(blocks0, sc as nat),
            blocks0 == old(cfg).blocks@,
            forall|bb: int|
                b <= bb < nb ==> #[trigger] cfg.blocks@[bb] == blocks0[bb],
            forall|bb: int|
                0 <= bb < b ==> (#[trigger] cfg.blocks@[bb]).statements@ == blocks0[
                    bb
                ].statements@.filter(|s: usize| kept.contains(s as int)) && cfg.blocks@[
                    bb
                ].successors@ == blocks0[bb].successors@ && cfg.blocks@[bb].predecessors@
                    == blocks0[bb].predecessors@,
        decreases nb - b,
    {
        let stmts_len = cfg.blocks[b].statements.len();
        let mut new_stmts: Vec<usize> = Vec::new();
        let ghost pred = |s: usize| kept.contains(s as int);
        let mut j: usize = 0;
        proof {
            reveal(Seq::filter);
            assert(blocks0[b as int].statements@.take(0).filter(pred) =~= new_stmts@);
        }
        while j < stmts_len
            invariant
                b < nb,
                nb == blocks0.len(),
                cfg.blocks@.len() == nb,
                cfg.blocks@[b as int] == blocks0[b as int],
                stmts_len == blocks0[b as int].statements@.len(),
                j <= stmts_len,
                sc == pdg.data_dependencies.stmt_count,
                relevant@.len() == sc,
                relevant.members() == kept,
                statements_well_formed(blocks0, sc as nat),
                blocks0 == old(cfg).blocks@,
                pred == (|s: usize| kept.contains(s as int)),
                new_stmts@ == blocks0[b as int].statements@.take(j as int).filter(pred),
            decreases stmts_len - j,
        {
            let s = cfg.blocks[b].statements[j];
            proof {
                assert(blocks0[b as int].statements@[j as int] < sc);
            }
            let keep = relevant.contains(s);
            proof {
                reveal(Seq::filter);
                let prefix = blocks0[b as int].statements@.take(j as int);
                let prefix1 = blocks0[b as int].statements@.take(j + 1);
                assert(prefix1.drop_last() =~= prefix);
                assert(prefix1.last() == s);
                assert(keep == pred(s)) by {
                    assert(relevant.members().contains(s as int) == relevant@[s as int]);
                }
            }
            if keep {
                new_stmts.push(s);
            }
            j = j + 1;
        }
        proof {
            assert(blocks0[b as int].statements@.take(stmts_len as int) =~= blocks0[
                b as int
            ].statements@);
        }
        let succs = clone_usize_vec(&cfg.blocks[b].successors);
        let preds = clone_usize_vec(&cfg.blocks[b].predecessors);
        let new_block = BasicBlockData { statements: new_stmts, successors: succs, predecessors: preds };
        cfg.blocks.set(b, new_block);
        b = b + 1;
    }
}

/// Copies a vector of indices.
fn clone_usize_vec(v: &Vec<usize>) -> (r: Vec<usize>)
    ensures
        r@ == v@,
{
    let mut r: Vec<usize> = Vec::new();
    let mut i: usize = 0;
    while i < v.len()
        invariant
            i <= v@.len(),
            r@ == v@.take(i as int),
        decreases v@.len() - i,
    {
        r.push(v[i]);
        i = i + 1;
    }
    proof {
        assert(v@.take(v@.len() as int) =~= v@);
    }
    r
}


/// The statements that may assign any of the given variables.
pub open spec fn variables_input_set(pdg: &ProgramDependenceGraph, input: Seq<usize>) -> Set<int> {
    Set::new(
        |t: int|
            exists|i: int|
                0 <= i < input.len() && opt_members(
                    #[trigger] pdg.data_dependencies.assignments@[input[i] as int],
                ).contains(t),
    )
}

/// Slices the graph backwards from every statement that may assign `var`,
/// treating the `input` statements as already available. If `var` is never
/// assigned anywhere, the slice is empty: all blocks are dropped and the
/// ownership cache is invalidated.
pub fn backward_variable_slice_assuming_input(
    cfg: &mut ControlFlowGraph,
    input: BitSet,
    var: usize,
    pdg: &ProgramDependenceGraph,
)
    requires
        pdg_well_formed(pdg, old(cfg).blocks@),
        statements_well_formed(old(cfg).blocks@, pdg.data_dependencies.stmt_count as nat),
        var < pdg.data_dependencies.assignments@.len(),
        input@.len() == pdg.data_dependencies.stmt_count,
    ensures
        match pdg.data_dependencies.assignments@[var as int] {
            Some(r) => sliced_blocks(
                old(cfg).blocks@,
                final(cfg).blocks@,
                pdg,
                r.members(),
                input.members(),
            ),
            None => final(cfg).blocks@.len() == 0 && final(cfg).statement_owners is None,
        },
{
    match &pdg.data_dependencies.assignments[var] {
        Some(relevant_stmts) => {
            let rel = relevant_stmts.clone_set();
            backward_slice(cfg, rel, input, pdg);
        },
        None => {
            cfg.blocks = Vec::new();
            cfg.statement_owners = None;
        },
    }
}

/// Slices the graph backwards from every statement that may assign `var`. If
/// `var` is never assigned anywhere, the slice is empty: all blocks are
/// dropped and the ownership cache is invalidated.
pub fn backward_variable_slice(cfg: &mut ControlFlowGraph, var: usize, pdg: &ProgramDependenceGraph)
    requires
        pdg_well_formed(pdg, old(cfg).blocks@),
        statements_well_formed(old(cfg).blocks@, pdg.data_dependencies.stmt_count as nat),
        var < pdg.data_dependencies.assignments@.len(),
    ensures
        match pdg.data_dependencies.assignments@[var as int] {
            Some(r) => sliced_blocks(
                old(cfg).blocks@,
                final(cfg).blocks@,
                pdg,
                r.members(),
                Set::empty(),
            ),
            None => final(cfg).blocks@.len() == 0 && final(cfg).statement_owners is None,
        },
{
    let input = BitSet::new_empty(pdg.data_dependencies.stmt_count);
    proof {
        assert(input.members() =~= Set::<int>::empty());
    }
    backward_variable_slice_assuming_input(cfg, input, var, pdg)
}

/// Slices the graph backwards from every statement that may assign `var`,
/// treating every statement that may assign one of the `input` variables as
/// already available.
pub fn backward_variable_slice_with_variables_as_input(
    cfg: &mut ControlFlowGraph,
    input: &Vec<usize>,
    var: usize,
    pdg: &ProgramDependenceGraph,
)
    requires
        pdg_well_formed(pdg, old(cfg).blocks@),
        statements_well_formed(old(cfg).blocks@, pdg.data_dependencies.stmt_count as nat),
        var < pdg.data_dependencies.assignments@.len(),
        forall|i: int|
            0 <= i < input@.len() ==> (#[trigger] input@[i])
                < pdg.data_dependencies.assignments@.len(),
    ensures
        match pdg.data_dependencies.assignments@[var as int] {
            Some(r) => sliced_blocks(
                old(cfg).blocks@,
                final(cfg).blocks@,
                pdg,
                r.members(),
                variables_input_set(pdg, input@),
            ),
            None => final(cfg).blocks@.len() == 0 && final(cfg).statement_owners is None,
        },
{
    let sc = pdg.data_dependencies.stmt_count;
    let mut input_statements = BitSet::new_empty(sc);
    let mut i: usize = 0;
    while i < input.len()
        invariant
            i <= input@.len(),
            sc == pdg.data_dependencies.stmt_count,
            pdg_well_formed(pdg, old(cfg).blocks@),
            forall|j: int|
                0 <= j < input@.len() ==> (#[trigger] input@[j])
                    < pdg.data_dependencies.assignments@.len(),
            input_statements@.len() == sc,
            forall|t: int|
                #![trigger input_statements.members().contains(t)]
                input_statements.members().contains(t) <==> variables_input_set(
                    pdg,
                    input@.take(i as int),
                ).contains(t),
        decreases input@.len() - i,
    {
        let v = input[i];
        let ghost pre = input_statements.members();
        match &pdg.data_dependencies.assignments[v] {
            Some(assignments) => {
                input_statements.union_with(assignments);
            },
            None => {},
        }
        proof {
            let prefix = input@.take(i as int);
            let prefix1 = input@.take(i + 1);
            assert(prefix1.drop_last() =~= prefix);
            assert(prefix1[i as int] == v);
            assert forall|t: int|
                input_statements.members().contains(t) <==> variables_input_set(
                    pdg,
                    prefix1,
                ).contains(t) by {
                let cur = pdg.data_dependencies.assignments@[v as int];
                if input_statements.members().contains(t) {
                    if pre.contains(t) {
                        let j = choose|j: int|
                            0 <= j < prefix.len() && opt_members(
                                pdg.data_dependencies.assignments@[prefix[j] as int],
                            ).contains(t);
                        assert(prefix1[j] == prefix[j]);
                        assert(variables_input_set(pdg, prefix1).contains(t));
                    } else {
                        assert(opt_members(cur).contains(t));
                        assert(variables_input_set(pdg, prefix1).contains(t));
                    }
                }
                if variables_input_set(pdg, prefix1).contains(t) {
                    let j = choose|j: int|
                        0 <= j < prefix1.len() && opt_members(
                            pdg.data_dependencies.assignments@[prefix1[j] as int],
                        ).contains(t);
                    if j < i {
                        assert(prefix[j] == prefix1[j]);
                        assert(variables_input_set(pdg, prefix).contains(t));
                        assert(pre.contains(t));
                    } else {
                        assert(opt_members(cur).contains(t));
                    }
                    assert(input_statements.members().contains(t));
                }
            }
        }
        i = i + 1;
    }
    proof {
        assert(input@.take(input@.len() as int) =~= input@);
        assert(input_statements.members() =~= variables_input_set(pdg, input@));
    }
    backward_variable_slice_assuming_input(cfg, input_statements, var, pdg)
}

} // verus!
