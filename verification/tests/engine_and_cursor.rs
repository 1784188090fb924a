use dataflow::analysis::{Analysis, Effect};
use dataflow::bitset::BitSet;
use dataflow::cfg::{BasicBlockData, ControlFlowGraph, Location, LocationKind};
use dataflow::engine::{iterate_to_fixpoint, Results};
use dataflow::cursors::ResultsCursor;
use dataflow::gen_kill::{GenKillAnalysisImpl, GenKillRow, TableGenKillAnalysis};
use dataflow::graph::Graph;

fn row(gens: Vec<usize>, kills: Vec<usize>) -> GenKillRow {
    GenKillRow { gens, kills }
}

/// A three-block straight line: block 0 holds statements 0 and 1, block 1
/// holds statement 2, block 2 holds statement 3; statement i defines bit i.
fn line_cfg() -> ControlFlowGraph {
    ControlFlowGraph {
        blocks: vec![
            BasicBlockData { statements: vec![0, 1], successors: vec![1], predecessors: vec![] },
            BasicBlockData { statements: vec![2], successors: vec![2], predecessors: vec![0] },
            BasicBlockData { statements: vec![3], successors: vec![], predecessors: vec![1] },
        ],
        statement_owners: None,
    }
}

fn defs_analysis(forward: bool) -> TableGenKillAnalysis {
    TableGenKillAnalysis {
        forward_analysis: forward,
        n_places: 4,
        stmt_rows: vec![
            vec![row(vec![0], vec![]), row(vec![1], vec![])],
            vec![row(vec![2], vec![])],
            vec![row(vec![3], vec![])],
        ],
        term_rows: vec![row(vec![], vec![]), row(vec![], vec![]), row(vec![], vec![])],
    }
}

fn forward_results() -> (ControlFlowGraph, Results<GenKillAnalysisImpl<TableGenKillAnalysis>>) {
    let cfg = line_cfg();
    let analysis = GenKillAnalysisImpl::new(defs_analysis(true), &cfg);
    let results = iterate_to_fixpoint(analysis, &cfg);
    (cfg, results)
}

fn bits(s: &BitSet, n: usize) -> Vec<usize> {
    let mut out = Vec::new();
    let mut i = 0;
    while i < n {
        if s.contains(i) {
            out.push(i);
        }
        i += 1;
    }
    out
}

#[test]
fn fixpoint_entry_sets_accumulate_definitions() {
    let (_cfg, results) = forward_results();
    assert_eq!(bits(results.entry_set_for_block(0), 4), vec![] as Vec<usize>);
    assert_eq!(bits(results.entry_set_for_block(1), 4), vec![0, 1]);
    assert_eq!(bits(results.entry_set_for_block(2), 4), vec![0, 1, 2]);
}

#[test]
fn cursor_replays_statement_effects_in_order() {
    let (cfg, results) = forward_results();
    let mut cursor = ResultsCursor::new(&cfg, results);
    let loc0 = Location { block: 0, kind: LocationKind::Statement(0) };
    cursor.seek_before_effect(loc0, &cfg);
    assert_eq!(bits(cursor.get(), 4), vec![] as Vec<usize>);
    cursor.seek_after_effect(loc0, &cfg);
    assert_eq!(bits(cursor.get(), 4), vec![0]);
    let loc1 = Location { block: 0, kind: LocationKind::Statement(1) };
    cursor.seek_after_effect(loc1, &cfg);
    assert_eq!(bits(cursor.get(), 4), vec![0, 1]);
    let term = Location { block: 0, kind: LocationKind::Terminator };
    cursor.seek_after_effect(term, &cfg);
    assert_eq!(bits(cursor.get(), 4), vec![0, 1]);
}

#[test]
fn cursor_result_is_independent_of_prior_position() {
    let (cfg, results) = forward_results();
    let mut cursor = ResultsCursor::new(&cfg, results);
    let loc1 = Location { block: 0, kind: LocationKind::Statement(1) };
    // forward pass: reach statement 1 going forwards
    cursor.seek_after_effect(loc1, &cfg);
    let forward_bits = bits(cursor.get(), 4);
    // jump elsewhere, then revisit statement 1 from a later position
    let loc2 = Location { block: 1, kind: LocationKind::Statement(0) };
    cursor.seek_after_effect(loc2, &cfg);
    cursor.seek_after_effect(loc1, &cfg);
    assert_eq!(bits(cursor.get(), 4), forward_bits);
}

#[test]
fn cursor_block_start_end_are_in_program_order() {
    let (cfg, results) = forward_results();
    let mut cursor = ResultsCursor::new(&cfg, results);
    cursor.seek_to_block_start(0, &cfg);
    assert_eq!(bits(cursor.get(), 4), vec![] as Vec<usize>);
    cursor.seek_to_block_end(0, &cfg);
    assert_eq!(bits(cursor.get(), 4), vec![0, 1]);
    cursor.seek_to_exit_block_end(&cfg);
    assert_eq!(bits(cursor.get(), 4), vec![0, 1, 2, 3]);
}

#[test]
fn custom_effect_forces_a_full_reset_on_the_next_seek() {
    let (cfg, results) = forward_results();
    let mut cursor = ResultsCursor::new(&cfg, results);
    let loc0 = Location { block: 0, kind: LocationKind::Statement(0) };
    cursor.seek_after_effect(loc0, &cfg);
    assert_eq!(bits(cursor.get(), 4), vec![0]);
    // scribble on the snapshot out of band
    cursor.apply_custom_effect(&cfg, |_a, d: &BitSet| {
        let mut out = d.clone_set();
        out.insert(3);
        out
    });
    assert_eq!(bits(cursor.get(), 4), vec![0, 3]);
    // the next seek resets to canonical state, even at the same location
    cursor.seek_after_effect(loc0, &cfg);
    assert_eq!(bits(cursor.get(), 4), vec![0]);
}

#[test]
fn cursor_finish_hands_out_the_snapshot() {
    let (cfg, results) = forward_results();
    let mut cursor = ResultsCursor::new(&cfg, results);
    cursor.seek_to_block_end(0, &cfg);
    assert_eq!(cursor.results().entry_sets.len(), 3);
    assert!(cursor.analysis().is_forward());
    let state = cursor.finish();
    assert_eq!(bits(&state, 4), vec![0, 1]);
}

#[test]
fn backward_analysis_propagates_along_predecessors() {
    // two blocks 0 -> 1; statement 1 (in block 1) generates bit 0 backwards
    let cfg = ControlFlowGraph {
        blocks: vec![
            BasicBlockData { statements: vec![0], successors: vec![1], predecessors: vec![] },
            BasicBlockData { statements: vec![1], successors: vec![], predecessors: vec![0] },
        ],
        statement_owners: None,
    };
    let analysis = TableGenKillAnalysis {
        forward_analysis: false,
        n_places: 2,
        stmt_rows: vec![vec![row(vec![], vec![])], vec![row(vec![0], vec![])]],
        term_rows: vec![row(vec![], vec![]), row(vec![], vec![])],
    };
    let packed = GenKillAnalysisImpl::new(analysis, &cfg);
    let results = iterate_to_fixpoint(packed, &cfg);
    // block 1's stored (exit) set stays empty; block 0 receives bit 0
    assert_eq!(bits(results.entry_set_for_block(1), 2), vec![] as Vec<usize>);
    assert_eq!(bits(results.entry_set_for_block(0), 2), vec![0]);
    // a backward cursor's block entry is the block's exit; block start
    // replays the whole block
    let mut cursor = ResultsCursor::new(&cfg, results);
    cursor.seek_to_block_end(1, &cfg);
    assert_eq!(bits(cursor.get(), 2), vec![] as Vec<usize>);
    cursor.seek_to_block_start(1, &cfg);
    assert_eq!(bits(cursor.get(), 2), vec![0]);
}

#[test]
fn effect_index_construction() {
    let cfg = line_cfg();
    let e = Effect::Before.at_index(2);
    assert_eq!(e.idx, 2);
    let term = Location { block: 0, kind: LocationKind::Terminator };
    let t = Effect::After.at_location(term, &cfg);
    assert_eq!(t.idx, 2); // block 0 has two statements
}

#[test]
fn graph_scaffolding_covers_every_block() {
    let cfg = line_cfg();
    let g = Graph::new(BitSet::new_empty(4), &cfg);
    assert_eq!(g.in_sets.len(), 3);
    assert_eq!(g.out_sets.len(), 3);
}

#[test]
fn fixpoint_converges_over_a_loop() {
    // 0 -> 1 -> 2 -> 1: the facts of the loop body flow around the cycle
    let cfg = ControlFlowGraph {
        blocks: vec![
            BasicBlockData { statements: vec![0], successors: vec![1], predecessors: vec![] },
            BasicBlockData { statements: vec![1], successors: vec![2], predecessors: vec![0, 2] },
            BasicBlockData { statements: vec![2], successors: vec![1], predecessors: vec![1] },
        ],
        statement_owners: None,
    };
    let analysis = TableGenKillAnalysis {
        forward_analysis: true,
        n_places: 3,
        stmt_rows: vec![
            vec![row(vec![0], vec![])],
            vec![row(vec![1], vec![])],
            vec![row(vec![2], vec![])],
        ],
        term_rows: vec![row(vec![], vec![]), row(vec![], vec![]), row(vec![], vec![])],
    };
    let packed = GenKillAnalysisImpl::new(analysis, &cfg);
    let results = iterate_to_fixpoint(packed, &cfg);
    assert_eq!(bits(results.entry_set_for_block(0), 3), vec![] as Vec<usize>);
    // block 1 receives facts both from block 0 and around the loop
    assert_eq!(bits(results.entry_set_for_block(1), 3), vec![0, 1, 2]);
    assert_eq!(bits(results.entry_set_for_block(2), 3), vec![0, 1, 2]);
}

#[test]
fn kill_sets_remove_facts() {
    // statement 1 kills the bit statement 0 generated, then generates its own
    let cfg = ControlFlowGraph {
        blocks: vec![BasicBlockData {
            statements: vec![0, 1],
            successors: vec![],
            predecessors: vec![],
        }],
        statement_owners: None,
    };
    let analysis = TableGenKillAnalysis {
        forward_analysis: true,
        n_places: 2,
        stmt_rows: vec![vec![row(vec![0], vec![]), row(vec![1], vec![0])]],
        term_rows: vec![row(vec![], vec![])],
    };
    let packed = GenKillAnalysisImpl::new(analysis, &cfg);
    let results = iterate_to_fixpoint(packed, &cfg);
    let mut cursor = ResultsCursor::new(&cfg, results);
    cursor.seek_to_block_end(0, &cfg);
    assert_eq!(bits(cursor.get(), 2), vec![1]);
}

#[test]
fn rerunning_one_iteration_on_a_fixed_point_changes_nothing() {
    // 0 -> 1 -> 2 -> 1 again: replay every block of the converged results and
    // join its outcome into each successor's stored set; nothing may change
    let cfg = ControlFlowGraph {
        blocks: vec![
            BasicBlockData { statements: vec![0], successors: vec![1], predecessors: vec![] },
            BasicBlockData { statements: vec![1], successors: vec![2], predecessors: vec![0, 2] },
            BasicBlockData { statements: vec![2], successors: vec![1], predecessors: vec![1] },
        ],
        statement_owners: None,
    };
    let analysis = TableGenKillAnalysis {
        forward_analysis: true,
        n_places: 3,
        stmt_rows: vec![
            vec![row(vec![0], vec![])],
            vec![row(vec![1], vec![2])],
            vec![row(vec![2], vec![1])],
        ],
        term_rows: vec![row(vec![], vec![]), row(vec![], vec![]), row(vec![], vec![])],
    };
    let packed = GenKillAnalysisImpl::new(analysis, &cfg);
    let results = iterate_to_fixpoint(packed, &cfg);
    let entries: Vec<BitSet> = (0..3).map(|b| results.entry_set_for_block(b).clone_set()).collect();
    let successors: Vec<Vec<usize>> = cfg.blocks.iter().map(|b| b.successors.clone()).collect();
    let mut cursor = ResultsCursor::new(&cfg, results);
    for b in 0..3 {
        cursor.seek_to_block_end(b, &cfg);
        let out = cursor.get().clone_set();
        for &succ in &successors[b] {
            let mut stored = entries[succ].clone_set();
            let changed = stored.union_with(&out);
            assert!(!changed, "block {b} still changes its successor {succ}");
        }
    }
}
