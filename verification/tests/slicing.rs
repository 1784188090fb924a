use dataflow::bitset::BitSet;
use dataflow::cfg::{BasicBlockData, ControlFlowGraph};
use dataflow::slicing::{backward_slice, backward_variable_slice,
    backward_variable_slice_assuming_input, backward_variable_slice_with_variables_as_input,
    ProgramDependenceGraph, UseDefGraph};

fn set(universe: usize, members: &[usize]) -> BitSet {
    let mut s = BitSet::new_empty(universe);
    for &m in members {
        s.insert(m);
    }
    s
}

/// One block holding statements 0..5 in a chain: statement i+1 uses
/// statement i. No control dependencies.
fn chain_cfg_and_pdg() -> (ControlFlowGraph, ProgramDependenceGraph) {
    let cfg = ControlFlowGraph {
        blocks: vec![BasicBlockData {
            statements: vec![0, 1, 2, 3, 4],
            successors: vec![],
            predecessors: vec![],
        }],
        statement_owners: None,
    };
    let pdg = ProgramDependenceGraph {
        data_dependencies: UseDefGraph {
            stmt_count: 5,
            assignments: vec![Some(set(5, &[3])), None, Some(set(5, &[1]))],
            stmt_use_def_chains: vec![
                None,
                Some(set(5, &[0])),
                Some(set(5, &[1])),
                Some(set(5, &[2])),
                Some(set(5, &[3])),
            ],
            terminator_use_def_chains: vec![None],
        },
        control_dependencies: vec![None],
    };
    (cfg, pdg)
}

#[test]
fn slice_keeps_the_backward_closure_of_the_seeds() {
    let (mut cfg, pdg) = chain_cfg_and_pdg();
    backward_slice(&mut cfg, set(5, &[3]), set(5, &[]), &pdg);
    assert_eq!(cfg.blocks[0].statements, vec![0, 1, 2, 3]);
}

#[test]
fn assumed_statements_cut_the_slice() {
    let (mut cfg, pdg) = chain_cfg_and_pdg();
    // statement 1 is assumed available: nothing before it is kept
    backward_slice(&mut cfg, set(5, &[3]), set(5, &[1]), &pdg);
    assert_eq!(cfg.blocks[0].statements, vec![2, 3]);
}

#[test]
fn assuming_a_seed_does_not_cut_its_own_walk() {
    // assumed statements cut the walk only where a dependency reaches them;
    // a seed is walked even if it is also assumed
    let (mut cfg, pdg) = chain_cfg_and_pdg();
    backward_slice(&mut cfg, set(5, &[3]), set(5, &[3]), &pdg);
    assert_eq!(cfg.blocks[0].statements, vec![0, 1, 2, 3]);
}

#[test]
fn enlarging_the_seeds_only_enlarges_the_slice() {
    let (mut cfg1, pdg) = chain_cfg_and_pdg();
    backward_slice(&mut cfg1, set(5, &[3]), set(5, &[1]), &pdg);
    let (mut cfg2, _) = chain_cfg_and_pdg();
    backward_slice(&mut cfg2, set(5, &[3, 4]), set(5, &[1]), &pdg);
    for s in &cfg1.blocks[0].statements {
        assert!(cfg2.blocks[0].statements.contains(s));
    }
    assert_eq!(cfg2.blocks[0].statements, vec![2, 3, 4]);
}

#[test]
fn control_dependencies_pull_in_terminator_uses() {
    // block 0 branches on statement 0; block 1 executes under that branch
    let mut cfg = ControlFlowGraph {
        blocks: vec![
            BasicBlockData { statements: vec![0], successors: vec![1], predecessors: vec![] },
            BasicBlockData { statements: vec![1], successors: vec![], predecessors: vec![0] },
        ],
        statement_owners: None,
    };
    let pdg = ProgramDependenceGraph {
        data_dependencies: UseDefGraph {
            stmt_count: 2,
            assignments: vec![Some(set(2, &[1]))],
            stmt_use_def_chains: vec![None, None],
            terminator_use_def_chains: vec![Some(set(2, &[0])), None],
        },
        control_dependencies: vec![None, Some(set(2, &[0]))],
    };
    backward_variable_slice(&mut cfg, 0, &pdg);
    // the branch statement is kept because block 1 control-depends on block 0
    assert_eq!(cfg.blocks[0].statements, vec![0]);
    assert_eq!(cfg.blocks[1].statements, vec![1]);
}

#[test]
fn slicing_an_unassigned_variable_empties_the_graph() {
    let (mut cfg, pdg) = chain_cfg_and_pdg();
    backward_variable_slice(&mut cfg, 1, &pdg);
    assert_eq!(cfg.blocks.len(), 0);
}

#[test]
fn variable_slice_seeds_from_its_assignments() {
    let (mut cfg, pdg) = chain_cfg_and_pdg();
    backward_variable_slice(&mut cfg, 0, &pdg);
    assert_eq!(cfg.blocks[0].statements, vec![0, 1, 2, 3]);
}

#[test]
fn variable_inputs_cut_at_their_assignments() {
    let (mut cfg, pdg) = chain_cfg_and_pdg();
    // variable 2 is assigned by statement 1; treating it as an input cuts
    // the walk from variable 0's assignment (statement 3) at statement 1
    let input = vec![2usize];
    backward_variable_slice_with_variables_as_input(&mut cfg, &input, 0, &pdg);
    assert_eq!(cfg.blocks[0].statements, vec![2, 3]);
}

#[test]
fn assuming_input_statements_directly() {
    let (mut cfg, pdg) = chain_cfg_and_pdg();
    // the seed's only dependency, statement 2, is assumed: the walk stops
    backward_variable_slice_assuming_input(&mut cfg, set(5, &[2]), 0, &pdg);
    assert_eq!(cfg.blocks[0].statements, vec![3]);
}

#[test]
fn edges_survive_slicing() {
    let mut cfg = ControlFlowGraph {
        blocks: vec![
            BasicBlockData { statements: vec![0], successors: vec![1], predecessors: vec![] },
            BasicBlockData { statements: vec![1], successors: vec![], predecessors: vec![0] },
        ],
        statement_owners: None,
    };
    let pdg = ProgramDependenceGraph {
        data_dependencies: UseDefGraph {
            stmt_count: 2,
            assignments: vec![],
            stmt_use_def_chains: vec![None, None],
            terminator_use_def_chains: vec![None, None],
        },
        control_dependencies: vec![None, None],
    };
    backward_slice(&mut cfg, set(2, &[1]), set(2, &[]), &pdg);
    assert_eq!(cfg.blocks.len(), 2);
    assert_eq!(cfg.blocks[0].statements, Vec::<usize>::new());
    assert_eq!(cfg.blocks[1].statements, vec![1]);
    assert_eq!(cfg.blocks[0].successors, vec![1]);
    assert_eq!(cfg.blocks[1].predecessors, vec![0]);
}

#[test]
fn owner_cache_is_computed_and_invalidated() {
    let (mut cfg, _pdg) = chain_cfg_and_pdg();
    cfg.compute_statement_owners(5);
    assert_eq!(cfg.containing_block(3), Some(0));
    cfg.invalidate_statement_owners();
    assert!(cfg.statement_owners.is_none());
}
