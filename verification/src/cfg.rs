//! The control-flow-graph surface this library consumes: a block table, each
//! block holding an ordered statement list, one terminator, and its edges,
//! plus an invalidatable statement-ownership cache used by the slicer.

use vstd::prelude::*;

verus! {

/// A position within a basic block: one of its statements, or its terminator.
#[derive(Clone, Copy, PartialEq, Eq, Structural)]
pub enum LocationKind {
    Statement(usize),
    Terminator,
}

/// A program point: a block and a position inside it.
#[derive(Clone, Copy, PartialEq, Eq, Structural)]
pub struct Location {
    pub block: usize,
    pub kind: LocationKind,
}

/// One basic block: its statement handles in program order, and its edges.
/// Every block implicitly ends in one terminator.
pub struct BasicBlockData {
    pub statements: Vec<usize>,
    pub successors: Vec<usize>,
    pub predecessors: Vec<usize>,
}

/// A control-flow graph: a table of basic blocks. Block `0` is the entry
/// block; the last block is the exit block.
pub struct ControlFlowGraph {
    pub blocks: Vec<BasicBlockData>,
    /// Cached owner of each statement handle, or `None` when not computed.
    pub statement_owners: Option<Vec<usize>>,
}

/// Whether some block of the block table holds statement `s`.
pub open spec fn has_owner(blocks: Seq<BasicBlockData>, s: int) -> bool {
    exists|b: int| owns(blocks, b, s)
}

/// Whether block `b` of the block table holds statement `s`.
pub open spec fn owns(blocks: Seq<BasicBlockData>, b: int, s: int) -> bool {
    0 <= b < blocks.len() && blocks[b].statements@.contains(s as usize)
}

/// Every statement handle below `stmt_count` lies in exactly one block, at one
/// position, and every handle a block holds is below `stmt_count`.
pub open spec fn statements_well_formed(blocks: Seq<BasicBlockData>, stmt_count: nat) -> bool {
    &&& forall|b: int, j: int|
        0 <= b < blocks.len() && 0 <= j < blocks[b].statements@.len()
            ==> (#[trigger] blocks[b].statements@[j]) < stmt_count
    &&& forall|s: int| 0 <= s < stmt_count ==> #[trigger] has_owner(blocks, s)
    &&& forall|b1: int, b2: int, s: int|
        owns(blocks, b1, s) && owns(blocks, b2, s) ==> b1 == b2
    &&& forall|b: int, j1: int, j2: int|
        0 <= b < blocks.len() && 0 <= j1 < blocks[b].statements@.len() && 0 <= j2
            < blocks[b].statements@.len() && blocks[b].statements@[j1]
            == blocks[b].statements@[j2] ==> j1 == j2
}

/// The cache, when present, maps every owned statement to its owning block.
pub open spec fn owner_cache_consistent(cfg: &ControlFlowGraph, stmt_count: nat) -> bool {
    match cfg.statement_owners {
        Some(owners) => {
            &&& owners@.len() == stmt_count
            &&& forall|b: int, s: int|
                owns(cfg.blocks@, b, s) && 0 <= s < stmt_count ==> owners@[s] == b
        },
        None => true,
    }
}

impl ControlFlowGraph {
    /// The exit block of the graph.
    pub fn end(&self) -> (r: usize)
        requires
            self.blocks@.len() > 0,
        ensures
            r == self.blocks@.len() - 1,
    {
        self.blocks.len() - 1
    }

    /// Drops the statement-ownership cache; the next lookup recomputes it.
    pub fn invalidate_statement_owners(&mut self)
        ensures
            final(self).blocks == old(self).blocks,
            final(self).statement_owners is None,
    {
        self.statement_owners = None;
    }

    /// Computes and stores the statement-ownership cache.
    pub fn compute_statement_owners(&mut self, stmt_count: usize)
        requires
            statements_well_formed(old(self).blocks@, stmt_count as nat),
        ensures
            final(self).blocks == old(self).blocks,
            final(self).statement_owners is Some,
            final(self).statement_owners->Some_0@.len() == stmt_count,
            owner_cache_consistent(final(self), stmt_count as nat),
    {
        let mut owners: Vec<usize> = Vec::new();
        let mut s: usize = 0;
        while s < stmt_count
            invariant
                s <= stmt_count,
                owners@.len() == s,
            decreases stmt_count - s,
        {
            owners.push(0);
            s = s + 1;
        }
        let mut b: usize = 0;
        while b < self.blocks.len()
            invariant
                b <= self.blocks@.len(),
                owners@.len() == stmt_count,
                statements_well_formed(self.blocks@, stmt_count as nat),
                forall|bb: int, jj: int|
                    0 <= bb < b && 0 <= jj < self.blocks@[bb].statements@.len()
                        ==> owners@[#[trigger] self.blocks@[bb].statements@[jj] as int] == bb,
            decreases self.blocks@.len() - b,
        {
            let stmts_len = self.blocks[b].statements.len();
            let mut j: usize = 0;
            while j < stmts_len
                invariant
                    j <= stmts_len,
                    b < self.blocks@.len(),
                    stmts_len == self.blocks@[b as int].statements@.len(),
                    owners@.len() == stmt_count,
                    statements_well_formed(self.blocks@, stmt_count as nat),
                    forall|bb: int, jj: int|
                        0 <= bb < b && 0 <= jj < self.blocks@[bb].statements@.len()
                            ==> owners@[#[trigger] self.blocks@[bb].statements@[jj] as int] == bb,
                    forall|jj: int|
                        0 <= jj < j ==> owners@[#[trigger] self.blocks@[b as int].statements@[jj] as int]
                            == b,
                decreases stmts_len - j,
            {
                let s = self.blocks[b].statements[j];
                proof {
                    assert(self.blocks@[b as int].statements@[j as int] < stmt_count);
                }
                let ghost prev = owners@;
                owners.set(s, b);
                proof {
                    assert forall|bb: int, jj: int|
                        0 <= bb < b && 0 <= jj < self.blocks@[bb].statements@.len()
                            implies owners@[#[trigger] self.blocks@[bb].statements@[jj] as int]
                            == bb by {
                        let t = self.blocks@[bb].statements@[jj];
                        if t == s {
                            assert(owns(self.blocks@, bb, s as int)) by {
                                assert(self.blocks@[bb].statements@.contains(s));
                            }
                            assert(owns(self.blocks@, b as int, s as int)) by {
                                assert(self.blocks@[b as int].statements@[j as int] == s);
                                assert(self.blocks@[b as int].statements@.contains(s));
                            }
                            assert(bb == b as int);
                        } else {
                            assert(owners@[t as int] == prev[t as int]);
                        }
                    }
                    assert forall|jj: int|
                        0 <= jj < j + 1 implies owners@[#[trigger] self.blocks@[
                        b as int].statements@[jj] as int] == b by {
                        let t = self.blocks@[b as int].statements@[jj];
                        if jj < j {
                            if t == s {
                                assert(self.blocks@[b as int].statements@[jj]
                                    == self.blocks@[b as int].statements@[j as int]);
                                assert(jj == j);
                            } else {
                                assert(owners@[t as int] == prev[t as int]);
                            }
                        }
                    }
                }
                j = j + 1;
            }
            b = b + 1;
        }
        self.statement_owners = Some(owners);
        proof {
            assert forall|bb: int, s: int|
                owns(self.blocks@, bb, s) && 0 <= s < stmt_count implies owners@[s] == bb by {
                assert(self.blocks@[bb].statements@.contains(s as usize));
                let jj = choose|jj: int|
                    0 <= jj < self.blocks@[bb].statements@.len() && self.blocks@[
                    bb].statements@[jj] == s as usize;
                assert(owners@[self.blocks@[bb].statements@[jj] as int] == bb);
            }
        }
    }

    /// The block holding statement `stmt`, read from the ownership cache.
    pub fn containing_block(&self, stmt: usize) -> (r: Option<usize>)
        requires
            self.statement_owners is Some,
            owner_cache_consistent(self, self.statement_owners->Some_0@.len()),
            stmt < self.statement_owners->Some_0@.len(),
        ensures
            r == Some(self.statement_owners->Some_0@[stmt as int]),
            forall|b: int|
                owns(self.blocks@, b, stmt as int) ==> r == Some(b as usize),
    {
        match &self.statement_owners {
            Some(owners) => {
                let b = owners[stmt];
                Some(b)
            },
            None => None,
        }
    }
}

} // verus!
