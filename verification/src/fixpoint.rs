//! The worklist iterations of the analyses: steps until the worklist is
//! empty. Each iteration runs at most `u64::MAX` steps, a bound no run meets;
//! a run that met it would end with [`AnalysisError::StepLimit`].
use vstd::prelude::*;
use crate::analysis::{
    blocks_view, constant_step, counts_view, interval_step, zero_counts, zero_visits, Analyzer, AnalysisError,
};
use crate::cfg::{labels_view, node_labels};
use crate::domain::{Constant, Interval};
use crate::lir::{vars_view, BlockV, TypeV, VariableV};
use crate::rdef::{rd_mfp_step, RdState, ReachingDefinitionAnalyzer};
use crate::traversal::label_set;

verus! {

/// The state of a numeric analysis: worklist, stores, recorded successors and visit counts.
pub type NumericState<V> = (Seq<BlockV>, Seq<(Seq<char>, Map<VariableV, V>)>, Seq<(Seq<char>, Seq<Seq<char>>)>, Seq<(Seq<char>, u32)>);

/// At most `n` steps of the constant analysis, until the worklist is empty;
/// [`AnalysisError::StepLimit`] if it is not empty after them.
pub open spec fn constant_run(
    n: nat,
    s: NumericState<Constant>,
    nodes: Seq<(Seq<char>, BlockV)>,
    edges: Seq<(Seq<char>, Seq<char>)>,
    globals: Seq<VariableV>,
    addrof: Seq<VariableV>,
) -> Result<NumericState<Constant>, AnalysisError>
    decreases n,
{
    if s.0.len() == 0 {
        Ok(s)
    } else if n == 0 {
        Err(AnalysisError::StepLimit)
    } else {
        match constant_step::<Constant>(s.0, s.1, s.2, s.3, nodes, edges, globals, addrof) {
            Err(e) => Err(e),
            Ok(t) => constant_run((n - 1) as nat, t, nodes, edges, globals, addrof),
        }
    }
}

/// At most `n` steps of the interval analysis, until the worklist is empty;
/// [`AnalysisError::StepLimit`] if it is not empty after them.
pub open spec fn interval_run(
    n: nat,
    s: NumericState<Interval>,
    headers: Seq<Seq<char>>,
    nodes: Seq<(Seq<char>, BlockV)>,
    globals: Seq<VariableV>,
    addrof: Seq<VariableV>,
) -> Result<NumericState<Interval>, AnalysisError>
    decreases n,
{
    if s.0.len() == 0 {
        Ok(s)
    } else if n == 0 {
        Err(AnalysisError::StepLimit)
    } else {
        match interval_step(s.0, s.1, s.2, s.3, headers, nodes, globals, addrof) {
            Err(e) => Err(e),
            Ok(t) => interval_run((n - 1) as nat, t, headers, nodes, globals, addrof),
        }
    }
}

/// At most `n` steps of the reaching-definitions analysis, until the worklist
/// is empty; [`AnalysisError::StepLimit`] if it is not empty after them.
pub open spec fn rd_run(
    n: nat,
    wl: Seq<BlockV>,
    s: RdState,
    counts: Seq<(Seq<char>, u32)>,
    nodes: Seq<(Seq<char>, BlockV)>,
    edges: Seq<(Seq<char>, Seq<char>)>,
    addr: Seq<VariableV>,
    globals: Seq<VariableV>,
    greached: Set<TypeV>,
) -> Result<(Seq<BlockV>, RdState, Seq<(Seq<char>, u32)>), AnalysisError>
    decreases n,
{
    if wl.len() == 0 {
        Ok((wl, s, counts))
    } else if n == 0 {
        Err(AnalysisError::StepLimit)
    } else {
        match rd_mfp_step(wl, s, counts, nodes, edges, addr, globals, greached) {
            Err(e) => Err(e),
            Ok((w, t, c)) => rd_run((n - 1) as nat, w, t, c, nodes, edges, addr, globals, greached),
        }
    }
}

/// Running the constant analysis once: when it ran before, nothing changes;
/// else it is marked as executed and, from a zero visit count for every
/// block, the steps of [`constant_run`] give the worklist, the stores and the
/// recorded successors, or the error that stopped them.
pub open spec fn constant_mfp_post(a: Analyzer<Constant>, b: Analyzer<Constant>, r: Result<(), AnalysisError>) -> bool {
    &&& b.prog == a.prog
    &&& b.cfg == a.cfg
    &&& b.global_ints == a.global_ints
    &&& b.addrof_ints == a.addrof_ints
    &&& b.executed
    &&& !a.executed && r is Ok ==> b.worklist@.len() == 0
    &&& a.executed ==> r is Ok && b.worklist == a.worklist && b.stores() == a.stores() && b.succs() == a.succs()
    &&& !a.executed ==> match constant_run(
        u64::MAX as nat,
        (blocks_view(a.worklist@), a.stores(), a.succs(), zero_counts(node_labels(a.cfg.node_seq()))),
        a.cfg.node_seq(),
        a.cfg.edge_seq(),
        a.globals(),
        a.addrofs(),
    ) {
        Ok(t) => r is Ok && blocks_view(b.worklist@) == t.0 && b.stores() == t.1 && b.succs() == t.2,
        Err(e) => r == Err::<(), AnalysisError>(e),
    }
}

/// Running the interval analysis once: when it ran before, nothing changes;
/// else it is marked as executed and, with the loop headers of the graph
/// (in some order) and from a zero visit count for every block, the steps of
/// [`interval_run`] give the worklist, the stores and the recorded
/// successors, or the error that stopped them.
pub open spec fn interval_mfp_post(a: Analyzer<Interval>, b: Analyzer<Interval>, r: Result<(), AnalysisError>) -> bool {
    &&& b.prog == a.prog
    &&& b.cfg == a.cfg
    &&& b.global_ints == a.global_ints
    &&& b.addrof_ints == a.addrof_ints
    &&& b.executed
    &&& !a.executed && r is Ok ==> b.worklist@.len() == 0
    &&& a.executed ==> r is Ok && b.worklist == a.worklist && b.stores() == a.stores() && b.succs() == a.succs()
    &&& !a.executed ==> exists|hs: Seq<Seq<char>>|
        hs.to_set() == a.cfg.loop_header_set() && match #[trigger] interval_run(
            u64::MAX as nat,
            (blocks_view(a.worklist@), a.stores(), a.succs(), zero_counts(node_labels(a.cfg.node_seq()))),
            hs,
            a.cfg.node_seq(),
            a.globals(),
            a.addrofs(),
        ) {
            Ok(t) => r is Ok && blocks_view(b.worklist@) == t.0 && b.stores() == t.1 && b.succs() == t.2,
            Err(e) => r == Err::<(), AnalysisError>(e),
        }
}

/// Running the reaching-definitions analysis once: when it ran before,
/// nothing changes; else it is marked as executed and, from a zero visit
/// count for every block, the steps of [`rd_run`] give the worklist and the
/// state, or the error that stopped them.
pub open spec fn rd_mfp_post(a: ReachingDefinitionAnalyzer, b: ReachingDefinitionAnalyzer, r: Result<(), AnalysisError>) -> bool {
    &&& b.prog == a.prog
    &&& b.cfg == a.cfg
    &&& b.addr_taken == a.addr_taken
    &&& b.executed
    &&& !a.executed && r is Ok ==> b.worklist@.len() == 0
    &&& a.executed ==> r is Ok && b.worklist == a.worklist && b.state() == a.state()
    &&& !a.executed ==> match rd_run(
        u64::MAX as nat,
        blocks_view(a.worklist@),
        a.state(),
        zero_counts(node_labels(a.cfg.node_seq())),
        a.cfg.node_seq(),
        a.cfg.edge_seq(),
        vars_view(a.addr_taken@),
        vars_view(a.prog.globals@),
        a.globals_reached(),
    ) {
        Ok(t) => r is Ok && blocks_view(b.worklist@) == t.0 && b.state() == t.1,
        Err(e) => r == Err::<(), AnalysisError>(e),
    }
}

impl Analyzer<Constant> {
    /// Runs the constant analysis once: from a zero visit count for every
    /// block, steps ([`constant_step`]) until the worklist is empty.
    pub fn mfp(&mut self) -> (r: Result<(), AnalysisError>)
        ensures
            constant_mfp_post(*old(self), *final(self), r),
    {
        if self.executed {
            return Ok(());
        }
        let mut visited = zero_visits(&self.cfg);
        self.executed = true;
        let ghost nodes = self.cfg.node_seq();
        let ghost edges = self.cfg.edge_seq();
        let ghost globals = self.globals();
        let ghost addrof = self.addrofs();
        let ghost start = (blocks_view(self.worklist@), self.stores(), self.succs(), counts_view(visited@));
        let mut budget: u64 = u64::MAX;
        while budget > 0 && self.worklist.len() > 0
            invariant
                !old(self).executed,
                self.prog == old(self).prog,
                self.cfg == old(self).cfg,
                self.global_ints == old(self).global_ints,
                self.addrof_ints == old(self).addrof_ints,
                self.executed,
                start == (
                    blocks_view(old(self).worklist@),
                    old(self).stores(),
                    old(self).succs(),
                    zero_counts(node_labels(old(self).cfg.node_seq())),
                ),
                nodes == self.cfg.node_seq(),
                edges == self.cfg.edge_seq(),
                globals == self.globals(),
                addrof == self.addrofs(),
                constant_run(u64::MAX as nat, start, nodes, edges, globals, addrof) == constant_run(
                    budget as nat,
                    (blocks_view(self.worklist@), self.stores(), self.succs(), counts_view(visited@)),
                    nodes,
                    edges,
                    globals,
                    addrof,
                ),
            decreases budget,
        {
            let ghost cur = (blocks_view(self.worklist@), self.stores(), self.succs(), counts_view(visited@));
            assert(cur.0.len() > 0);
            match self.mfp_step(&mut visited) {
                Ok(()) => {},
                Err(e) => {
                    assert(constant_step::<Constant>(cur.0, cur.1, cur.2, cur.3, nodes, edges, globals, addrof) == Err::<
                        NumericState<Constant>,
                        AnalysisError,
                    >(e));
                    assert(constant_run(budget as nat, cur, nodes, edges, globals, addrof) == Err::<
                        NumericState<Constant>,
                        AnalysisError,
                    >(e));
                    return Err(e);
                },
            }
            budget -= 1;
        }
        if self.worklist.len() > 0 {
            return Err(AnalysisError::StepLimit);
        }
        Ok(())
    }
}

impl Analyzer<Interval> {
    /// Steps of the interval analysis with the given loop headers until the worklist is empty.
    #[verifier::rlimit(80)]
    #[verifier::spinoff_prover]
    fn run_with(&mut self, visited: &mut Vec<(String, u32)>, loop_headers: &Vec<String>) -> (r: Result<(), AnalysisError>)
        ensures
            final(self).prog == old(self).prog,
            final(self).cfg == old(self).cfg,
            final(self).executed == old(self).executed,
            final(self).global_ints == old(self).global_ints,
            final(self).addrof_ints == old(self).addrof_ints,
            r is Ok ==> final(self).worklist@.len() == 0,
            match interval_run(
                u64::MAX as nat,
                (blocks_view(old(self).worklist@), old(self).stores(), old(self).succs(), counts_view(old(visited)@)),
                labels_view(loop_headers@),
                old(self).cfg.node_seq(),
                old(self).globals(),
                old(self).addrofs(),
            ) {
                Ok(t) => r is Ok && blocks_view(final(self).worklist@) == t.0 && final(self).stores() == t.1
                    && final(self).succs() == t.2,
                Err(e) => r == Err::<(), AnalysisError>(e),
            },
    {
        let ghost nodes = self.cfg.node_seq();
        let ghost hs = labels_view(loop_headers@);
        let ghost globals = self.globals();
        let ghost addrof = self.addrofs();
        let ghost start = (blocks_view(self.worklist@), self.stores(), self.succs(), counts_view(visited@));
        let mut budget: u64 = u64::MAX;
        while budget > 0 && self.worklist.len() > 0
            invariant
                self.prog == old(self).prog,
                self.cfg == old(self).cfg,
                self.global_ints == old(self).global_ints,
                self.addrof_ints == old(self).addrof_ints,
                self.executed == old(self).executed,
                start == (blocks_view(old(self).worklist@), old(self).stores(), old(self).succs(), counts_view(old(visited)@)),
                nodes == self.cfg.node_seq(),
                hs == labels_view(loop_headers@),
                globals == self.globals(),
                addrof == self.addrofs(),
                interval_run(u64::MAX as nat, start, hs, nodes, globals, addrof) == interval_run(
                    budget as nat,
                    (blocks_view(self.worklist@), self.stores(), self.succs(), counts_view(visited@)),
                    hs,
                    nodes,
                    globals,
                    addrof,
                ),
            decreases budget,
        {
            let ghost cur = (blocks_view(self.worklist@), self.stores(), self.succs(), counts_view(visited@));
            assert(cur.0.len() > 0);
            match self.mfp_step(visited, loop_headers) {
                Ok(()) => {},
                Err(e) => {
                    assert(interval_step(cur.0, cur.1, cur.2, cur.3, hs, nodes, globals, addrof) == Err::<
                        NumericState<Interval>,
                        AnalysisError,
                    >(e));
                    assert(interval_run(budget as nat, cur, hs, nodes, globals, addrof) == Err::<
                        NumericState<Interval>,
                        AnalysisError,
                    >(e));
                    return Err(e);
                },
            }
            budget -= 1;
        }
        if self.worklist.len() > 0 {
            return Err(AnalysisError::StepLimit);
        }
        Ok(())
    }

    /// Runs the interval analysis once: with the loop headers of the graph,
    /// from a zero visit count for every block, steps ([`interval_step`])
    /// until the worklist is empty.
    pub fn mfp(&mut self) -> (r: Result<(), AnalysisError>)
        ensures
            interval_mfp_post(*old(self), *final(self), r),
    {
        if self.executed {
            return Ok(());
        }
        let loop_headers = self.cfg.get_loop_headers();
        let mut visited = zero_visits(&self.cfg);
        self.executed = true;
        let ghost hs = labels_view(loop_headers@);
        let r = self.run_with(&mut visited, &loop_headers);
        assert(hs.to_set() == label_set(loop_headers@));
        let ghost run = interval_run(
            u64::MAX as nat,
            (
                blocks_view(old(self).worklist@),
                old(self).stores(),
                old(self).succs(),
                zero_counts(node_labels(old(self).cfg.node_seq())),
            ),
            hs,
            old(self).cfg.node_seq(),
            old(self).globals(),
            old(self).addrofs(),
        );
        assert(match run {
            Ok(t) => r is Ok && blocks_view(self.worklist@) == t.0 && self.stores() == t.1 && self.succs() == t.2,
            Err(e) => r == Err::<(), AnalysisError>(e),
        });
        r
    }
}

impl ReachingDefinitionAnalyzer {
    /// Runs the reaching-definitions analysis once: from a zero visit count
    /// for every block, steps ([`rd_mfp_step`]) until the worklist is empty.
    pub fn mfp(&mut self) -> (r: Result<(), AnalysisError>)
        ensures
            rd_mfp_post(*old(self), *final(self), r),
    {
        if self.executed {
            return Ok(());
        }
        let mut visited = zero_visits(&self.cfg);
        self.executed = true;
        let ghost nodes = self.cfg.node_seq();
        let ghost edges = self.cfg.edge_seq();
        let ghost addr = vars_view(self.addr_taken@);
        let ghost globals = vars_view(self.prog.globals@);
        let ghost greached = self.globals_reached();
        let ghost wl0 = blocks_view(self.worklist@);
        let ghost s0 = self.state();
        let ghost c0 = counts_view(visited@);
        let mut budget: u64 = u64::MAX;
        while budget > 0 && self.worklist.len() > 0
            invariant
                !old(self).executed,
                wl0 == blocks_view(old(self).worklist@),
                s0 == old(self).state(),
                c0 == zero_counts(node_labels(old(self).cfg.node_seq())),
                self.prog == old(self).prog,
                self.cfg == old(self).cfg,
                self.addr_taken == old(self).addr_taken,
                self.executed,
                nodes == self.cfg.node_seq(),
                edges == self.cfg.edge_seq(),
                addr == vars_view(self.addr_taken@),
                globals == vars_view(self.prog.globals@),
                greached == self.globals_reached(),
                rd_run(u64::MAX as nat, wl0, s0, c0, nodes, edges, addr, globals, greached) == rd_run(
                    budget as nat,
                    blocks_view(self.worklist@),
                    self.state(),
                    counts_view(visited@),
                    nodes,
                    edges,
                    addr,
                    globals,
                    greached,
                ),
            decreases budget,
        {
            match self.mfp_step(&mut visited) {
                Ok(()) => {},
                Err(e) => {
                    return Err(e);
                },
            }
            budget -= 1;
        }
        if self.worklist.len() > 0 {
            return Err(AnalysisError::StepLimit);
        }
        Ok(())
    }
}

} // verus!
