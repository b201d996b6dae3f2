//! The interface of the worklist analyzers: a run to the fixpoint, and the
//! execution of a block, an instruction or a terminal.
use vstd::prelude::*;
use crate::analysis::{block_post, instr_post, term_post, Analyzer, AnalysisError};
use crate::domain::{Constant, Interval};
use crate::fixpoint::{constant_mfp_post, interval_mfp_post, rd_mfp_post};
use crate::lir::{Block, Instruction, Terminal};
use crate::rdef::{rd_block_post, ReachingDefinitionAnalyzer};

verus! {

/// An abstract execution of a function's blocks.
pub trait AbstractExecution: Sized {
    /// Whether an instruction or a terminal can be executed on its own.
    spec fn single_steps(&self) -> bool;

    /// Runs the analysis to its fixpoint, once.
    fn mfp(&mut self) -> (r: Result<(), AnalysisError>);

    /// Executes a block on its store.
    fn exe_block(&mut self, block: &Block) -> (r: Result<(), AnalysisError>);

    /// Executes one instruction on the store of a block.
    fn exe_instr(&mut self, instr: &Instruction, bb_label: &str) -> (r: Result<(), AnalysisError>)
        requires
            old(self).single_steps(),
    ;

    /// Executes a terminal on the store of a block.
    fn exe_term(&mut self, term: &Terminal, bb_label: &str) -> (r: Result<(), AnalysisError>)
        requires
            old(self).single_steps(),
    ;
}

impl AbstractExecution for Analyzer<Constant> {
    open spec fn single_steps(&self) -> bool {
        true
    }

    fn mfp(&mut self) -> (r: Result<(), AnalysisError>)
        ensures
            constant_mfp_post(*old(self), *final(self), r),
    {
        Analyzer::<Constant>::mfp(self)
    }

    fn exe_block(&mut self, block: &Block) -> (r: Result<(), AnalysisError>)
        ensures
            block_post(*old(self), *final(self), block@, r),
    {
        Analyzer::<Constant>::exe_block(self, block)
    }

    fn exe_instr(&mut self, instr: &Instruction, bb_label: &str) -> (r: Result<(), AnalysisError>)
        ensures
            instr_post(*old(self), *final(self), instr@, bb_label@, r),
    {
        Analyzer::<Constant>::exe_instr(self, instr, bb_label)
    }

    fn exe_term(&mut self, term: &Terminal, bb_label: &str) -> (r: Result<(), AnalysisError>)
        ensures
            term_post(*old(self), *final(self), term@, bb_label@, r),
    {
        Analyzer::<Constant>::exe_term(self, term, bb_label)
    }
}

impl AbstractExecution for Analyzer<Interval> {
    open spec fn single_steps(&self) -> bool {
        true
    }

    fn mfp(&mut self) -> (r: Result<(), AnalysisError>)
        ensures
            interval_mfp_post(*old(self), *final(self), r),
    {
        Analyzer::<Interval>::mfp(self)
    }

    fn exe_block(&mut self, block: &Block) -> (r: Result<(), AnalysisError>)
        ensures
            block_post(*old(self), *final(self), block@, r),
    {
        Analyzer::<Interval>::exe_block(self, block)
    }

    fn exe_instr(&mut self, instr: &Instruction, bb_label: &str) -> (r: Result<(), AnalysisError>)
        ensures
            instr_post(*old(self), *final(self), instr@, bb_label@, r),
    {
        Analyzer::<Interval>::exe_instr(self, instr, bb_label)
    }

    fn exe_term(&mut self, term: &Terminal, bb_label: &str) -> (r: Result<(), AnalysisError>)
        ensures
            term_post(*old(self), *final(self), term@, bb_label@, r),
    {
        Analyzer::<Interval>::exe_term(self, term, bb_label)
    }
}

impl AbstractExecution for ReachingDefinitionAnalyzer {
    /// Reaching definitions are computed per program point of a block; an
    /// instruction or a terminal is never executed on its own.
    open spec fn single_steps(&self) -> bool {
        false
    }

    fn mfp(&mut self) -> (r: Result<(), AnalysisError>)
        ensures
            rd_mfp_post(*old(self), *final(self), r),
    {
        ReachingDefinitionAnalyzer::mfp(self)
    }

    fn exe_block(&mut self, block: &Block) -> (r: Result<(), AnalysisError>)
        ensures
            rd_block_post(*old(self), *final(self), block@, r),
    {
        ReachingDefinitionAnalyzer::exe_block(self, block)
    }

    fn exe_instr(&mut self, instr: &Instruction, bb_label: &str) -> (r: Result<(), AnalysisError>) {
        Err(AnalysisError::NoInstruction)
    }

    fn exe_term(&mut self, term: &Terminal, bb_label: &str) -> (r: Result<(), AnalysisError>) {
        Err(AnalysisError::NoInstruction)
    }
}

} // verus!
