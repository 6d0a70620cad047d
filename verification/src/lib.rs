//! A small optimizing toolchain for an eight-instruction tape language:
//! a parser, a batching pass that folds runs of pointer and cell edits into
//! coarser blocks, a stack-driven interpreter for both program forms, and a
//! C code generator.
//!
//! Every function carries a contract over a mathematical model of its data:
//! programs are viewed as sequences of [`astraw::Instr`] or
//! [`astsoup::Block`], and the machine's memory as a [`vm::State`]. The
//! module [`equivalence`] proves that a program that runs to its end and its
//! optimized form write the same output.

pub mod astraw;
pub mod astsoup;
pub mod ctranspiler;
pub mod equivalence;
pub mod parser;
pub mod vm;
