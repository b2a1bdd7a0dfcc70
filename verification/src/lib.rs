//! A decompiler for a small stack-machine assembly language: basic-block
//! graph construction, dominator analysis, expression lifting and structural
//! recovery of `if` / `while`, each with a machine-checked contract.

pub mod builder;
pub mod builder_lemmas;
pub mod dominance;
pub mod dominators;
pub mod graph;
pub mod graphviz;
pub mod idom_lemmas;
pub mod lexer;
pub mod lifter;
pub mod parser;
pub mod passes;
pub mod pipeline;
pub mod printer;
pub mod structure;
pub mod structure_lemmas;
pub mod text;
pub mod untyped_ir;
