//! Test-plan synthesis for smart-contract interface descriptions.
//!
//! Given an interface description (instructions, their accounts and
//! arguments), a caller-chosen execution order and a program id, the
//! library builds an account registry, an instruction dependency graph,
//! an account initialization order, a PDA initialization sequence, the
//! setup steps a test harness must perform, and positive and negative
//! test cases for each instruction.

pub mod errors;
pub mod text;
pub mod idl;
pub mod parsed;
pub mod types;
pub mod toposort;
pub mod registry;
pub mod graph;
pub mod account_order;
pub mod pda_detector;
pub mod setup_generator;
pub mod test_case_generator;
pub mod analyzer;
pub mod laws;
pub mod naming;
pub mod cli;
