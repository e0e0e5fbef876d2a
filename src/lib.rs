//! Classification of the instructions in an executable's code sections by
//! the CPU feature each one requires.
pub mod binary;
pub mod cli;
pub mod counts;
pub mod error;
pub mod instr;
pub mod labels;
pub mod task;
