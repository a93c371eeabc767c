//! Verified core of a static analyzer for JVM class files.

pub mod bytecode;
pub mod callgraph;
pub mod classpath;
pub mod error;
pub mod flatten;
pub mod inputs;
pub mod text;
pub mod ir;
pub mod opcodes;
pub mod rules;
pub mod dataflow;
pub mod descriptor;
pub mod engine;
pub mod report;
