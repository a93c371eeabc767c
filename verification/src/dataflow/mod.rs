//! Dataflow building blocks shared by the rules.
pub mod stack_machine;
pub mod frame;
pub mod opcode_semantics;
pub mod worklist;
