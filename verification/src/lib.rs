//! The maximum depth of the operand stack of a JVM method, calculated from its instructions.
//!
//! [`analysis`] holds the calculation and its contract. [`machine`] says what each instruction does to
//! the state of a method, and [`search`] what the result is.
//!
//! What that comes to is stated and proved apart from it: [`opcodes`] for each opcode, [`control`] for
//! where control goes, [`references`] and [`grammar`] for the constant pool and its descriptors,
//! [`answers`] and [`soundness`] for the results, and [`subroutines`], [`depth`], [`confinement`] and
//! [`capacity`] for return addresses, depths, states and stacks.
pub mod analysis;
pub mod answers;
pub mod arena;
pub mod bounds;
pub mod capacity;
pub mod collections;
pub mod confinement;
pub mod constant_pool;
pub mod control;
pub mod depth;
pub mod descriptor;
pub mod error;
pub mod flow;
pub mod grammar;
pub mod instruction;
pub mod locals;
pub mod machine;
pub mod opcodes;
pub mod operand;
pub mod references;
pub mod search;
pub mod soundness;
pub mod state;
pub mod subroutines;
pub mod text;
pub mod transfer;
pub mod value;
pub mod worklist;

pub use analysis::{max_stack_with_exception_table, MaxStack};
pub use constant_pool::ConstantPool;
pub use error::{Error, VerifyError};
pub use instruction::{ArrayType, ExceptionTableEntry, Instruction, LookupSwitch, TableSwitch};
