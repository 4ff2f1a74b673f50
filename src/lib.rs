//! Arithmetic and operand-stack core of a stack-based bytecode virtual machine.
//!
//! Every value is a 256-bit machine word. Each operator pops its operands from
//! the operand stack, computes, and pushes one result; the contracts state the
//! result over the mathematical value of the words involved.
pub mod word;
pub mod stack;
pub mod arithmetic;
pub mod state;
pub mod stack_manip;
pub mod laws;
