//! A code generator that lowers 32-bit integer instructions to programs of an
//! eight-symbol tape machine: one pointer on an endless tape of wrapping
//! byte cells, with steps, increments, loops and one-cell input and output
//! as its only commands.
//!
//! The generator is in [`generator`]: a command buffer with a one-command
//! cancellation rule, the pointer algebra, loops and conditionals, the
//! arithmetic routines, and the dispatch compiler that turns a program of
//! [`isa::Inst`] into text. The contract of each of its functions says
//! which commands the function appends, as a sequence defined in
//! [`command`], and what these commands do when they run.
//!
//! What running means is defined in [`machine`], a model of the tape
//! machine. [`effect`] proves what the generated code does on it, up to
//! the whole compiled program, and [`brackets`] that its loops are well
//! formed.
pub mod brackets;
pub mod command;
pub mod effect;
pub mod generator;
pub mod isa;
pub mod machine;
pub mod opcode;
