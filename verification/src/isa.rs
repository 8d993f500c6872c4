//! The instruction set that the generator accepts.
use vstd::prelude::*;

verus! {

/// One instruction of the source program.
///
/// Every instruction works on a stack of 32-bit values that lives on the tape.
#[derive(Clone, Copy, Debug, PartialEq, Eq, Hash, Structural)]
pub enum Inst {
    /// Push a constant.
    I32Const(i32),
    /// Replace the top value by its bitwise complement.
    I32Not,
    /// Pop two values and push their bitwise conjunction.
    I32And,
    /// Pop two values and push their bitwise disjunction.
    I32Or,
    /// Pop two values and push their bitwise exclusive disjunction.
    I32Xor,
    /// Pop the shift amount and the value, and push the value shifted left.
    I32Shl,
    /// Add one to the top value, wrapping at 32 bits.
    I32Inc,
    /// Pop the top value and write it in decimal.
    I32Print,
}

} // verus!
