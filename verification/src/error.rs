//! The ways in which assembling a program can fail.

use vstd::prelude::*;

verus! {

/// Why a line, a mnemonic or a symbol was rejected.
#[derive(Debug, Clone, Copy, PartialEq, Eq, Structural)]
pub enum AssemblyError {
    /// A line holds nothing but white space.
    EmptyInstruction,
    /// A compute instruction holds more than one `=`, or more than one `;`
    /// after its destination.
    MalformedInstruction,
    /// A computation, destination or jump field is none of the legal mnemonics.
    InvalidMnemonic,
    /// The value of an address instruction is no numeral, or a number that
    /// does not fit in 16 bits.
    InvalidLiteral,
    /// A symbol was looked up that the symbol table does not hold.
    UnboundSymbol,
    /// A counter would leave the 16-bit address range: the next free data
    /// address on allocating a variable, or the position of an instruction.
    AddressSpaceExhausted,
}

} // verus!
