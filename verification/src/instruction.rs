//! The operand model of the two comparison-and-arithmetic instructions the
//! surrounding virtual machine hands to this library's callers.
//!
//! Only the data shape is modeled here: which operands an instruction reads
//! and which register it writes. Evaluating an instruction is the virtual
//! machine's own business and stays outside this crate.

use vstd::prelude::*;

verus! {

/// A register of the surrounding virtual machine, named by its locator.
#[derive(Clone, Copy, PartialEq, Eq, Structural, Debug)]
pub struct Register {
    /// The register's position in the register file.
    pub locator: u64,
}

/// One input of an instruction: an immediate literal or a register.
#[derive(Clone, Copy, PartialEq, Eq, Structural, Debug)]
pub enum Operand {
    /// An immediate value.
    Literal(u64),
    /// A value read from a register.
    Register(Register),
}

/// An operation reading two operands and writing one register.
#[derive(Clone, Copy, PartialEq, Eq, Structural, Debug)]
pub struct BinaryOperation {
    /// The first operand.
    pub first: Operand,
    /// The second operand.
    pub second: Operand,
    /// The register the result is written to.
    pub destination: Register,
}

/// An operation reading one operand and writing one register.
#[derive(Clone, Copy, PartialEq, Eq, Structural, Debug)]
pub struct UnaryOperation {
    /// The only operand.
    pub first: Operand,
    /// The register the result is written to.
    pub destination: Register,
}

/// Checks whether `first` is less than `second`, storing the outcome in
/// `destination`.
#[derive(Clone, Copy, PartialEq, Eq, Structural, Debug)]
pub struct LessThan {
    /// The underlying binary operation.
    pub operation: BinaryOperation,
}

impl LessThan {
    /// Builds the instruction from its two operands and its destination.
    pub fn new(first: Operand, second: Operand, destination: Register) -> (instruction: LessThan)
        ensures
            instruction.operation.first == first,
            instruction.operation.second == second,
            instruction.operation.destination == destination,
    {
        LessThan { operation: BinaryOperation { first, second, destination } }
    }

    /// Returns the operands of the instruction, in reading order.
    pub fn operands(&self) -> (operands: Vec<Operand>)
        ensures
            operands@.len() == 2,
            operands@[0] == self.operation.first,
            operands@[1] == self.operation.second,
    {
        vec![self.operation.first, self.operation.second]
    }

    /// Returns the destination register of the instruction.
    pub fn destination(&self) -> (destination: &Register)
        ensures
            *destination == self.operation.destination,
    {
        &self.operation.destination
    }
}

/// Squares `first`, storing the outcome in `destination`.
#[derive(Clone, Copy, PartialEq, Eq, Structural, Debug)]
pub struct Square {
    /// The underlying unary operation.
    pub operation: UnaryOperation,
}

impl Square {
    /// Builds the instruction from its operand and its destination.
    pub fn new(first: Operand, destination: Register) -> (instruction: Square)
        ensures
            instruction.operation.first == first,
            instruction.operation.destination == destination,
    {
        Square { operation: UnaryOperation { first, destination } }
    }

    /// Returns the operands of the instruction.
    pub fn operands(&self) -> (operands: Vec<Operand>)
        ensures
            operands@.len() == 1,
            operands@[0] == self.operation.first,
    {
        vec![self.operation.first]
    }

    /// Returns the destination register of the instruction.
    pub fn destination(&self) -> (destination: &Register)
        ensures
            *destination == self.operation.destination,
    {
        &self.operation.destination
    }
}

} // verus!
