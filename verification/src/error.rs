//! Errors of the analysis, and the faults that stand for them in contracts.
use vstd::prelude::*;

verus! {

/// Why code was found not to be verifiable.
#[derive(Debug, PartialEq, Eq)]
pub enum VerifyError {
    VerifyError(String),
}

/// Why an analysis failed.
#[derive(Debug, PartialEq, Eq)]
pub enum Error {
    /// The constant pool has no entry at the index.
    InvalidConstantPoolIndex(u16),
    /// The constant-pool entry at the index is not of the kind that is needed there.
    InvalidConstantPoolIndexType(u16),
    /// The text is not a field descriptor.
    InvalidFieldTypeDescriptor(String),
    /// The text is not a method descriptor, or its parameters need too many slots.
    InvalidMethodDescriptor(String),
    /// No instruction can be reached at the offset.
    InvalidInstructionOffset(u32),
    /// A number does not fit the integer type that it has to be held in.
    TryFromIntError,
    /// The code breaks a rule of the operand stack or of return addresses.
    VerificationError(VerifyError),
}

/// What an [`Error`] says.
pub enum Fault {
    InvalidConstantPoolIndex(u16),
    InvalidConstantPoolIndexType(u16),
    InvalidFieldTypeDescriptor(Seq<char>),
    InvalidMethodDescriptor(Seq<char>),
    InvalidInstructionOffset(u32),
    IntegerConversion,
    Verification(Seq<char>),
}

impl View for Error {
    type V = Fault;

    open spec fn view(&self) -> Fault {
        match *self {
            Error::InvalidConstantPoolIndex(index) => Fault::InvalidConstantPoolIndex(index),
            Error::InvalidConstantPoolIndexType(index) => Fault::InvalidConstantPoolIndexType(
                index,
            ),
            Error::InvalidFieldTypeDescriptor(text) => Fault::InvalidFieldTypeDescriptor(text@),
            Error::InvalidMethodDescriptor(text) => Fault::InvalidMethodDescriptor(text@),
            Error::InvalidInstructionOffset(offset) => Fault::InvalidInstructionOffset(offset),
            Error::TryFromIntError => Fault::IntegerConversion,
            Error::VerificationError(VerifyError::VerifyError(message)) => Fault::Verification(
                message@,
            ),
        }
    }
}

/// A result of running code says the same as a result in the model: the same value, or an error that
/// says what the fault says.
pub open spec fn agrees<T>(actual: Result<T, Error>, expected: Result<T, Fault>) -> bool {
    match (actual, expected) {
        (Ok(a), Ok(b)) => a == b,
        (Err(e), Err(f)) => e@ == f,
        _ => false,
    }
}

/// The error of code that breaks a rule, with a message that says which.
pub fn verification_error(message: String) -> (error: Error)
    ensures
        error@ == Fault::Verification(message@),
{
    Error::VerificationError(VerifyError::VerifyError(message))
}

/// A verification error with a fixed message.
pub(crate) fn violation(message: &str) -> (error: Error)
    ensures
        error@ == Fault::Verification(message@),
{
    verification_error(message.to_owned())
}

} // verus!
