//! Why flattening a record can fail.

use vstd::prelude::*;

verus! {

/// The ways in which one flattening can fail. A tag without a colon is no
/// failure: it is passed over.
#[derive(Debug, Clone, Copy, PartialEq, Eq, Structural)]
pub enum FlattenError {
    /// The input text is no JSON value.
    MalformedInput,
    /// A value holds something that a record cannot carry: a number that is
    /// no integer, or more levels than the library reads.
    UnsupportedValue,
    /// The record is no object, has no field `tags`, or holds something
    /// other than an array there.
    MissingOrWrongTypeField,
    /// The program of the interpreted path did not compile.
    InvalidProgram,
    /// The expression engine stopped the program with an error.
    InterpretedPathEvaluationFailure,
}

/// The sentence that names a failure.
pub open spec fn message_of(error: FlattenError) -> Seq<char> {
    match error {
        FlattenError::MalformedInput => "the input is not a JSON value"@,
        FlattenError::UnsupportedValue => "the input holds a value that a record cannot carry"@,
        FlattenError::MissingOrWrongTypeField => "the record has no array under the field `tags`"@,
        FlattenError::InvalidProgram => "the program of the interpreted path does not compile"@,
        FlattenError::InterpretedPathEvaluationFailure => "the expression engine reported a failure"@,
    }
}

impl FlattenError {
    /// A sentence that names the failure.
    pub fn message(&self) -> (text: &'static str)
        ensures
            text@ == message_of(*self),
    {
        match self {
            FlattenError::MalformedInput => "the input is not a JSON value",
            FlattenError::UnsupportedValue => "the input holds a value that a record cannot carry",
            FlattenError::MissingOrWrongTypeField => {
                "the record has no array under the field `tags`"
            },
            FlattenError::InvalidProgram => "the program of the interpreted path does not compile",
            FlattenError::InterpretedPathEvaluationFailure => {
                "the expression engine reported a failure"
            },
        }
    }
}

} // verus!
