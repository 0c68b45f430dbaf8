//! The ways a parse can fail.
use vstd::prelude::*;

verus! {

/// Why a schema or an input line was refused.
#[derive(PartialEq, Debug)]
pub enum ParseErr {
    /// A schema token is empty.
    InvalidSchema,
    /// A schema token's type suffix is none of `*`, `#`, `[*]`, `[#]`; carries the suffix.
    UnsupportedArgType(String),
    /// The input names a flag that the schema does not declare; carries the name.
    UnknownArg(String),
    /// A number flag received text that is no signed integer; carries the text.
    NumberFormatErr(String),
}

/// A `ParseErr` with its texts as character sequences.
pub enum Failure {
    InvalidSchema,
    UnsupportedArgType(Seq<char>),
    UnknownArg(Seq<char>),
    NumberFormatErr(Seq<char>),
}

impl View for ParseErr {
    type V = Failure;

    open spec fn view(&self) -> Failure {
        match self {
            ParseErr::InvalidSchema => Failure::InvalidSchema,
            ParseErr::UnsupportedArgType(s) => Failure::UnsupportedArgType(s@),
            ParseErr::UnknownArg(s) => Failure::UnknownArg(s@),
            ParseErr::NumberFormatErr(s) => Failure::NumberFormatErr(s@),
        }
    }
}

} // verus!
