use vstd::prelude::*;

verus! {

/// The failures of an encode or a decode call. The first failure aborts the
/// call and is handed back as it is.
#[derive(Clone, Debug, PartialEq)]
pub enum Error {
    /// A failure raised by the layer that builds shapes, with its own text.
    Message(String),
    /// A byte pattern or a value that is not legal for its shape: a boolean
    /// byte other than 0 or 1, an unknown discriminant, a variable-length
    /// integer over its byte cap, a negative length, a value of another kind
    /// than its shape asks for.
    InvalidData,
    /// The shape asks for a construct that the codec does not implement.
    Unimplemented,
    /// Fewer bytes remain than the shape requires.
    Eof,
}

impl Error {
    /// Wraps a caller's message.
    pub fn custom(msg: String) -> (e: Error)
        ensures
            e matches Error::Message(m) && m@ == msg@,
    {
        Error::Message(msg)
    }

    /// A readable description of the failure.
    pub fn describe(&self) -> (s: String)
        ensures
            self matches Error::Message(m) ==> s@ == m@,
            self is InvalidData ==> s@ == "invalid data was received"@,
            self is Unimplemented ==> s@ == "the datatype is not implemented"@,
            self is Eof ==> s@ == "unexpected end of input"@,
    {
        match self {
            Error::Message(msg) => msg.clone(),
            Error::InvalidData => String::from_str("invalid data was received"),
            Error::Unimplemented => String::from_str("the datatype is not implemented"),
            Error::Eof => String::from_str("unexpected end of input"),
        }
    }
}

} // verus!
