use vstd::prelude::*;
use vstd::string::StringExecFns;

verus! {

/// Why a byte sequence is not an animation, or an animation has no byte form.
#[derive(Clone, Copy, Debug, PartialEq, Eq)]
pub enum BinaryFault {
    /// The bytes end before the record does.
    Truncated,
    /// A null-terminated text field is not UTF-8. Its bytes stand from place
    /// `start` up to place `end`, where its terminator stands.
    InvalidText { start: usize, end: usize },
    /// A stored count is negative, or a list is longer than its count field
    /// can say.
    CountOutOfRange,
}

/// What can go wrong in this library.
#[derive(Clone, Debug, PartialEq, Eq)]
pub enum AnimError {
    /// The binary form is broken.
    Binary(BinaryFault),
    /// A document does not have the shape of a pose; the text says how.
    InvalidStructure(String),
    /// The text of a document could not be parsed; the text is the parser's.
    Llsd(String),
}

impl AnimError {
    /// What [`AnimError::message`] says.
    pub open spec fn message_text(self) -> Seq<char> {
        match self {
            AnimError::Binary(BinaryFault::Truncated) => "Binary parsing error: unexpected end of data"@,
            AnimError::Binary(BinaryFault::InvalidText { .. }) => "Binary parsing error: invalid UTF-8 in null-terminated string"@,
            AnimError::Binary(BinaryFault::CountOutOfRange) => "Binary parsing error: count out of range"@,
            AnimError::InvalidStructure(why) => "Invalid structure: "@ + why@,
            AnimError::Llsd(why) => "LLSD parse error: "@ + why@,
        }
    }

    /// A line of text that says what went wrong.
    pub fn message(&self) -> (text: String)
        ensures
            text@ == self.message_text(),
    {
        match self {
            AnimError::Binary(BinaryFault::Truncated) => "Binary parsing error: unexpected end of data".to_owned(),
            AnimError::Binary(BinaryFault::InvalidText { .. }) => "Binary parsing error: invalid UTF-8 in null-terminated string".to_owned(),
            AnimError::Binary(BinaryFault::CountOutOfRange) => "Binary parsing error: count out of range".to_owned(),
            AnimError::InvalidStructure(why) => "Invalid structure: ".to_owned().concat(why.as_str()),
            AnimError::Llsd(why) => "LLSD parse error: ".to_owned().concat(why.as_str()),
        }
    }
}

} // verus!
