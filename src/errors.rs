use vstd::prelude::*;

verus! {

/// The two error domains of the parsers: a file-level failure (a file that
/// cannot be read, a malformed line) and a string-level failure (a task line
/// whose keyword or body is rejected).
#[derive(Debug)]
pub enum ParsingError {
    File(String),
    String(String),
}

impl ParsingError {
    /// The text carried by the error, without its domain prefix.
    pub fn message(&self) -> (r: &str)
        ensures
            r@ == match self {
                ParsingError::File(m) => m@,
                ParsingError::String(m) => m@,
            },
    {
        match self {
            ParsingError::File(m) => m.as_str(),
            ParsingError::String(m) => m.as_str(),
        }
    }

    /// The human-readable form of the error, prefixed by its domain.
    pub fn describe(&self) -> (r: String)
        ensures
            r@ == match self {
                ParsingError::File(m) => "Error parsing file: "@ + m@,
                ParsingError::String(m) => "Error parsing string: "@ + m@,
            },
    {
        match self {
            ParsingError::File(m) => String::from_str("Error parsing file: ").concat(m.as_str()),
            ParsingError::String(m) => String::from_str("Error parsing string: ").concat(
                m.as_str(),
            ),
        }
    }
}

} // verus!
