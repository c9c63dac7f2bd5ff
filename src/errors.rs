use vstd::prelude::*;

verus! {

/// Possible errors when handling dates and bank holidays.
#[derive(Debug, PartialEq, Eq)]
pub enum Error {
    /// Bank holiday data could not be parsed; holds the parser's message.
    Parsing(String),
    /// Bank holiday data could not be loaded; holds the loader's message.
    Request(String),
    /// Date is invalid.
    InvalidDate,
    /// Another kind of error, for custom sources of bank holidays.
    Generic(&'static str),
}

impl Error {
    /// Short description of the error, as shown to users.
    pub fn message(&self) -> (r: String) {
        match self {
            Error::Parsing(_) => String::from_str("Parsing error"),
            Error::Request(_) => String::from_str("Request error"),
            Error::InvalidDate => String::from_str("Invalid date"),
            Error::Generic(text) => String::from_str(text),
        }
    }
}

} // verus!
