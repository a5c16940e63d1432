//! Why reading a routing table can fail.

use vstd::prelude::*;

verus! {

/// A failure of route-table parsing. Each one aborts the whole parse: no
/// partial list of routes is returned.
#[derive(Clone, Copy, Debug, PartialEq, Eq, Structural)]
pub enum Error {
    /// The text holds fewer than the two header lines.
    MissingHeader,
    /// A destination or gateway field is not a dotted-quad address.
    InvalidAddress,
    /// A flags field holds a character outside the known set.
    InvalidFlags,
    /// A row holds more fields than the table has columns.
    UnexpectedField,
}

impl Error {
    /// A short description of the failure.
    pub fn message(&self) -> (r: &'static str)
        ensures
            *self == Error::MissingHeader ==> r@ == "Parsing failed"@,
            *self == Error::InvalidAddress ==> r@ == "Address parsing failed"@,
            *self == Error::InvalidFlags ==> r@ == "Flag parsing failed"@,
            *self == Error::UnexpectedField ==> r@ == "Unexpected field in route table"@,
    {
        match self {
            Error::MissingHeader => "Parsing failed",
            Error::InvalidAddress => "Address parsing failed",
            Error::InvalidFlags => "Flag parsing failed",
            Error::UnexpectedField => "Unexpected field in route table",
        }
    }
}

} // verus!
