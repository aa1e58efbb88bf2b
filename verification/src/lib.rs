//! A small DNS client library: the wire-format codec (header, question,
//! resource records, name compression) and the iterative resolver state
//! machine, with their behaviour stated as contracts.

use vstd::prelude::*;

pub mod header;
pub mod message;
pub mod name;
pub mod question;
pub mod resolver;
pub mod rr;
mod utility;

pub use utility::find_first_null;
pub use utility::to_u16;
pub use utility::to_u32;

verus! {

/// One error kind per way a message can be malformed, so callers can decide
/// "retry" versus "abort" without string inspection.
#[derive(Clone, Copy, Debug, PartialEq, Eq, Structural)]
pub enum DnsError {
    /// A hostname label is longer than 63 octets, a label length octet is
    /// out of range, or a decoded label is not valid text.
    InvalidLabel,
    /// Fewer than 12 octets remain where a header was expected.
    TruncatedHeader,
    /// Too few octets remain for a question's fixed fields.
    TruncatedQuestion,
    /// A wire-encoded name ends before its zero terminator or pointer.
    MissingTerminator,
    /// A compression pointer is cut short, does not point strictly backward,
    /// or chains past the hop budget.
    InvalidPointer,
    /// Fewer octets remain in a resource record than its declared lengths.
    RdataOverrun,
    /// The message does not carry exactly one question.
    UnsupportedQuestionCount,
}

} // verus!
