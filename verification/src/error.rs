//! The errors of the codec and of the resolver.

use vstd::prelude::*;

verus! {

/// Why an operation of this library failed.
#[derive(Clone, Copy, Debug, PartialEq, Eq, Structural, Hash)]
pub enum DnsError {
    /// A read, write or range went past the 512-byte capacity.
    BufferBounds,
    /// A name followed more compression pointers than the jump cap allows.
    MalformedName,
    /// A label longer than 63 bytes was asked to be written.
    LabelTooLong,
    /// The transport could not send or receive.
    TransportFailure,
    /// Resolution ran out of hops or nesting depth before a final reply.
    NoDelegationProgress,
}

impl DnsError {
    /// A short human-readable description of the error.
    pub fn message(&self) -> (text: &'static str)
        ensures
            text@ == error_text(*self),
    {
        match self {
            DnsError::BufferBounds => "End of buffer",
            DnsError::MalformedName => "Limit of 5 jumps exceeded",
            DnsError::LabelTooLong => "Single label exceeds 63 characters of length.",
            DnsError::TransportFailure => "Transport failure",
            DnsError::NoDelegationProgress => "No delegation progress",
        }
    }
}

/// The text that describes each error.
pub open spec fn error_text(e: DnsError) -> Seq<char> {
    match e {
        DnsError::BufferBounds => "End of buffer"@,
        DnsError::MalformedName => "Limit of 5 jumps exceeded"@,
        DnsError::LabelTooLong => "Single label exceeds 63 characters of length."@,
        DnsError::TransportFailure => "Transport failure"@,
        DnsError::NoDelegationProgress => "No delegation progress"@,
    }
}

} // verus!
