//! Error taxonomy of the synthesis pipeline.

use vstd::prelude::*;

verus! {

/// What can go wrong between segmentation and the final audio buffer.
#[derive(Clone, Copy, Debug, PartialEq, Eq, Structural)]
pub enum TtsError {
    /// The remote endpoint rejected the session credential.
    InvalidCredential,
    /// A remote call succeeded at the transport level but the payload
    /// field was absent from the reply.
    MalformedResponse,
    /// A single remote call failed at the network level.
    TransportFailure,
    /// Some, but not necessarily all, segment calls failed; no partial
    /// audio is ever emitted.
    PartialFailure,
    /// A segment's payload could not be decoded from its text-safe
    /// encoding.
    DecodeFailure,
}

impl TtsError {
    /// A human-readable description of the error.
    pub fn describe(&self) -> (r: &'static str)
        ensures
            r@ == self.describe_spec(),
    {
        match self {
            TtsError::InvalidCredential => "invalid session credential or API error",
            TtsError::MalformedResponse => "missing payload in response",
            TtsError::TransportFailure => "network failure",
            TtsError::PartialFailure => "some audio segments failed to generate",
            TtsError::DecodeFailure => "audio payload failed to decode",
        }
    }

    /// What `describe` returns for each variant.
    pub open spec fn describe_spec(&self) -> Seq<char> {
        match self {
            TtsError::InvalidCredential => "invalid session credential or API error"@,
            TtsError::MalformedResponse => "missing payload in response"@,
            TtsError::TransportFailure => "network failure"@,
            TtsError::PartialFailure => "some audio segments failed to generate"@,
            TtsError::DecodeFailure => "audio payload failed to decode"@,
        }
    }
}

} // verus!
