//! Text-to-speech front end: splits unbounded text into byte-bounded
//! segments along natural punctuation boundaries, and reassembles the
//! per-segment audio payloads returned by a remote synthesis endpoint.

pub mod assemble;
pub mod errors;
pub mod request;
pub mod sanitize;
pub mod segment;

use vstd::prelude::*;

verus! {

/// Default maximum UTF-8 byte length of one outgoing request text.
pub const BYTE_LIMIT: usize = 300;

} // verus!
