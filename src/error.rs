use vstd::prelude::*;

verus! {

/// What can go wrong while serving a request.
#[derive(Clone, Copy, Debug, PartialEq, Eq, Structural)]
pub enum ServiceError {
    /// The upload is not a readable MP3 stream.
    Decode,
    /// The upload holds no complete analysis window.
    EmptyInput,
    /// The sample shares no hash with the reference.
    NoMatches,
    /// No reference is stored under the id asked for.
    UnknownReference,
    /// An internal limit or invariant was broken.
    Internal,
}

impl ServiceError {
    /// The HTTP status the error is reported with.
    pub fn status(&self) -> (r: u16)
        ensures
            r == match *self {
                ServiceError::Decode | ServiceError::EmptyInput | ServiceError::NoMatches => 400u16,
                ServiceError::UnknownReference => 404u16,
                ServiceError::Internal => 500u16,
            },
    {
        match self {
            ServiceError::Decode => 400,
            ServiceError::EmptyInput => 400,
            ServiceError::NoMatches => 400,
            ServiceError::UnknownReference => 404,
            ServiceError::Internal => 500,
        }
    }
}

} // verus!
