//! The errors of the transport.

use vstd::prelude::*;
use crate::codecs::CodecError;

verus! {

/// `std::io::Error`, carried through as it is: the library makes none and
/// reads none.
#[verifier::external_type_specification]
#[verifier::external_body]
pub struct ExIoError(std::io::Error);

/// `std::str::Utf8Error`, carried through as it is.
#[verifier::external_type_specification]
#[verifier::external_body]
pub struct ExUtf8Error(std::str::Utf8Error);

/// An error that the peer reported, or that is to be reported to it.
#[derive(Clone, Debug, PartialEq, Eq)]
pub struct RemoteError {
    pub code: String,
    pub description: String,
}

impl RemoteError {
    /// An error with the given code and description; a missing code reads
    /// `UNKNOWN`, a missing description is empty.
    pub fn new(code: Option<&str>, description: Option<&str>) -> (err: RemoteError)
        ensures
            err.code@ == (match code {
                Some(c) => c@,
                None => "UNKNOWN"@,
            }),
            err.description@ == (match description {
                Some(d) => d@,
                None => ""@,
            }),
    {
        let code = match code {
            Some(c) => c.to_owned(),
            None => "UNKNOWN".to_owned(),
        };
        let description = match description {
            Some(d) => d.to_owned(),
            None => "".to_owned(),
        };
        RemoteError { code, description }
    }
}

/// What can go wrong on a connection.
#[derive(Debug)]
pub enum Error {
    ConfusedFrame,
    IncompleteErrorFrame,
    UnmatchedReply,
    RecvError,
    SendError,
    Codec(CodecError),
    Serde(crate::types::Error),
    Remote(RemoteError),
    IO(std::io::Error),
    InvalidUtf8(std::str::Utf8Error),
}

} // verus!
