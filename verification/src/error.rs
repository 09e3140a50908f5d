//! The error taxonomy of the store.

use vstd::prelude::*;

verus! {

/// Everything that can go wrong in the store, on the wire, or in the
/// surrounding process.  Variants that wrap a lower-level failure carry
/// its rendered message.
#[derive(Debug)]
pub enum KvStoreError {
    /// A record or a wire object could not be decoded.
    SerdeError { error: String },
    /// A filesystem or network operation failed.
    IoError { error: String },
    /// A string that should have held a decimal integer did not.
    ParseIntError { error: String },
    /// Bytes that should have been text were not.
    Utf8Error { error: String },
    /// A socket address could not be parsed.
    AddrParseError { error: String },
    /// The key is not present in the store.
    KeyNotFoundError,
    /// The server answered a request with an error message.
    ServerError { error: String },
    /// The worker pool could not be built.
    PoolInitError { error: String },
}

impl KvStoreError {
    /// The human-readable message for this error, as the server writes it
    /// into a response and the client prints it.
    pub open spec fn spec_message(&self) -> Seq<char> {
        match self {
            KvStoreError::SerdeError { error } => "SerdeError: "@ + error@,
            KvStoreError::IoError { error } => "IoError: "@ + error@,
            KvStoreError::ParseIntError { error } => "ParseIntError: "@ + error@,
            KvStoreError::Utf8Error { error } => "Utf8Error: "@ + error@,
            KvStoreError::AddrParseError { error } => "AddrParseError: "@ + error@,
            KvStoreError::KeyNotFoundError => "Key not found"@,
            KvStoreError::ServerError { error } => "ServerError: "@ + error@,
            KvStoreError::PoolInitError { error } => "PoolInitError: "@ + error@,
        }
    }

    /// Renders the error as a message.
    pub fn message(&self) -> (s: String)
        ensures
            s@ == self.spec_message(),
    {
        match self {
            KvStoreError::SerdeError { error } => "SerdeError: ".to_owned().concat(
                error.as_str(),
            ),
            KvStoreError::IoError { error } => "IoError: ".to_owned().concat(error.as_str()),
            KvStoreError::ParseIntError { error } => "ParseIntError: ".to_owned().concat(
                error.as_str(),
            ),
            KvStoreError::Utf8Error { error } => "Utf8Error: ".to_owned().concat(error.as_str()),
            KvStoreError::AddrParseError { error } => "AddrParseError: ".to_owned().concat(
                error.as_str(),
            ),
            KvStoreError::KeyNotFoundError => "Key not found".to_owned(),
            KvStoreError::ServerError { error } => "ServerError: ".to_owned().concat(
                error.as_str(),
            ),
            KvStoreError::PoolInitError { error } => "PoolInitError: ".to_owned().concat(
                error.as_str(),
            ),
        }
    }
}

} // verus!
