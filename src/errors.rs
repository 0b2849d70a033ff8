//! The errors that the store reports.
use vstd::prelude::*;

verus! {

/// What went wrong. Errors that come from outside the library (the file system,
/// the network, another engine) carry their message.
#[derive(Debug, Clone)]
pub enum KvsError {
    /// A key that the store does not hold was asked to be removed.
    KeyNotFound,
    /// The key directory pointed at a record that is not a `Put`.
    CommandNotSupported,
    /// A file or network operation failed.
    IoErr(String),
    /// A record or a frame could not be read or written.
    SerdeErr(String),
    /// An address did not parse as `ip:port`.
    IpParseErr(String),
    /// An error reported by the other side of a connection.
    StringErr(String),
    /// The other storage engine failed.
    SledErr(String),
    /// Stored bytes were not UTF-8.
    FromUtf8Error(String),
}

impl KvsError {
    /// The human-readable text of the error.
    pub open spec fn message_spec(&self) -> Seq<char> {
        match self {
            KvsError::KeyNotFound => "key is not found in KvStore"@,
            KvsError::CommandNotSupported => "command is not supported"@,
            KvsError::IoErr(m) => m@,
            KvsError::SerdeErr(m) => m@,
            KvsError::IpParseErr(m) => m@,
            KvsError::StringErr(m) => m@,
            KvsError::SledErr(m) => m@,
            KvsError::FromUtf8Error(m) => m@,
        }
    }

    /// The human-readable text of the error, as a reply carries it.
    pub fn message(&self) -> (r: String)
        ensures
            r@ == self.message_spec(),
    {
        match self {
            KvsError::KeyNotFound => String::from_str("key is not found in KvStore"),
            KvsError::CommandNotSupported => String::from_str("command is not supported"),
            KvsError::IoErr(m) => m.clone(),
            KvsError::SerdeErr(m) => m.clone(),
            KvsError::IpParseErr(m) => m.clone(),
            KvsError::StringErr(m) => m.clone(),
            KvsError::SledErr(m) => m.clone(),
            KvsError::FromUtf8Error(m) => m.clone(),
        }
    }
}

} // verus!
