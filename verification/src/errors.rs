//! Error kinds reported back to clients and callers.

use vstd::prelude::*;
use vstd::string::StringExecFns;

verus! {

/// An error caused by client input that could not be understood.
#[derive(Debug, Clone, PartialEq, Eq)]
pub enum ClientError {
    InvalidInput(String),
}

impl ClientError {
    /// The textual form reported to clients.
    pub fn message(&self) -> (r: String)
        ensures
            r@ == "Invalid Input: "@ + self->InvalidInput_0@,
    {
        match self {
            ClientError::InvalidInput(s) => {
                let mut m: String = "Invalid Input: ".to_owned();
                m.append(s.as_str());
                m
            }
        }
    }
}

/// An error on the path that accepts and distributes a publication.
#[derive(Debug, Clone, PartialEq, Eq)]
pub enum PublicationError {
    DataLoggingError(String),
}

impl PublicationError {
    /// The textual form reported to clients.
    pub fn message(&self) -> (r: String)
        ensures
            r@ == "Could not log publication to the data log: "@
                + self->DataLoggingError_0@,
    {
        match self {
            PublicationError::DataLoggingError(s) => {
                let mut m: String = "Could not log publication to the data log: ".to_owned();
                m.append(s.as_str());
                m
            }
        }
    }
}

/// An error raised by the durable log store.
#[derive(Debug, Clone, PartialEq, Eq)]
pub enum DataLogError {
    FileSystem(String),
    DataLogRequest(String),
    SerializerError(String),
}

impl DataLogError {
    /// The textual form reported to callers.
    pub fn message(&self) -> (r: String)
        ensures
            self matches DataLogError::FileSystem(s) ==> r@
                == "Encountered error during file system interaction: "@ + s@,
            self matches DataLogError::DataLogRequest(s) ==> r@
                == "Sending DataLog message to DataLogger failed: "@ + s@,
            self matches DataLogError::SerializerError(s) ==> r@
                == "Could not serialize data for writing to disk: "@ + s@,
    {
        match self {
            DataLogError::FileSystem(s) => {
                let mut m: String = "Encountered error during file system interaction: "
                    .to_owned();
                m.append(s.as_str());
                m
            }
            DataLogError::DataLogRequest(s) => {
                let mut m: String = "Sending DataLog message to DataLogger failed: ".to_owned();
                m.append(s.as_str());
                m
            }
            DataLogError::SerializerError(s) => {
                let mut m: String = "Could not serialize data for writing to disk: ".to_owned();
                m.append(s.as_str());
                m
            }
        }
    }
}

} // verus!
