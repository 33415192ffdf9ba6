use vstd::prelude::*;

use crate::item::Attr;

verus! {

/// Infrastructure-level failures: none of these is recoverable by this
/// layer, and each store failure is tagged by the operation it occurred in.
/// Every variant carries an opaque description of the underlying cause.
#[derive(Debug)]
pub enum RuntimeError {
    /// A required configuration setting was missing at startup.
    ClientConfigLoadingError(String),
    /// A delete call to the store failed.
    DeleteItemError(String),
    /// A point-lookup call to the store failed.
    GetItemError(String),
    /// A put call to the store failed.
    PutItemError(String),
    /// A range-query call to the store failed.
    QueryError(String),
    /// A stored attribute could not be decoded into the expected type.
    DataError(Attr, String),
    /// The entity could not be converted to or from the store's attribute
    /// representation.
    SerializationError(String),
}

impl RuntimeError {
    /// The diagnostic text of this error: the variant's tag followed by
    /// the underlying cause's description.
    pub open spec fn spec_message(self) -> Seq<char> {
        match self {
            RuntimeError::ClientConfigLoadingError(c) => "ClientConfigLoadingError: "@ + c@,
            RuntimeError::DeleteItemError(c) => "DeleteItemError: "@ + c@,
            RuntimeError::GetItemError(c) => "GetItemError: "@ + c@,
            RuntimeError::PutItemError(c) => "PutItemError: "@ + c@,
            RuntimeError::QueryError(c) => "QueryError: "@ + c@,
            RuntimeError::DataError(_, c) => "DataError: "@ + c@,
            RuntimeError::SerializationError(c) => "SerializationError: "@ + c@,
        }
    }

    /// Renders the diagnostic text.
    pub fn message(&self) -> (r: String)
        ensures
            r@ == self.spec_message(),
    {
        match self {
            RuntimeError::ClientConfigLoadingError(c) => {
                let mut s = String::from_str("ClientConfigLoadingError: ");
                s.append(c.as_str());
                s
            },
            RuntimeError::DeleteItemError(c) => {
                let mut s = String::from_str("DeleteItemError: ");
                s.append(c.as_str());
                s
            },
            RuntimeError::GetItemError(c) => {
                let mut s = String::from_str("GetItemError: ");
                s.append(c.as_str());
                s
            },
            RuntimeError::PutItemError(c) => {
                let mut s = String::from_str("PutItemError: ");
                s.append(c.as_str());
                s
            },
            RuntimeError::QueryError(c) => {
                let mut s = String::from_str("QueryError: ");
                s.append(c.as_str());
                s
            },
            RuntimeError::DataError(_, c) => {
                let mut s = String::from_str("DataError: ");
                s.append(c.as_str());
                s
            },
            RuntimeError::SerializationError(c) => {
                let mut s = String::from_str("SerializationError: ");
                s.append(c.as_str());
                s
            },
        }
    }
}

} // verus!
