//! The closed set of error kinds surfaced by the adapter.

use vstd::prelude::*;

verus! {

/// Error when creating the backing table.
#[derive(Clone, Debug, PartialEq, Eq)]
pub enum CreateTableError {
    /// The create-table call failed at the transport or service level,
    /// for a reason other than the table already existing.
    CreateTable(String),
}

/// Errors that occur when using the scoped context.
///
/// Backend call failures carry the message reported by the transport layer;
/// the malformed-item variants signal data corruption and carry a description
/// of the stored type that was found in place of a binary blob.
#[derive(Clone, Debug, PartialEq, Eq)]
pub enum DynamoDbContextError {
    /// An error occurred while putting an item.
    Put(String),
    /// An error occurred while getting an item.
    Get(String),
    /// An error occurred while deleting an item.
    Delete(String),
    /// An error occurred while writing a batch of items.
    BatchWriteItem(String),
    /// An error occurred while running a range query.
    Query(String),
    /// The stored key attribute is missing.
    MissingKey,
    /// The key was stored as the named type instead of a binary blob.
    WrongKeyType(String),
    /// The stored value attribute is missing.
    MissingValue,
    /// The value was stored as the named type instead of a binary blob.
    WrongValueType(String),
    /// Canonical serialization of a value failed.
    BcsError(String),
    /// An error occurred while creating the table.
    CreateTable(CreateTableError),
    /// An expected item was absent entirely.
    NotFound(String),
}

impl DynamoDbContextError {
    /// Whether this error reports a malformed stored item: a missing key or
    /// value attribute, or one stored with a non-binary type.
    pub open spec fn is_malformed_item(self) -> bool {
        match self {
            DynamoDbContextError::MissingKey => true,
            DynamoDbContextError::WrongKeyType(_) => true,
            DynamoDbContextError::MissingValue => true,
            DynamoDbContextError::WrongValueType(_) => true,
            _ => false,
        }
    }
}

} // verus!
