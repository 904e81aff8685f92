//! Table identity and lifecycle: validated table names and idempotent
//! interpretation of table creation outcomes.

use vstd::prelude::*;
use vstd::string::StringSliceAdditionalSpecFns;

use crate::errors::CreateTableError;

verus! {

/// Whether a byte may appear in a table name: lowercase ASCII letters
/// (`a` to `z`), digits (`0` to `9`), and `.`, `-`, `_`.
pub open spec fn is_allowed_table_byte(b: u8) -> bool {
    (97 <= b && b <= 122) || (48 <= b && b <= 57) || b == 46 || b == 45 || b == 95
}

/// Whether a byte string is a valid table name: between 3 and 63 bytes of
/// allowed characters.
pub open spec fn valid_table_name(bytes: Seq<u8>) -> bool {
    &&& 3 <= bytes.len()
    &&& bytes.len() <= 63
    &&& forall|i: int| 0 <= i < bytes.len() ==> is_allowed_table_byte(#[trigger] bytes[i])
}

/// A validated table name.
///
/// Construction through [`TableName::from_str`] checks the backing service's
/// naming rules; once constructed, a table name is immutable.
#[derive(Debug, PartialEq, Eq)]
pub struct TableName(pub String);

impl Clone for TableName {
    fn clone(&self) -> (r: TableName)
        ensures
            r == *self,
    {
        let r = TableName(self.0.clone());
        proof {
            assert(r == *self);
        }
        r
    }
}

impl View for TableName {
    type V = Seq<char>;

    open spec fn view(&self) -> Seq<char> {
        self.0@
    }
}

/// Error when validating a table name.
#[derive(Clone, Copy, Debug, PartialEq, Eq, Structural)]
pub enum InvalidTableName {
    /// The table name has fewer than 3 characters.
    TooShort,
    /// The table name has more than 63 characters.
    TooLong,
    /// The table name holds a character other than lowercase letters,
    /// digits, periods, hyphens and underscores.
    InvalidCharacter,
}

impl TableName {
    /// Validate a string as a table name.
    ///
    /// Length is checked before content: a name of the wrong length is
    /// reported as too short or too long even when it also holds a
    /// disallowed character.
    pub fn from_str(s: &str) -> (r: Result<TableName, InvalidTableName>)
        ensures
            match r {
                Ok(t) => t@ == s@ && valid_table_name(s.spec_bytes()),
                Err(InvalidTableName::TooShort) => s.spec_bytes().len() < 3,
                Err(InvalidTableName::TooLong) => s.spec_bytes().len() > 63,
                Err(InvalidTableName::InvalidCharacter) => 3 <= s.spec_bytes().len() <= 63
                    && !valid_table_name(s.spec_bytes()),
            },
    {
        let bytes = s.as_bytes();
        if bytes.len() < 3 {
            return Err(InvalidTableName::TooShort);
        }
        if bytes.len() > 63 {
            return Err(InvalidTableName::TooLong);
        }
        for i in 0..bytes.len()
            invariant
                bytes@ == s.spec_bytes(),
                3 <= bytes@.len() <= 63,
                forall|j: int| 0 <= j < i ==> is_allowed_table_byte(#[trigger] bytes@[j]),
        {
            let b = bytes[i];
            let allowed = (97 <= b && b <= 122) || (48 <= b && b <= 57) || b == 46 || b == 45
                || b == 95;
            if !allowed {
                return Err(InvalidTableName::InvalidCharacter);
            }
        }
        Ok(TableName(s.to_owned()))
    }

    /// The validated name as a string.
    pub fn as_ref(&self) -> (r: &String)
        ensures
            r@ == self@,
    {
        &self.0
    }
}

/// Status of a table after an attempt to ensure it exists.
#[derive(Clone, Copy, Debug, Eq, PartialEq, Structural)]
pub enum TableStatus {
    /// The table was created by this attempt.
    New,
    /// The table already existed.
    Existing,
}

/// The outcome of one create-table call, as classified at the transport
/// boundary: the call succeeded, the service reported that the table already
/// exists, or the call failed for any other reason.
#[derive(Clone, Debug, PartialEq, Eq)]
pub enum CreateTableOutcome {
    /// The service created the table.
    Success,
    /// The service reported a resource-in-use conflict: the table exists.
    AlreadyExists,
    /// The call failed with the given message.
    Failure(String),
}

/// How a create-table outcome is interpreted: an already-existing table is
/// success, not an error.
pub open spec fn spec_interpret_create_table(outcome: CreateTableOutcome) -> Result<
    TableStatus,
    CreateTableError,
> {
    match outcome {
        CreateTableOutcome::Success => Ok(TableStatus::New),
        CreateTableOutcome::AlreadyExists => Ok(TableStatus::Existing),
        CreateTableOutcome::Failure(m) => Err(CreateTableError::CreateTable(m)),
    }
}

/// Interpret the outcome of a create-table call.
///
/// A resource-in-use conflict reported by the service is recovered locally
/// and converted into [`TableStatus::Existing`]; any other failure is fatal.
pub fn interpret_create_table(outcome: CreateTableOutcome) -> (r: Result<
    TableStatus,
    CreateTableError,
>)
    ensures
        r == spec_interpret_create_table(outcome),
{
    match outcome {
        CreateTableOutcome::Success => Ok(TableStatus::New),
        CreateTableOutcome::AlreadyExists => Ok(TableStatus::Existing),
        CreateTableOutcome::Failure(m) => Err(CreateTableError::CreateTable(m)),
    }
}

/// Table creation is idempotent under concurrent initialization: of two
/// ensure-table attempts of which the backing service let at most one create
/// the table, the attempt that found the table in use reports `Existing`
/// rather than an error, and at most one attempt reports `New`.
pub proof fn lemma_idempotent_table_creation(first: CreateTableOutcome, second: CreateTableOutcome)
    requires
        !(first matches CreateTableOutcome::Success && second matches CreateTableOutcome::Success),
    ensures
        second matches CreateTableOutcome::AlreadyExists ==> spec_interpret_create_table(second)
            == Ok::<TableStatus, CreateTableError>(TableStatus::Existing),
        !(spec_interpret_create_table(first) == Ok::<TableStatus, CreateTableError>(
            TableStatus::New,
        ) && spec_interpret_create_table(second) == Ok::<TableStatus, CreateTableError>(
            TableStatus::New,
        )),
{
}

} // verus!
