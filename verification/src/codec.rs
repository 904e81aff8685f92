//! Key codec: pure conversion between logical key/value pairs and the
//! stored attribute representation of the backing service.
//!
//! A stored item carries up to three attributes: a constant partition
//! attribute (a single zero byte, so that every item lives in one partition
//! and range scans see all keys in sorted order), a key attribute holding
//! the exact logical key as a binary blob, and — on put-type items only — a
//! value attribute holding the logical value as a binary blob.

use vstd::prelude::*;

use crate::bytes::{bytes_suffix, clone_bytes};
use crate::errors::DynamoDbContextError;

verus! {

/// The name of the partition attribute in the stored representation.
pub fn partition_attribute() -> (r: &'static str)
    ensures
        r@ == "item_partition"@,
{
    "item_partition"
}

/// The name of the key attribute (used as the sort key).
pub fn key_attribute() -> (r: &'static str)
    ensures
        r@ == "item_key"@,
{
    "item_key"
}

/// The name of the value attribute.
pub fn value_attribute() -> (r: &'static str)
    ensures
        r@ == "item_value"@,
{
    "item_value"
}

/// The dummy partition value shared by every item: a single zero byte.
pub open spec fn spec_dummy_partition() -> Seq<u8> {
    seq![0u8]
}

/// The dummy partition value shared by every item.
pub fn dummy_partition() -> (r: Vec<u8>)
    ensures
        r@ == spec_dummy_partition(),
{
    let mut r: Vec<u8> = Vec::new();
    r.push(0u8);
    proof {
        assert(r@ =~= spec_dummy_partition());
    }
    r
}

/// An attribute value as found in a stored item.
///
/// Only binary blobs carry their payload: the key and value attributes are
/// valid exactly when binary, and any other stored type is kept only as the
/// kind that a corruption error describes.
#[derive(Clone, Debug, PartialEq, Eq)]
pub enum StoredValue {
    /// A binary blob: the only well-formed type for keys and values.
    Binary(Vec<u8>),
    /// A boolean.
    Boolean,
    /// A list of binary blobs.
    BinaryList,
    /// A list.
    List,
    /// A map.
    Mapping,
    /// A number.
    Number,
    /// A list of numbers.
    NumberList,
    /// A null value.
    Null,
    /// A string.
    Text,
    /// A list of strings.
    TextList,
    /// A type this adapter does not recognize.
    Unknown,
}

/// A stored item, projected onto the three attributes the adapter reads.
///
/// An absent field models an item stored without that attribute.
#[derive(Clone, Debug, PartialEq, Eq)]
pub struct StoredItem {
    /// The partition attribute, if present.
    pub partition: Option<StoredValue>,
    /// The key attribute, if present.
    pub key: Option<StoredValue>,
    /// The value attribute, if present.
    pub value: Option<StoredValue>,
}

/// The description of a non-binary stored type, as carried by the
/// wrong-type corruption errors.
pub open spec fn spec_type_description(value: StoredValue) -> Seq<char> {
    match value {
        StoredValue::Binary(_) => Seq::<char>::empty(),
        StoredValue::Boolean => "a boolean"@,
        StoredValue::BinaryList => "a list of binary blobs"@,
        StoredValue::List => "a list"@,
        StoredValue::Mapping => "a map"@,
        StoredValue::Number => "a number"@,
        StoredValue::NumberList => "a list of numbers"@,
        StoredValue::Null => "a null value"@,
        StoredValue::Text => "a string"@,
        StoredValue::TextList => "a list of strings"@,
        StoredValue::Unknown => "an unknown type"@,
    }
}

fn type_description_of(value: &StoredValue) -> (r: String)
    requires
        !(value matches StoredValue::Binary(_)),
    ensures
        r@ == spec_type_description(*value),
{
    match value {
        StoredValue::Binary(_) => vstd::pervasive::unreached(),
        StoredValue::Boolean => "a boolean".to_owned(),
        StoredValue::BinaryList => "a list of binary blobs".to_owned(),
        StoredValue::List => "a list".to_owned(),
        StoredValue::Mapping => "a map".to_owned(),
        StoredValue::Number => "a number".to_owned(),
        StoredValue::NumberList => "a list of numbers".to_owned(),
        StoredValue::Null => "a null value".to_owned(),
        StoredValue::Text => "a string".to_owned(),
        StoredValue::TextList => "a list of strings".to_owned(),
        StoredValue::Unknown => "an unknown type".to_owned(),
    }
}

impl DynamoDbContextError {
    /// The wrong-key-type corruption error for a non-binary stored key.
    pub fn wrong_key_type(value: &StoredValue) -> (r: DynamoDbContextError)
        requires
            !(value matches StoredValue::Binary(_)),
        ensures
            r matches DynamoDbContextError::WrongKeyType(d) && d@ == spec_type_description(*value),
    {
        DynamoDbContextError::WrongKeyType(type_description_of(value))
    }

    /// The wrong-value-type corruption error for a non-binary stored value.
    pub fn wrong_value_type(value: &StoredValue) -> (r: DynamoDbContextError)
        requires
            !(value matches StoredValue::Binary(_)),
        ensures
            r matches DynamoDbContextError::WrongValueType(d) && d@ == spec_type_description(
                *value,
            ),
    {
        DynamoDbContextError::WrongValueType(type_description_of(value))
    }
}

/// Build the key attributes for a table item: the dummy partition and the
/// exact logical key, with no value attribute. This is the representation
/// used for lookups and deletes.
pub fn build_key(key: Vec<u8>) -> (r: StoredItem)
    ensures
        r.partition matches Some(StoredValue::Binary(p)) && p@ == spec_dummy_partition(),
        r.key matches Some(StoredValue::Binary(k)) && k@ == key@,
        r.value is None,
{
    StoredItem {
        partition: Some(StoredValue::Binary(dummy_partition())),
        key: Some(StoredValue::Binary(key)),
        value: None,
    }
}

/// Build the full attributes for storing a table item: the dummy partition,
/// the exact logical key, and the exact logical value.
pub fn build_key_value(key: Vec<u8>, value: Vec<u8>) -> (r: StoredItem)
    ensures
        r.partition matches Some(StoredValue::Binary(p)) && p@ == spec_dummy_partition(),
        r.key matches Some(StoredValue::Binary(k)) && k@ == key@,
        r.value matches Some(StoredValue::Binary(v)) && v@ == value@,
{
    StoredItem {
        partition: Some(StoredValue::Binary(dummy_partition())),
        key: Some(StoredValue::Binary(key)),
        value: Some(StoredValue::Binary(value)),
    }
}

/// Extract the key attribute from an item, stripped of the first
/// `prefix_len` bytes: queries are always made under a key prefix that the
/// caller re-supplies, so only the suffix past it is returned.
///
/// A missing key attribute or one stored with a non-binary type is a
/// data-corruption error.
pub fn extract_key(prefix_len: usize, attributes: &StoredItem) -> (r: Result<
    Vec<u8>,
    DynamoDbContextError,
>)
    requires
        attributes.key matches Some(StoredValue::Binary(k)) ==> prefix_len <= k@.len(),
    ensures
        match attributes.key {
            None => r == Err::<Vec<u8>, _>(DynamoDbContextError::MissingKey),
            Some(StoredValue::Binary(k)) => r matches Ok(s) && s@ == k@.skip(prefix_len as int),
            Some(v) => r matches Err(DynamoDbContextError::WrongKeyType(d)) && d@
                == spec_type_description(v),
        },
{
    match &attributes.key {
        None => Err(DynamoDbContextError::MissingKey),
        Some(StoredValue::Binary(k)) => Ok(bytes_suffix(k, prefix_len)),
        Some(v) => Err(DynamoDbContextError::wrong_key_type(v)),
    }
}

/// Extract the value attribute from an item.
///
/// A missing value attribute or one stored with a non-binary type is a
/// data-corruption error, never a silent absence.
pub fn extract_value(attributes: &StoredItem) -> (r: Result<Vec<u8>, DynamoDbContextError>)
    ensures
        match attributes.value {
            None => r == Err::<Vec<u8>, _>(DynamoDbContextError::MissingValue),
            Some(StoredValue::Binary(v)) => r matches Ok(b) && b@ == v@,
            Some(v) => r matches Err(DynamoDbContextError::WrongValueType(d)) && d@
                == spec_type_description(v),
        },
{
    match &attributes.value {
        None => Err(DynamoDbContextError::MissingValue),
        Some(StoredValue::Binary(v)) => Ok(clone_bytes(v)),
        Some(v) => Err(DynamoDbContextError::wrong_value_type(v)),
    }
}

/// Extract the value attribute from an item, removing it from the item to
/// avoid a copy.
pub fn extract_value_owned(attributes: &mut StoredItem) -> (r: Result<
    Vec<u8>,
    DynamoDbContextError,
>)
    ensures
        final(attributes).partition == old(attributes).partition,
        final(attributes).key == old(attributes).key,
        final(attributes).value is None,
        match old(attributes).value {
            None => r == Err::<Vec<u8>, _>(DynamoDbContextError::MissingValue),
            Some(StoredValue::Binary(v)) => r matches Ok(b) && b@ == v@,
            Some(v) => r matches Err(DynamoDbContextError::WrongValueType(d)) && d@
                == spec_type_description(v),
        },
{
    let taken = attributes.value.take();
    match taken {
        None => Err(DynamoDbContextError::MissingValue),
        Some(StoredValue::Binary(v)) => Ok(v),
        Some(v) => Err(DynamoDbContextError::wrong_value_type(&v)),
    }
}

/// Extract the key (past `prefix_len`) and the value from an item. A key
/// error takes precedence over a value error.
pub fn extract_key_value(prefix_len: usize, attributes: &StoredItem) -> (r: Result<
    (Vec<u8>, Vec<u8>),
    DynamoDbContextError,
>)
    requires
        attributes.key matches Some(StoredValue::Binary(k)) ==> prefix_len <= k@.len(),
    ensures
        match attributes.key {
            None => r == Err::<(Vec<u8>, Vec<u8>), _>(DynamoDbContextError::MissingKey),
            Some(StoredValue::Binary(k)) => match attributes.value {
                None => r == Err::<(Vec<u8>, Vec<u8>), _>(DynamoDbContextError::MissingValue),
                Some(StoredValue::Binary(v)) => r matches Ok(p) && p.0@ == k@.skip(prefix_len as int)
                    && p.1@ == v@,
                Some(w) => r matches Err(DynamoDbContextError::WrongValueType(d)) && d@
                    == spec_type_description(w),
            },
            Some(v) => r matches Err(DynamoDbContextError::WrongKeyType(d)) && d@
                == spec_type_description(v),
        },
{
    let key = match extract_key(prefix_len, attributes) {
        Ok(k) => k,
        Err(e) => {
            return Err(e);
        },
    };
    let value = match extract_value(attributes) {
        Ok(v) => v,
        Err(e) => {
            return Err(e);
        },
    };
    Ok((key, value))
}

/// Extract the key (past `prefix_len`) and the value from an item, removing
/// the value from the item. A key error takes precedence, and the value is
/// removed whenever it is reached.
pub fn extract_key_value_owned(prefix_len: usize, attributes: &mut StoredItem) -> (r: Result<
    (Vec<u8>, Vec<u8>),
    DynamoDbContextError,
>)
    requires
        old(attributes).key matches Some(StoredValue::Binary(k)) ==> prefix_len <= k@.len(),
    ensures
        final(attributes).partition == old(attributes).partition,
        final(attributes).key == old(attributes).key,
        match old(attributes).key {
            None => r == Err::<(Vec<u8>, Vec<u8>), _>(DynamoDbContextError::MissingKey),
            Some(StoredValue::Binary(k)) => final(attributes).value is None && match old(
                attributes,
            ).value {
                None => r == Err::<(Vec<u8>, Vec<u8>), _>(DynamoDbContextError::MissingValue),
                Some(StoredValue::Binary(v)) => r matches Ok(p) && p.0@ == k@.skip(prefix_len as int)
                    && p.1@ == v@,
                Some(w) => r matches Err(DynamoDbContextError::WrongValueType(d)) && d@
                    == spec_type_description(w),
            },
            Some(v) => r matches Err(DynamoDbContextError::WrongKeyType(d)) && d@
                == spec_type_description(v),
        },
{
    let key = match extract_key(prefix_len, attributes) {
        Ok(k) => k,
        Err(e) => {
            return Err(e);
        },
    };
    let value = match extract_value_owned(attributes) {
        Ok(v) => v,
        Err(e) => {
            return Err(e);
        },
    };
    Ok((key, value))
}

/// Interpret the response to a single-item read: no item means the key is
/// absent, an item with a binary value attribute yields the value, and an
/// item missing the value attribute, or holding it with a non-binary type,
/// is a data-corruption error rather than a silent absence.
pub fn read_item_value(item: Option<StoredItem>) -> (r: Result<
    Option<Vec<u8>>,
    DynamoDbContextError,
>)
    ensures
        match item {
            None => r == Ok::<Option<Vec<u8>>, DynamoDbContextError>(None),
            Some(it) => match it.value {
                None => r == Err::<Option<Vec<u8>>, _>(DynamoDbContextError::MissingValue),
                Some(StoredValue::Binary(v)) => r matches Ok(Some(b)) && b@ == v@,
                Some(w) => r matches Err(DynamoDbContextError::WrongValueType(d)) && d@
                    == spec_type_description(w),
            },
        },
        r matches Err(e) ==> e.is_malformed_item(),
{
    match item {
        None => Ok(None),
        Some(mut it) => match extract_value_owned(&mut it) {
            Ok(v) => Ok(Some(v)),
            Err(e) => Err(e),
        },
    }
}

} // verus!
