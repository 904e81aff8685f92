//! Unit tests for the codec, table identity, error classification and the
//! paginated cursors.

use dynamo_store::codec::{
    build_key, build_key_value, dummy_partition, extract_key, extract_key_value,
    extract_key_value_owned, extract_value, extract_value_owned, key_attribute,
    partition_attribute, read_item_value, value_attribute, StoredItem, StoredValue,
};
use dynamo_store::errors::{CreateTableError, DynamoDbContextError};
use dynamo_store::scan::{check_page, DynamoDbKeyValues, DynamoDbKeys, ScanStep};
use dynamo_store::table::{
    interpret_create_table, CreateTableOutcome, InvalidTableName, TableName, TableStatus,
};

#[test]
fn stored_item_wire_shape() {
    assert_eq!(partition_attribute(), "item_partition");
    assert_eq!(key_attribute(), "item_key");
    assert_eq!(value_attribute(), "item_value");
    assert_eq!(dummy_partition(), vec![0u8]);

    let item = build_key(b"k".to_vec());
    assert_eq!(item.partition, Some(StoredValue::Binary(vec![0u8])));
    assert_eq!(item.key, Some(StoredValue::Binary(b"k".to_vec())));
    assert_eq!(item.value, None);

    let item = build_key_value(b"k".to_vec(), b"v".to_vec());
    assert_eq!(item.partition, Some(StoredValue::Binary(vec![0u8])));
    assert_eq!(item.key, Some(StoredValue::Binary(b"k".to_vec())));
    assert_eq!(item.value, Some(StoredValue::Binary(b"v".to_vec())));
}

#[test]
fn extracting_strips_the_prefix() {
    let item = build_key_value(b"prefix/suffix".to_vec(), b"v".to_vec());
    assert_eq!(extract_key(7, &item).unwrap(), b"suffix".to_vec());
    assert_eq!(extract_key(0, &item).unwrap(), b"prefix/suffix".to_vec());
    assert_eq!(extract_value(&item).unwrap(), b"v".to_vec());
    assert_eq!(
        extract_key_value(7, &item).unwrap(),
        (b"suffix".to_vec(), b"v".to_vec())
    );
}

#[test]
fn owned_extraction_removes_the_value() {
    let mut item = build_key_value(b"k".to_vec(), b"v".to_vec());
    assert_eq!(extract_value_owned(&mut item).unwrap(), b"v".to_vec());
    assert_eq!(item.value, None);
    assert_eq!(item.key, Some(StoredValue::Binary(b"k".to_vec())));
    assert_eq!(
        extract_value_owned(&mut item),
        Err(DynamoDbContextError::MissingValue)
    );

    let mut item = build_key_value(b"ab".to_vec(), b"v".to_vec());
    assert_eq!(
        extract_key_value_owned(1, &mut item).unwrap(),
        (b"b".to_vec(), b"v".to_vec())
    );
    assert_eq!(item.value, None);
}

#[test]
fn malformed_item_detection() {
    // An item stored without the value attribute fails the read with the
    // malformed-item error, not a silent absence.
    let item = build_key(b"k".to_vec());
    assert_eq!(
        read_item_value(Some(item)),
        Err(DynamoDbContextError::MissingValue)
    );
    // No item at all is a plain absence.
    assert_eq!(read_item_value(None), Ok(None));

    let missing_key = StoredItem {
        partition: Some(StoredValue::Binary(vec![0u8])),
        key: None,
        value: Some(StoredValue::Binary(b"v".to_vec())),
    };
    assert_eq!(
        extract_key(0, &missing_key),
        Err(DynamoDbContextError::MissingKey)
    );

    let wrong_types = StoredItem {
        partition: Some(StoredValue::Binary(vec![0u8])),
        key: Some(StoredValue::Number),
        value: Some(StoredValue::Text),
    };
    assert_eq!(
        extract_key(0, &wrong_types),
        Err(DynamoDbContextError::WrongKeyType("a number".to_string()))
    );
    assert_eq!(
        extract_value(&wrong_types),
        Err(DynamoDbContextError::WrongValueType("a string".to_string()))
    );
    assert_eq!(
        read_item_value(Some(wrong_types)),
        Err(DynamoDbContextError::WrongValueType("a string".to_string()))
    );

    let wrong_value = StoredItem {
        partition: None,
        key: Some(StoredValue::Binary(b"k".to_vec())),
        value: Some(StoredValue::List),
    };
    assert_eq!(
        extract_value(&wrong_value),
        Err(DynamoDbContextError::WrongValueType("a list".to_string()))
    );
}

#[test]
fn wrong_type_descriptions() {
    let cases: Vec<(StoredValue, &str)> = vec![
        (StoredValue::Boolean, "a boolean"),
        (StoredValue::BinaryList, "a list of binary blobs"),
        (StoredValue::List, "a list"),
        (StoredValue::Mapping, "a map"),
        (StoredValue::Number, "a number"),
        (StoredValue::NumberList, "a list of numbers"),
        (StoredValue::Null, "a null value"),
        (StoredValue::Text, "a string"),
        (StoredValue::TextList, "a list of strings"),
        (StoredValue::Unknown, "an unknown type"),
    ];
    for (value, description) in cases {
        assert_eq!(
            DynamoDbContextError::wrong_key_type(&value),
            DynamoDbContextError::WrongKeyType(description.to_string())
        );
        assert_eq!(
            DynamoDbContextError::wrong_value_type(&value),
            DynamoDbContextError::WrongValueType(description.to_string())
        );
    }
}

#[test]
fn table_name_validation() {
    assert!(matches!(
        TableName::from_str("ab"),
        Err(InvalidTableName::TooShort)
    ));
    assert!(matches!(
        TableName::from_str(""),
        Err(InvalidTableName::TooShort)
    ));
    let long = "x".repeat(64);
    assert!(matches!(
        TableName::from_str(&long),
        Err(InvalidTableName::TooLong)
    ));
    assert!(matches!(
        TableName::from_str("Uppercase"),
        Err(InvalidTableName::InvalidCharacter)
    ));
    assert!(matches!(
        TableName::from_str("has space"),
        Err(InvalidTableName::InvalidCharacter)
    ));
    let name = TableName::from_str("my-table.v2_x").unwrap();
    assert_eq!(name.as_ref().as_str(), "my-table.v2_x");
    let just_right = "y".repeat(63);
    assert!(TableName::from_str(&just_right).is_ok());
    assert!(TableName::from_str("abc").is_ok());
    assert_eq!(name.clone(), name);
}

#[test]
fn idempotent_table_creation() {
    // Two ensure-table attempts, of which the service let the first create
    // the table: the second recovers locally and is not an error.
    let first = interpret_create_table(CreateTableOutcome::Success);
    let second = interpret_create_table(CreateTableOutcome::AlreadyExists);
    assert_eq!(first, Ok(TableStatus::New));
    assert_eq!(second, Ok(TableStatus::Existing));
    let news = [first, second]
        .iter()
        .filter(|r| **r == Ok(TableStatus::New))
        .count();
    assert!(news <= 1);

    assert_eq!(
        interpret_create_table(CreateTableOutcome::Failure("boom".to_string())),
        Err(CreateTableError::CreateTable("boom".to_string()))
    );
}

#[test]
fn key_cursor_pages_and_finishes() {
    let page1 = vec![
        build_key(b"p/a".to_vec()),
        build_key(b"p/b".to_vec()),
    ];
    let page2 = vec![build_key(b"p/c".to_vec())];
    assert!(check_page(&page1, 2));
    let mut cursor = DynamoDbKeys::new(2, page1, true);
    assert_eq!(cursor.next(), Ok(ScanStep::Item(b"a".to_vec())));
    assert_eq!(cursor.next(), Ok(ScanStep::Item(b"b".to_vec())));
    assert_eq!(cursor.next(), Ok(ScanStep::NeedPage));
    cursor.provide_page(page2, false);
    assert_eq!(cursor.next(), Ok(ScanStep::Item(b"c".to_vec())));
    assert_eq!(cursor.next(), Ok(ScanStep::Done));
    assert_eq!(cursor.next(), Ok(ScanStep::Done));
}

#[test]
fn key_cursor_on_empty_result() {
    let mut cursor = DynamoDbKeys::new(3, Vec::new(), false);
    assert_eq!(cursor.next(), Ok(ScanStep::Done));
}

#[test]
fn key_cursor_reports_malformed_items_and_goes_on() {
    let page = vec![
        build_key(b"p/a".to_vec()),
        StoredItem {
            partition: None,
            key: Some(StoredValue::Text),
            value: None,
        },
        build_key(b"p/b".to_vec()),
    ];
    let mut cursor = DynamoDbKeys::new(2, page, false);
    assert_eq!(cursor.next(), Ok(ScanStep::Item(b"a".to_vec())));
    assert_eq!(
        cursor.next(),
        Err(DynamoDbContextError::WrongKeyType("a string".to_string()))
    );
    assert_eq!(cursor.next(), Ok(ScanStep::Item(b"b".to_vec())));
    assert_eq!(cursor.next(), Ok(ScanStep::Done));
}

#[test]
fn key_value_cursor_yields_pairs() {
    let page1 = vec![build_key_value(b"p/a".to_vec(), b"1".to_vec())];
    let page2 = vec![build_key_value(b"p/b".to_vec(), b"2".to_vec())];
    let mut cursor = DynamoDbKeyValues::new(2, page1, true);
    assert_eq!(
        cursor.next(),
        Ok(ScanStep::Item((b"a".to_vec(), b"1".to_vec())))
    );
    assert_eq!(cursor.next(), Ok(ScanStep::NeedPage));
    cursor.provide_page(page2, false);
    assert_eq!(
        cursor.next(),
        Ok(ScanStep::Item((b"b".to_vec(), b"2".to_vec())))
    );
    assert_eq!(cursor.next(), Ok(ScanStep::Done));

    let missing_value = vec![build_key(b"p/a".to_vec())];
    let mut cursor = DynamoDbKeyValues::new(2, missing_value, false);
    assert_eq!(cursor.next(), Err(DynamoDbContextError::MissingValue));
}
