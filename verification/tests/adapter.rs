//! End-to-end tests driving the adapter against an in-memory emulation of
//! the backing service: a sorted map queried in bounded pages, written in
//! bounded chunks.

use std::collections::BTreeMap;

use dynamo_store::batch::{Batch, WriteOperation};
use dynamo_store::codec::{build_key_value, read_item_value, StoredItem};
use dynamo_store::context::DynamoDbContext;
use dynamo_store::errors::DynamoDbContextError;
use dynamo_store::scan::{check_page, DynamoDbKeys, ScanStep};
use dynamo_store::writer::{prepare_batch, WritePlan, MAX_BATCH_WRITE_ITEMS};

/// An in-memory stand-in for the backing service: one table's items in
/// sorted key order, served in pages of `page_size` results.
struct Emulator {
    map: BTreeMap<Vec<u8>, Vec<u8>>,
    page_size: usize,
}

impl Emulator {
    fn new(page_size: usize) -> Emulator {
        Emulator { map: BTreeMap::new(), page_size }
    }

    /// One page of the range query "key begins with prefix", starting
    /// after `token`, plus whether a continuation token follows.
    fn query_page(&self, prefix: &[u8], token: Option<&Vec<u8>>) -> (Vec<StoredItem>, bool) {
        let matching: Vec<&Vec<u8>> = self
            .map
            .keys()
            .filter(|k| k.starts_with(prefix))
            .filter(|k| match token {
                Some(t) => *k > t,
                None => true,
            })
            .collect();
        let page: Vec<StoredItem> = matching
            .iter()
            .take(self.page_size)
            .map(|k| build_key_value((*k).clone(), self.map[*k].clone()))
            .collect();
        let more = matching.len() > self.page_size;
        (page, more)
    }

    fn get_item(&self, key: &[u8]) -> Option<StoredItem> {
        self.map
            .get(key)
            .map(|v| build_key_value(key.to_vec(), v.clone()))
    }

    fn read_value(&self, key: &[u8]) -> Result<Option<Vec<u8>>, DynamoDbContextError> {
        read_item_value(self.get_item(key))
    }

    /// Drive a key cursor across however many pages the query needs,
    /// returning the short keys (suffixes past the prefix).
    fn find_keys_by_prefix(&self, prefix: &[u8]) -> Result<Vec<Vec<u8>>, DynamoDbContextError> {
        let (page, more) = self.query_page(prefix, None);
        assert!(check_page(&page, prefix.len()));
        let mut cursor = DynamoDbKeys::new(prefix.len(), page, more);
        let mut out: Vec<Vec<u8>> = Vec::new();
        loop {
            match cursor.next()? {
                ScanStep::Item(suffix) => {
                    out.push(suffix);
                }
                ScanStep::NeedPage => {
                    let last_full = match out.last() {
                        Some(suffix) => {
                            let mut f = prefix.to_vec();
                            f.extend_from_slice(suffix);
                            f
                        }
                        None => prefix.to_vec(),
                    };
                    let (page, more) = self.query_page(prefix, Some(&last_full));
                    assert!(check_page(&page, prefix.len()));
                    cursor.provide_page(page, more);
                }
                ScanStep::Done => {
                    return Ok(out);
                }
            }
        }
    }

    /// Apply a plan the way the service would: each chunk one call, within
    /// the hard item limit, delete chunks before put chunks.
    fn apply_plan(&mut self, plan: &WritePlan) {
        for chunk in &plan.delete_chunks {
            assert!(1 <= chunk.len() && chunk.len() <= MAX_BATCH_WRITE_ITEMS);
            for key in chunk {
                self.map.remove(key);
            }
        }
        for chunk in &plan.put_chunks {
            assert!(1 <= chunk.len() && chunk.len() <= MAX_BATCH_WRITE_ITEMS);
            for (key, value) in chunk {
                self.map.insert(key.clone(), value.clone());
            }
        }
    }

    fn write_batch(&mut self, batch: Batch) -> Result<(), DynamoDbContextError> {
        let pending = prepare_batch(batch);
        let mut expansions: Vec<Vec<Vec<u8>>> = Vec::new();
        for prefix in &pending.prefixes {
            expansions.push(self.find_keys_by_prefix(prefix)?);
        }
        assert_eq!(expansions.len(), pending.prefixes.len());
        let plan = pending.into_plan(&expansions);
        self.apply_plan(&plan);
        Ok(())
    }
}

fn put(key: &[u8], value: &[u8]) -> WriteOperation {
    WriteOperation::Put {
        key: key.to_vec(),
        value: value.to_vec(),
    }
}

fn delete(key: &[u8]) -> WriteOperation {
    WriteOperation::Delete { key: key.to_vec() }
}

fn delete_prefix(prefix: &[u8]) -> WriteOperation {
    WriteOperation::DeletePrefix {
        key_prefix: prefix.to_vec(),
    }
}

#[test]
fn round_trip() {
    let mut store = Emulator::new(10);
    store
        .write_batch(Batch {
            operations: vec![put(b"k", b"v")],
        })
        .unwrap();
    assert_eq!(store.read_value(b"k").unwrap(), Some(b"v".to_vec()));
    assert_eq!(store.read_value(b"absent").unwrap(), None);
}

#[test]
fn prefix_scan_completeness() {
    // 3-10x the per-request limit, with a page size forcing many pages.
    let mut store = Emulator::new(7);
    let mut ops = Vec::new();
    for i in 0..80u32 {
        let key = format!("p/{:03}", i).into_bytes();
        ops.push(put(&key, format!("v{}", i).as_bytes()));
    }
    for i in 0..10u32 {
        let key = format!("q/{:03}", i).into_bytes();
        ops.push(put(&key, b"other"));
    }
    store.write_batch(Batch { operations: ops }).unwrap();

    let found = store.find_keys_by_prefix(b"p/").unwrap();
    assert_eq!(found.len(), 80);
    for (i, suffix) in found.iter().enumerate() {
        assert_eq!(suffix, format!("{:03}", i).as_bytes());
    }
    for w in found.windows(2) {
        assert!(w[0] < w[1]);
    }
}

#[test]
fn prefix_delete() {
    let mut store = Emulator::new(10);
    store
        .write_batch(Batch {
            operations: vec![put(b"a/1", b"1"), put(b"a/2", b"2"), put(b"b/1", b"3")],
        })
        .unwrap();
    store
        .write_batch(Batch {
            operations: vec![delete_prefix(b"a/")],
        })
        .unwrap();
    assert_eq!(store.read_value(b"a/1").unwrap(), None);
    assert_eq!(store.read_value(b"a/2").unwrap(), None);
    assert_eq!(store.read_value(b"b/1").unwrap(), Some(b"3".to_vec()));
    assert_eq!(store.find_keys_by_prefix(b"").unwrap(), vec![b"b/1".to_vec()]);
}

#[test]
fn prefix_delete_of_no_keys_is_a_no_op() {
    let mut store = Emulator::new(10);
    store
        .write_batch(Batch {
            operations: vec![put(b"x", b"1")],
        })
        .unwrap();
    store
        .write_batch(Batch {
            operations: vec![delete_prefix(b"nothing/")],
        })
        .unwrap();
    assert_eq!(store.read_value(b"x").unwrap(), Some(b"1".to_vec()));
}

#[test]
fn batch_chunking() {
    let mut store = Emulator::new(10);
    let mut ops = Vec::new();
    for i in 0..40u32 {
        ops.push(put(format!("key{:02}", i).as_bytes(), format!("val{}", i).as_bytes()));
    }
    store.write_batch(Batch { operations: ops }).unwrap();
    for i in 0..40u32 {
        assert_eq!(
            store
                .read_value(format!("key{:02}", i).as_bytes())
                .unwrap(),
            Some(format!("val{}", i).into_bytes())
        );
    }

    // The plan for 40 puts splits at the 25-item limit.
    let mut ops = Vec::new();
    for i in 0..40u32 {
        ops.push(put(format!("key{:02}", i).as_bytes(), b"v"));
    }
    let pending = prepare_batch(Batch { operations: ops });
    assert!(pending.prefixes.is_empty());
    let plan = pending.into_plan(&Vec::new());
    assert!(plan.delete_chunks.is_empty());
    assert_eq!(plan.put_chunks.len(), 2);
    assert_eq!(plan.put_chunks[0].len(), 25);
    assert_eq!(plan.put_chunks[1].len(), 15);
}

#[test]
fn empty_batch_is_a_no_op() {
    let mut store = Emulator::new(10);
    store
        .write_batch(Batch {
            operations: Vec::new(),
        })
        .unwrap();
    assert!(store.map.is_empty());
}

#[test]
fn simplification_last_write_wins() {
    let mut store = Emulator::new(10);
    store
        .write_batch(Batch {
            operations: vec![put(b"k", b"v1"), delete(b"k"), put(b"k", b"v2")],
        })
        .unwrap();
    assert_eq!(store.read_value(b"k").unwrap(), Some(b"v2".to_vec()));

    let simplified = Batch {
        operations: vec![put(b"k", b"v1"), delete(b"k"), put(b"k", b"v2")],
    }
    .simplify();
    assert_eq!(simplified.operations, vec![put(b"k", b"v2")]);
}

#[test]
fn simplification_prefix_delete_collapses_covered_operations() {
    let covered = Batch {
        operations: vec![put(b"a/1", b"v"), delete(b"a/2"), delete_prefix(b"a/")],
    }
    .simplify();
    assert_eq!(covered.operations, vec![delete_prefix(b"a/")]);

    // A put issued after the prefix delete survives it.
    let after = Batch {
        operations: vec![delete_prefix(b"a/"), put(b"a/1", b"v")],
    }
    .simplify();
    assert_eq!(
        after.operations,
        vec![delete_prefix(b"a/"), put(b"a/1", b"v")]
    );

    // A prefix delete covering an earlier one subsumes it.
    let nested = Batch {
        operations: vec![delete_prefix(b"a/b/"), delete_prefix(b"a/")],
    }
    .simplify();
    assert_eq!(nested.operations, vec![delete_prefix(b"a/")]);
}

#[test]
fn sub_scope_isolation() {
    let mut store = Emulator::new(10);
    let parent: DynamoDbContext<u32> = DynamoDbContext::new(
        dynamo_store::table::TableName::from_str("table-1").unwrap(),
        b"root".to_vec(),
        7,
    );
    let child1 = parent.clone_with_sub_scope(1, ());
    let child2 = parent.clone_with_sub_scope(2, ());
    assert_ne!(child1.base_key, child2.base_key);

    let mut key1 = child1.base_key.clone();
    key1.extend_from_slice(b"x");
    let mut key2 = child2.base_key.clone();
    key2.extend_from_slice(b"x");
    store
        .write_batch(Batch {
            operations: vec![put(&key1, b"from-child-1"), put(&key2, b"from-child-2")],
        })
        .unwrap();

    assert_eq!(
        store.read_value(&key1).unwrap(),
        Some(b"from-child-1".to_vec())
    );
    assert_eq!(
        store.read_value(&key2).unwrap(),
        Some(b"from-child-2".to_vec())
    );
    // Each child's prefix scan sees only its own item.
    assert_eq!(
        store.find_keys_by_prefix(&child1.base_key).unwrap(),
        vec![b"x".to_vec()]
    );
    assert_eq!(
        store.find_keys_by_prefix(&child2.base_key).unwrap(),
        vec![b"x".to_vec()]
    );
}

#[test]
fn derive_key_appends_the_canonical_scope_encoding() {
    let ctx: DynamoDbContext<()> = DynamoDbContext::new(
        dynamo_store::table::TableName::from_str("table-1").unwrap(),
        b"base".to_vec(),
        (),
    );
    // BCS encodes a u64 as eight little-endian bytes.
    let derived = ctx.derive_key(0x0102030405060708);
    let mut expected = b"base".to_vec();
    expected.extend_from_slice(&[8, 7, 6, 5, 4, 3, 2, 1]);
    assert_eq!(derived, expected);
    assert_eq!(ctx.derive_key(1)[4..], [1, 0, 0, 0, 0, 0, 0, 0]);
    // And it matches the bcs crate itself.
    assert_eq!(
        ctx.derive_key(99)[4..].to_vec(),
        bcs::to_bytes(&99u64).unwrap()
    );
}

#[test]
fn idempotent_retry_after_partial_failure() {
    // A batch can be resubmitted wholesale after a partial application:
    // puts overwrite and deletes of absent keys are no-ops.
    let mut store = Emulator::new(10);
    store
        .write_batch(Batch {
            operations: vec![put(b"a", b"1"), put(b"b", b"2")],
        })
        .unwrap();
    let batch = || Batch {
        operations: vec![delete(b"a"), put(b"b", b"3"), put(b"c", b"4")],
    };
    // Simulate a partial application: only the delete chunk was applied.
    let pending = prepare_batch(batch());
    let plan = pending.into_plan(&Vec::new());
    for chunk in &plan.delete_chunks {
        for key in chunk {
            store.map.remove(key);
        }
    }
    // Resubmitting the identical batch completes the write.
    store.write_batch(batch()).unwrap();
    assert_eq!(store.read_value(b"a").unwrap(), None);
    assert_eq!(store.read_value(b"b").unwrap(), Some(b"3".to_vec()));
    assert_eq!(store.read_value(b"c").unwrap(), Some(b"4".to_vec()));
}
