//! Paginated scanner: forward-only cursors over the pages returned by a
//! prefix range query.
//!
//! The backing service returns matches for one prefix in sorted key order,
//! but bounded to a page of items plus an optional continuation token. A
//! cursor consumes the current page item by item; when the page is
//! exhausted it either asks its caller to fetch the next page (a network
//! round-trip and the sequence's suspension point) or ends the sequence,
//! according to whether a continuation token accompanied the page.

use vstd::prelude::*;

use crate::bytes::{lemma_prefix_split, lex_lt};
use crate::codec::{extract_key, extract_key_value, spec_type_description, StoredItem, StoredValue};
use crate::errors::DynamoDbContextError;

verus! {

/// One step of a cursor.
#[derive(Debug, PartialEq, Eq)]
pub enum ScanStep<T> {
    /// The next decoded entry of the sequence.
    Item(T),
    /// The current page is exhausted and a continuation token was present:
    /// the caller must run the query again with that token and hand the
    /// new page over before the sequence can go on.
    NeedPage,
    /// The sequence is finished: the last page was exhausted and no
    /// continuation token was returned.
    Done,
}

/// Whether a stored item can be decoded as a key without leaving the
/// queried prefix: when its key attribute is a binary blob, the blob is at
/// least as long as the prefix the query matched on.
pub open spec fn scan_item_wf(item: StoredItem, prefix_len: nat) -> bool {
    item.key matches Some(StoredValue::Binary(k)) ==> k@.len() >= prefix_len
}

/// Whether every item of a page can be decoded under `prefix_len`.
pub open spec fn scan_page_wf(items: Seq<StoredItem>, prefix_len: nat) -> bool {
    forall|i: int| 0 <= i < items.len() ==> scan_item_wf(#[trigger] items[i], prefix_len)
}

/// Check that every key of a page is a binary blob no shorter than the
/// queried prefix, as the backing service guarantees for a prefix query.
pub fn check_page(items: &Vec<StoredItem>, prefix_len: usize) -> (r: bool)
    ensures
        r == scan_page_wf(items@, prefix_len as nat),
{
    for i in 0..items.len()
        invariant
            forall|j: int| 0 <= j < i ==> scan_item_wf(#[trigger] items@[j], prefix_len as nat),
    {
        match &items[i].key {
            Some(StoredValue::Binary(k)) => {
                if k.len() < prefix_len {
                    return false;
                }
            },
            _ => {},
        }
    }
    true
}

/// A set of keys returned by a prefix query, read through a forward-only
/// cursor: the current page of items, the position within it, and whether
/// a continuation token promised further pages.
pub struct DynamoDbKeys {
    /// The length of the queried prefix, stripped from every decoded key.
    pub prefix_len: usize,
    /// The current page of stored items.
    pub page: Vec<StoredItem>,
    /// The position of the next item within the page.
    pub pos: usize,
    /// Whether the page came with a continuation token.
    pub more: bool,
}

impl DynamoDbKeys {
    /// Whether the cursor is well formed: the position is within the page
    /// and every item of the page can be decoded.
    pub open spec fn wf(self) -> bool {
        &&& self.pos <= self.page@.len()
        &&& scan_page_wf(self.page@, self.prefix_len as nat)
    }

    /// Start a cursor on the first page of a query's results.
    pub fn new(prefix_len: usize, page: Vec<StoredItem>, more: bool) -> (r: DynamoDbKeys)
        requires
            scan_page_wf(page@, prefix_len as nat),
        ensures
            r.wf(),
            r.prefix_len == prefix_len,
            r.page == page,
            r.pos == 0,
            r.more == more,
    {
        DynamoDbKeys { prefix_len, page, pos: 0, more }
    }

    /// Advance the cursor: decode the next key of the current page, ask
    /// for the next page, or end the sequence. A malformed item is a
    /// data-corruption error; the cursor steps past it.
    pub fn next(&mut self) -> (r: Result<ScanStep<Vec<u8>>, DynamoDbContextError>)
        requires
            old(self).wf(),
        ensures
            final(self).wf(),
            final(self).prefix_len == old(self).prefix_len,
            final(self).page == old(self).page,
            final(self).more == old(self).more,
            if old(self).pos < old(self).page@.len() {
                final(self).pos == old(self).pos + 1 && match old(self).page@[old(
                    self,
                ).pos as int].key {
                    None => r == Err::<ScanStep<Vec<u8>>, _>(DynamoDbContextError::MissingKey),
                    Some(StoredValue::Binary(k)) => r matches Ok(ScanStep::Item(s)) && s@
                        == k@.skip(old(self).prefix_len as int),
                    Some(v) => r matches Err(DynamoDbContextError::WrongKeyType(d)) && d@
                        == spec_type_description(v),
                }
            } else {
                final(self).pos == old(self).pos && if old(self).more {
                    r == Ok::<ScanStep<Vec<u8>>, DynamoDbContextError>(ScanStep::NeedPage)
                } else {
                    r == Ok::<ScanStep<Vec<u8>>, DynamoDbContextError>(ScanStep::Done)
                }
            },
    {
        if self.pos < self.page.len() {
            let item = &self.page[self.pos];
            self.pos = self.pos + 1;
            match extract_key(self.prefix_len, item) {
                Ok(s) => Ok(ScanStep::Item(s)),
                Err(e) => Err(e),
            }
        } else if self.more {
            Ok(ScanStep::NeedPage)
        } else {
            Ok(ScanStep::Done)
        }
    }

    /// Hand the cursor the next page fetched with the continuation token.
    pub fn provide_page(&mut self, page: Vec<StoredItem>, more: bool)
        requires
            old(self).wf(),
            old(self).pos == old(self).page@.len(),
            old(self).more,
            scan_page_wf(page@, old(self).prefix_len as nat),
        ensures
            final(self).wf(),
            final(self).prefix_len == old(self).prefix_len,
            final(self).page == page,
            final(self).pos == 0,
            final(self).more == more,
    {
        self.page = page;
        self.pos = 0;
        self.more = more;
    }
}

/// A set of key/value pairs returned by a prefix query, read through a
/// forward-only cursor of the same shape as [`DynamoDbKeys`].
pub struct DynamoDbKeyValues {
    /// The length of the queried prefix, stripped from every decoded key.
    pub prefix_len: usize,
    /// The current page of stored items.
    pub page: Vec<StoredItem>,
    /// The position of the next item within the page.
    pub pos: usize,
    /// Whether the page came with a continuation token.
    pub more: bool,
}

impl DynamoDbKeyValues {
    /// Whether the cursor is well formed.
    pub open spec fn wf(self) -> bool {
        &&& self.pos <= self.page@.len()
        &&& scan_page_wf(self.page@, self.prefix_len as nat)
    }

    /// Start a cursor on the first page of a query's results.
    pub fn new(prefix_len: usize, page: Vec<StoredItem>, more: bool) -> (r: DynamoDbKeyValues)
        requires
            scan_page_wf(page@, prefix_len as nat),
        ensures
            r.wf(),
            r.prefix_len == prefix_len,
            r.page == page,
            r.pos == 0,
            r.more == more,
    {
        DynamoDbKeyValues { prefix_len, page, pos: 0, more }
    }

    /// Advance the cursor: decode the next key/value pair of the current
    /// page, ask for the next page, or end the sequence. A key error takes
    /// precedence over a value error; either is a data-corruption error.
    pub fn next(&mut self) -> (r: Result<
        ScanStep<(Vec<u8>, Vec<u8>)>,
        DynamoDbContextError,
    >)
        requires
            old(self).wf(),
        ensures
            final(self).wf(),
            final(self).prefix_len == old(self).prefix_len,
            final(self).page == old(self).page,
            final(self).more == old(self).more,
            if old(self).pos < old(self).page@.len() {
                final(self).pos == old(self).pos + 1 && {
                    let item = old(self).page@[old(self).pos as int];
                    match item.key {
                        None => r == Err::<ScanStep<(Vec<u8>, Vec<u8>)>, _>(
                            DynamoDbContextError::MissingKey,
                        ),
                        Some(StoredValue::Binary(k)) => match item.value {
                            None => r == Err::<ScanStep<(Vec<u8>, Vec<u8>)>, _>(
                                DynamoDbContextError::MissingValue,
                            ),
                            Some(StoredValue::Binary(v)) => r matches Ok(ScanStep::Item(pair))
                                && pair.0@ == k@.skip(old(self).prefix_len as int) && pair.1@
                                == v@,
                            Some(w) => r matches Err(DynamoDbContextError::WrongValueType(d))
                                && d@ == spec_type_description(w),
                        },
                        Some(v) => r matches Err(DynamoDbContextError::WrongKeyType(d)) && d@
                            == spec_type_description(v),
                    }
                }
            } else {
                final(self).pos == old(self).pos && if old(self).more {
                    r == Ok::<ScanStep<(Vec<u8>, Vec<u8>)>, DynamoDbContextError>(
                        ScanStep::NeedPage,
                    )
                } else {
                    r == Ok::<ScanStep<(Vec<u8>, Vec<u8>)>, DynamoDbContextError>(ScanStep::Done)
                }
            },
    {
        if self.pos < self.page.len() {
            let item = &self.page[self.pos];
            self.pos = self.pos + 1;
            match extract_key_value(self.prefix_len, item) {
                Ok(pair) => Ok(ScanStep::Item(pair)),
                Err(e) => Err(e),
            }
        } else if self.more {
            Ok(ScanStep::NeedPage)
        } else {
            Ok(ScanStep::Done)
        }
    }

    /// Hand the cursor the next page fetched with the continuation token.
    pub fn provide_page(&mut self, page: Vec<StoredItem>, more: bool)
        requires
            old(self).wf(),
            old(self).pos == old(self).page@.len(),
            old(self).more,
            scan_page_wf(page@, old(self).prefix_len as nat),
        ensures
            final(self).wf(),
            final(self).prefix_len == old(self).prefix_len,
            final(self).page == page,
            final(self).pos == 0,
            final(self).more == more,
    {
        self.page = page;
        self.pos = 0;
        self.more = more;
    }
}

/// Strict lexicographic order never relates a key to itself.
pub proof fn lemma_lex_lt_irreflexive(a: Seq<u8>)
    ensures
        !lex_lt(a, a),
    decreases a.len(),
{
    if a.len() > 0 {
        lemma_lex_lt_irreflexive(a.drop_first());
    }
}

/// Stripping a common prefix keeps the lexicographic order.
pub proof fn lemma_lex_concat(c: Seq<u8>, x: Seq<u8>, y: Seq<u8>)
    ensures
        lex_lt(c + x, c + y) == lex_lt(x, y),
    decreases c.len(),
{
    if c.len() == 0 {
        assert(c + x =~= x);
        assert(c + y =~= y);
    } else {
        assert((c + x)[0] == c[0]);
        assert((c + y)[0] == c[0]);
        assert((c + x).drop_first() =~= c.drop_first() + x);
        assert((c + y).drop_first() =~= c.drop_first() + y);
        lemma_lex_concat(c.drop_first(), x, y);
    }
}

/// Prefix scan completeness: when the full keys matched by a query on
/// prefix `p` are strictly ascending, the decoded suffixes the scan
/// yields are in the same strictly ascending order, pairwise distinct, and
/// each recovers its full key when the prefix is put back.
pub proof fn lemma_prefix_scan_completeness(p: Seq<u8>, fulls: Seq<Seq<u8>>, i: int, j: int)
    requires
        forall|m: int| 0 <= m < fulls.len() ==> p.is_prefix_of(#[trigger] fulls[m]),
        forall|m: int, n: int|
            #![trigger fulls[m], fulls[n]]
            0 <= m < n < fulls.len() ==> lex_lt(fulls[m], fulls[n]),
        0 <= i < j < fulls.len(),
    ensures
        lex_lt(fulls[i].skip(p.len() as int), fulls[j].skip(p.len() as int)),
        fulls[i].skip(p.len() as int) != fulls[j].skip(p.len() as int),
        p + fulls[i].skip(p.len() as int) == fulls[i],
{
    let si = fulls[i].skip(p.len() as int);
    let sj = fulls[j].skip(p.len() as int);
    lemma_prefix_split(p, fulls[i]);
    lemma_prefix_split(p, fulls[j]);
    lemma_lex_concat(p, si, sj);
    if si == sj {
        assert(fulls[i] == fulls[j]);
        lemma_lex_lt_irreflexive(fulls[i]);
    }
}

} // verus!
