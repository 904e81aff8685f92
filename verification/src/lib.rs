//! A scoped key-value storage adapter for a partition-oriented NoSQL backend.
//!
//! The adapter presents an unbounded, sorted byte-key / byte-value interface
//! with prefix search, prefix deletion and batched writes, on top of a
//! backing service whose requests are bounded: all items share one partition
//! so that range scans work, write requests carry at most a fixed number of
//! items, and range queries return finite pages with continuation tokens.
//!
//! The modules split the adapter along those constraints: `codec` converts
//! logical keys and values to and from the stored attribute representation,
//! `table` validates table names and interprets idempotent table creation,
//! `batch` simplifies write batches, `writer` turns a simplified batch into
//! bounded chunks, `scan` walks paginated query results, and `context`
//! derives scoped keys for sub-stores sharing one table.

pub mod batch;
pub mod bytes;
pub mod codec;
pub mod context;
pub mod errors;
pub mod scan;
pub mod table;
pub mod writer;
