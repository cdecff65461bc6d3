//! A read-only embedded key/value store over the DryDB 1.4 file format.
//!
//! A database is built once into an immutable file image. At run time a query loads only
//! the B+Tree pages it touches. Everything here is verified: the on-disk format, the
//! builder that writes it, and the reader that searches it.

pub mod blob;
pub mod btree;
pub mod budget;
pub mod builder;
pub mod cache;
pub mod db;
pub mod directory;
pub mod encoding;
pub mod error;
pub mod filter;
pub mod format;
pub mod index;
pub mod io;
pub mod locked;
pub mod metrics;
pub mod model;
pub mod page;
pub mod query;
pub mod roots;
pub mod store;
pub mod text;
pub mod verify;

pub use blob::BlobReader;
pub use budget::{Budget, Charge, Charged, Reserve, BUFFER_OVERHEAD};
pub use builder::plan::{SecondaryKeyFn, SharedKeyFn};
pub use builder::report::{BuildReport, IndexReport, TableReport};
pub use builder::{
    DatabaseBuilder, TableId, DEFAULT_PAGE_SIZE, DEFAULT_SORT_BUFFER, MIN_PAGE_SIZE,
};
pub use db::open::{
    OpenOptions, DEFAULT_DIRECTORY_CHUNKS, DEFAULT_DIRECTORY_CHUNK_ENTRIES, DEFAULT_MEMORY_BUDGET,
};
pub use db::table::{CachedLookup, Table};
pub use db::Database;
pub use encoding::{
    AsciiEncoding, EncodingRegistry, Int64Encoding, KeyEncoding, SharedEncoding, UlidEncoding,
    Uuidv7Encoding,
};
pub use error::{BudgetInfo, Error, ErrorKind, Location};
pub use filter::{FilterRegistry, PageFilter, SharedFilter, ZstdFilter, ZSTD_FILTER_ID};
pub use format::catalog::{Catalog, IndexDescriptor, TableDescriptor, ValueKind};
pub use format::pageref::PageRef;
pub use format::{FileOffset, PageLocalOffset, PageOrdinal};
pub use index::{Index, IndexCursor};
pub use io::{MemorySource, PageSource, SharedSource};
pub use metrics::{MemoryReport, MetricsSnapshot};
pub use page::{PagePin, ValueGuard};
pub use query::cursor::{Cursor, EntryRef, Order};
pub use query::range::{Bound, KeyRange};
pub use store::Limits;
pub use verify::report::{VerifyOptions, VerifyProblem, VerifyReport};
