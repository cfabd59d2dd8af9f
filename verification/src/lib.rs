//! An embedded, single-file, page-organized document store.
//!
//! A collection keeps fixed-size pages, each holding a bounded set of
//! documents together with a header that accounts for the page's free
//! space.  The page store maps page numbers to byte extents of the
//! backing file; an in-memory index maps each document identifier to
//! the page that holds it.  All of the paging, space-accounting and
//! orchestration logic is verified; only the binary page codec calls
//! into `bincode` through a handful of trusted wrappers, and the file
//! I/O itself is left to the embedding program, which hands raw bytes
//! in and out.

pub mod collection;
pub mod collection_file;
pub mod collection_indexer;
pub mod collection_page;
pub mod document;
pub mod encoding;

use vstd::prelude::*;

verus! {

/// Physical size in bytes of one page extent in the backing file.
pub const COLLECTION_PAGE_SIZE: u64 = 64_000;

/// Default maximum total serialized size of the documents a single page
/// may hold; strictly smaller than the page size, to leave room for the
/// page header and framing overhead.
pub const COLLECTION_PAGE_DATA_SIZE: u64 = 62_000;

/// Bytes of encoding overhead in a serialized page: 24 for the three
/// header fields plus 8 for the document-count prefix of the list.
pub const PAGE_ENCODING_OVERHEAD: u64 = 32;

/// Bytes at the start of the backing file holding the page count.
pub const FILE_HEADER_SIZE: u64 = 8;

/// Per-collection sizing: the physical page size and the data budget
/// (the page's document payload capacity).
#[derive(Clone, Copy, Debug, PartialEq, Eq)]
pub struct CollectionConfig {
    pub page_size: u64,
    pub data_budget: u64,
}

impl CollectionConfig {
    /// A configuration is usable when an encoded page at full budget
    /// still fits in one extent, and an extent fits in memory.
    pub open spec fn wf(&self) -> bool {
        &&& self.data_budget + PAGE_ENCODING_OVERHEAD <= self.page_size
        &&& self.page_size <= usize::MAX
    }

    /// Builds a configuration, rejecting one whose budget and overhead
    /// would not fit in a page.
    pub fn new(page_size: u64, data_budget: u64) -> (r: Option<CollectionConfig>)
        ensures
            r is Some <==> (data_budget + PAGE_ENCODING_OVERHEAD <= page_size
                && page_size <= usize::MAX),
            r matches Some(c) ==> c.page_size == page_size && c.data_budget == data_budget
                && c.wf(),
    {
        if data_budget <= u64::MAX - PAGE_ENCODING_OVERHEAD
            && data_budget + PAGE_ENCODING_OVERHEAD <= page_size
            && page_size <= usize::MAX as u64 {
            Some(CollectionConfig { page_size, data_budget })
        } else {
            None
        }
    }
}

impl Default for CollectionConfig {
    /// The default sizing: 64,000-byte pages with a 62,000-byte budget.
    fn default() -> (r: Self)
        ensures
            r.page_size == COLLECTION_PAGE_SIZE,
            r.data_budget == COLLECTION_PAGE_DATA_SIZE,
            r.wf(),
    {
        CollectionConfig { page_size: COLLECTION_PAGE_SIZE, data_budget: COLLECTION_PAGE_DATA_SIZE }
    }
}

} // verus!
