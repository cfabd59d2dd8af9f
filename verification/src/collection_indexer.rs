//! Builds the in-memory identifier index: one pass over every page at
//! open time, recording for each resident document the page number
//! that holds it.

use std::collections::HashMap;

use vstd::prelude::*;

use crate::collection_file::{CollectionFile, CollectionFileError};
use crate::collection_page::PageView;
use crate::document::DocView;

verus! {

broadcast use vstd::std_specs::hash::group_hash_axioms;

/// Maps each document identifier to the page number holding it.
pub type IdToPageMap = HashMap<u64, u64>;

/// One page's documents folded into `m` in order, each recorded under
/// the page number `page_number`; later documents overwrite earlier
/// entries with the same identifier.
pub open spec fn page_entries(docs: Seq<DocView>, page_number: u64, m: Map<u64, u64>) -> Map<
    u64,
    u64,
>
    decreases docs.len(),
{
    if docs.len() == 0 {
        m
    } else {
        page_entries(docs.skip(1), page_number, m.insert(docs[0].id, page_number))
    }
}

/// The identifier index that scanning `pages` from page `i` on folds
/// into `m`; entries from later pages overwrite earlier ones.
pub open spec fn index_of_from(pages: Seq<PageView>, i: int, m: Map<u64, u64>) -> Map<u64, u64>
    decreases pages.len() - i,
{
    if i < 0 || i >= pages.len() {
        m
    } else {
        index_of_from(pages, i + 1, page_entries(pages[i].docs, i as u64, m))
    }
}

/// The identifier index built by one full scan of `pages`.
pub open spec fn index_of(pages: Seq<PageView>) -> Map<u64, u64> {
    index_of_from(pages, 0, Map::empty())
}

/// Produces the identifier-to-page mapping by one full pass over all
/// pages of `collection_file`, in ascending page order.
pub fn index_collection_id(collection_file: &CollectionFile) -> (r: Result<
    IdToPageMap,
    CollectionFileError,
>)
    requires
        collection_file.wf(),
    ensures
        r matches Ok(m) && m@ == index_of(collection_file.pages()),
{
    let ghost all_pages = collection_file.pages();
    let mut collection_index: IdToPageMap = HashMap::new();
    let number_of_pages: u64 = collection_file.number_of_pages();

    let mut i: u64 = 0;
    while i < number_of_pages
        invariant
            collection_file.wf(),
            all_pages == collection_file.pages(),
            number_of_pages == all_pages.len(),
            0 <= i <= number_of_pages,
            index_of(all_pages) == index_of_from(all_pages, i as int, collection_index@),
        decreases number_of_pages - i,
    {
        let page = match collection_file.read_page(i) {
            Ok(p) => p,
            Err(e) => {
                return Err(e);
            },
        };
        let documents = page.documents();
        let ghost docs = page@.docs;
        proof {
            assert(docs.skip(0) =~= docs);
            assert(index_of_from(all_pages, i as int, collection_index@) == index_of_from(
                all_pages,
                i as int + 1,
                page_entries(all_pages[i as int].docs, i, collection_index@),
            ));
        }

        let mut j: usize = 0;
        while j < documents.len()
            invariant
                0 <= j <= documents.len(),
                docs.len() == documents.len(),
                crate::document::views_of_docs(documents@) == docs,
                i < all_pages.len(),
                docs == all_pages[i as int].docs,
                index_of(all_pages) == index_of_from(
                    all_pages,
                    i as int + 1,
                    page_entries(docs.skip(j as int), i, collection_index@),
                ),
            decreases documents.len() - j,
        {
            let ghost rest = docs.skip(j as int);
            proof {
                assert(rest[0] == docs[j as int]);
                assert(rest.skip(1) =~= docs.skip(j as int + 1));
            }
            collection_index.insert(documents[j].id, i);
            j = j + 1;
        }
        proof {
            assert(docs.skip(docs.len() as int) =~= Seq::<DocView>::empty());
        }
        i = i + 1;
    }
    Ok(collection_index)
}

} // verus!
