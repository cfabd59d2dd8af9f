//! The collection façade: the identifier index combined with the paged
//! file store.  It is the sole entry point for consistent reads and
//! writes; it implements insertion with the first-fit page-selection
//! policy, point lookup, predicate scan, and update with relocation.

use std::collections::HashMap;

use vstd::prelude::*;

use crate::collection_file::{
    page_slot_inv, pages_inv, raw_matches, CollectionFile, CollectionFileError,
};
use crate::collection_indexer::{index_of, index_of_from, page_entries, IdToPageMap};
use crate::collection_page::{
    docs_size, first_doc_index, has_doc, lemma_docs_size_bounds, lemma_docs_size_push,
    lemma_first_doc_index_from, CollectionPage, CollectionPageError, PageView,
};
use crate::document::{doc_size, views_of_docs, DocView, Document, HasId};
use crate::CollectionConfig;

verus! {

broadcast use vstd::std_specs::hash::group_hash_axioms;

/// Errors of collection-level operations.
#[derive(Debug, PartialEq, Eq)]
pub enum CollectionError {
    FileError(CollectionFileError),
    PageError(CollectionPageError),
    NotFoundError,
    DocumentTooBig,
    DuplicateError,
}

/// A collection of documents: the identifier index and the paged file
/// store, owned exclusively.
pub struct Collection {
    id_to_page_map: IdToPageMap,
    collection_file: CollectionFile,
}

/// No two documents anywhere in `pages` carry the same identifier.
pub open spec fn unique_ids(pages: Seq<PageView>) -> bool {
    forall|n1: int, i1: int, n2: int, i2: int|
        #![trigger pages[n1].docs[i1], pages[n2].docs[i2]]
        0 <= n1 < pages.len() && 0 <= i1 < pages[n1].docs.len() && 0 <= n2 < pages.len() && 0
            <= i2 < pages[n2].docs.len() && (n1 != n2 || i1 != i2) ==> pages[n1].docs[i1].id
            != pages[n2].docs[i2].id
}

/// The index is exactly the resident identifiers: every document's
/// identifier maps to the page holding it, and every index entry
/// points at a page that holds its identifier.
pub open spec fn index_matches(pages: Seq<PageView>, m: Map<u64, u64>) -> bool {
    &&& forall|n: int, i: int|
        0 <= n < pages.len() && 0 <= i < pages[n].docs.len() ==> m.contains_key(
            (#[trigger] pages[n].docs[i]).id,
        ) && m[pages[n].docs[i].id] == n
    &&& forall|id: u64| #[trigger]
        m.contains_key(id) ==> 0 <= m[id] < pages.len() && has_doc(
            pages[m[id] as int].docs,
            id,
        )
}

/// The first page at or after `i` with at least `size` bytes free, or
/// `pages.len()` when no existing page has room.
pub open spec fn first_fit_from(pages: Seq<PageView>, size: int, i: int) -> int
    decreases pages.len() - i,
{
    if i < 0 || i >= pages.len() {
        pages.len() as int
    } else if pages[i].header.free_space_available >= size {
        i
    } else {
        first_fit_from(pages, size, i + 1)
    }
}

/// The page the first-fit allocation policy chooses for a document of
/// serialized size `size`: the first page with enough free space, or
/// `pages.len()` for a brand-new page.
pub open spec fn first_fit(pages: Seq<PageView>, size: int) -> int {
    first_fit_from(pages, size, 0)
}

/// The page sequence after a document `d` lands on page `t`: an
/// existing page is extended in place, and `t == pages.len()` appends
/// a fresh page holding only `d`.
pub open spec fn insert_at(pages: Seq<PageView>, t: int, d: DocView, data_budget: u64) -> Seq<
    PageView,
> {
    if t < pages.len() {
        pages.update(t, pages[t].with_doc_pushed(d))
    } else {
        pages.push(PageView::empty(t, data_budget).with_doc_pushed(d))
    }
}

/// Whether a document with identifier `id` sits in the region scanned
/// so far: all of the pages before `n`, and the first `j` documents of
/// page `n`.
pub(crate) open spec fn id_in_region(
    pages: Seq<PageView>,
    n: int,
    j: int,
    id: u64,
) -> bool {
    exists|pn: int, pi: int|
        #![trigger pages[pn].docs[pi]]
        0 <= pn < pages.len() && 0 <= pi < pages[pn].docs.len() && (pn < n || (pn == n && pi < j))
            && pages[pn].docs[pi].id == id
}

/// No two documents of the scanned region share an identifier.
pub(crate) open spec fn region_unique(pages: Seq<PageView>, n: int, j: int) -> bool {
    forall|p1: int, i1: int, p2: int, i2: int|
        #![trigger pages[p1].docs[i1], pages[p2].docs[i2]]
        0 <= p1 < pages.len() && 0 <= i1 < pages[p1].docs.len() && 0 <= p2 < pages.len() && 0
            <= i2 < pages[p2].docs.len() && (p1 < n || (p1 == n && i1 < j)) && (p2 < n || (p2 == n
            && i2 < j)) && (p1 != p2 || i1 != i2) ==> pages[p1].docs[i1].id
            != pages[p2].docs[i2].id
}

/// The scanned region's index is right: every scanned document's
/// identifier is recorded under its page, and every recorded
/// identifier was scanned.
pub(crate) open spec fn region_indexed(
    pages: Seq<PageView>,
    n: int,
    j: int,
    m: Map<u64, u64>,
) -> bool {
    &&& forall|pn: int, pi: int|
        0 <= pn < pages.len() && 0 <= pi < pages[pn].docs.len() && (pn < n || (pn == n && pi < j))
            ==> m.contains_key((#[trigger] pages[pn].docs[pi]).id) && m[pages[pn].docs[pi].id]
            == pn
    &&& forall|id: u64| #[trigger] m.contains_key(id) ==> id_in_region(pages, n, j, id)
}

impl Collection {
    /// The stored pages, by page number.
    pub closed spec fn pages(&self) -> Seq<PageView> {
        self.collection_file.pages()
    }

    /// The identifier index: document identifier to page number.
    pub closed spec fn index(&self) -> Map<u64, u64> {
        self.id_to_page_map@
    }

    /// The collection's sizing configuration.
    pub closed spec fn config(&self) -> CollectionConfig {
        self.collection_file.config()
    }

    /// Page numbers written since the dirty list was last drained.
    pub closed spec fn dirty(&self) -> Seq<u64> {
        self.collection_file.dirty()
    }

    /// The underlying paged file store.
    pub closed spec fn store(&self) -> CollectionFile {
        self.collection_file
    }

    /// The raw byte extents of the backing file, by page number.
    pub closed spec fn extents(&self) -> Seq<Seq<u8>> {
        self.collection_file.extents()
    }

    /// The collection invariant: the store is well formed, identifiers
    /// are unique across all pages, and the index matches the pages.
    pub open spec fn wf(&self) -> bool {
        &&& self.store().wf()
        &&& unique_ids(self.pages())
        &&& index_matches(self.pages(), self.index())
    }

    /// Whether a document with identifier `id` is stored.
    pub open spec fn resident(&self, id: u64) -> bool {
        self.index().contains_key(id)
    }

    /// The page number holding the document with identifier `id`.
    pub open spec fn page_of(&self, id: u64) -> int {
        self.index()[id] as int
    }

    /// The stored document with identifier `id`.
    pub open spec fn doc_at(&self, id: u64) -> DocView {
        let docs = self.pages()[self.page_of(id)].docs;
        docs[first_doc_index(docs, id)]
    }

    /// Pages and index both unchanged, and nothing newly written.
    pub open spec fn unchanged_from(&self, other: &Collection) -> bool {
        &&& self.pages() == other.pages()
        &&& self.index() == other.index()
        &&& self.dirty() == other.dirty()
    }
}

/// Builds the identifier index for `collection_file`, rejecting a
/// store in which two documents share an identifier.
fn build_unique_index(collection_file: &CollectionFile) -> (r: Result<IdToPageMap, CollectionError>)
    requires
        collection_file.wf(),
    ensures
        match r {
            Ok(m) => {
                &&& m@ == index_of(collection_file.pages())
                &&& unique_ids(collection_file.pages())
                &&& index_matches(collection_file.pages(), m@)
            },
            Err(e) => e == CollectionError::DuplicateError && !unique_ids(
                collection_file.pages(),
            ),
        },
{
    let ghost all_pages = collection_file.pages();
    let mut collection_index: IdToPageMap = HashMap::new();
    let number_of_pages: u64 = collection_file.number_of_pages();

    let mut i: u64 = 0;
    while i < number_of_pages
        invariant
            collection_file.wf(),
            all_pages == collection_file.pages(),
            number_of_pages == all_pages.len(),
            0 <= i <= number_of_pages,
            index_of(all_pages) == index_of_from(all_pages, i as int, collection_index@),
            region_unique(all_pages, i as int, 0),
            region_indexed(all_pages, i as int, 0, collection_index@),
        decreases number_of_pages - i,
    {
        let page = match collection_file.read_page(i) {
            Ok(p) => p,
            Err(e) => {
                return Err(CollectionError::FileError(e));
            },
        };
        let documents = page.documents();
        let ghost docs = page@.docs;
        proof {
            assert(docs.skip(0) =~= docs);
            assert(index_of_from(all_pages, i as int, collection_index@) == index_of_from(
                all_pages,
                i as int + 1,
                page_entries(all_pages[i as int].docs, i, collection_index@),
            ));
        }

        let mut j: usize = 0;
        while j < documents.len()
            invariant
                0 <= j <= documents.len(),
                docs.len() == documents.len(),
                views_of_docs(documents@) == docs,
                i < all_pages.len(),
                docs == all_pages[i as int].docs,
                all_pages == collection_file.pages(),
                index_of(all_pages) == index_of_from(
                    all_pages,
                    i as int + 1,
                    page_entries(docs.skip(j as int), i, collection_index@),
                ),
                region_unique(all_pages, i as int, j as int),
                region_indexed(all_pages, i as int, j as int, collection_index@),
            decreases documents.len() - j,
        {
            let doc_id: u64 = documents[j].id;
            if collection_index.contains_key(&doc_id) {
                proof {
                    let (pn, pi) = choose|pn: int, pi: int|
                        #![trigger all_pages[pn].docs[pi]]
                        0 <= pn < all_pages.len() && 0 <= pi < all_pages[pn].docs.len() && (pn
                            < i as int || (pn == i as int && pi < j as int))
                            && all_pages[pn].docs[pi].id == doc_id;
                    assert(all_pages[pn].docs[pi].id == all_pages[i as int].docs[j as int].id);
                    assert(!unique_ids(all_pages));
                }
                return Err(CollectionError::DuplicateError);
            }
            let ghost rest = docs.skip(j as int);
            proof {
                assert(rest[0] == docs[j as int]);
                assert(rest.skip(1) =~= docs.skip(j as int + 1));
            }
            collection_index.insert(doc_id, i);
            proof {
                assert forall|id: u64| #[trigger]
                    collection_index@.contains_key(id) implies id_in_region(
                    all_pages,
                    i as int,
                    j as int + 1,
                    id,
                ) by {
                    if id == doc_id {
                        assert(all_pages[i as int].docs[j as int].id == id);
                    } else {
                        assert(id_in_region(all_pages, i as int, j as int, id));
                        let (pn, pi) = choose|pn: int, pi: int|
                            #![trigger all_pages[pn].docs[pi]]
                            0 <= pn < all_pages.len() && 0 <= pi < all_pages[pn].docs.len() && (pn
                                < i as int || (pn == i as int && pi < j as int))
                                && all_pages[pn].docs[pi].id == id;
                        assert(all_pages[pn].docs[pi].id == id);
                    }
                }
            }
            j = j + 1;
        }
        proof {
            assert(docs.skip(docs.len() as int) =~= Seq::<DocView>::empty());
            assert forall|id: u64| #[trigger]
                collection_index@.contains_key(id) implies id_in_region(
                all_pages,
                i as int + 1,
                0,
                id,
            ) by {
                assert(id_in_region(all_pages, i as int, docs.len() as int, id));
                let (pn, pi) = choose|pn: int, pi: int|
                    #![trigger all_pages[pn].docs[pi]]
                    0 <= pn < all_pages.len() && 0 <= pi < all_pages[pn].docs.len() && (pn
                        < i as int || (pn == i as int && pi < docs.len()))
                        && all_pages[pn].docs[pi].id == id;
                assert(all_pages[pn].docs[pi].id == id);
            }
        }
        i = i + 1;
    }
    proof {
        assert forall|id: u64| #[trigger]
            collection_index@.contains_key(id) implies 0 <= collection_index@[id]
            < all_pages.len() && has_doc(all_pages[collection_index@[id] as int].docs, id) by {
            assert(id_in_region(all_pages, all_pages.len() as int, 0, id));
            let (pn, pi) = choose|pn: int, pi: int|
                #![trigger all_pages[pn].docs[pi]]
                0 <= pn < all_pages.len() && 0 <= pi < all_pages[pn].docs.len() && (pn
                    < all_pages.len() as int || (pn == all_pages.len() as int && pi < 0))
                    && all_pages[pn].docs[pi].id == id;
            assert(all_pages[pn].docs[pi].id == id);
            assert(collection_index@[id] == pn);
        }
    }
    Ok(collection_index)
}

/// Every stored document, in ascending page order then in-page
/// insertion order.
pub open spec fn all_docs(pages: Seq<PageView>) -> Seq<DocView> {
    pages.map_values(|p: PageView| p.docs).flatten()
}

/// The subsequence of `s` selected by the boolean mask `keep`.
pub open spec fn mask_select(s: Seq<DocView>, keep: Seq<bool>) -> Seq<DocView>
    recommends
        s.len() == keep.len(),
    decreases s.len(),
{
    if s.len() == 0 {
        Seq::empty()
    } else {
        let rest = mask_select(s.drop_last(), keep.drop_last());
        if keep.len() == s.len() && keep.last() {
            rest.push(s.last())
        } else {
            rest
        }
    }
}

/// Selecting after appending one element appends it exactly when its
/// mask bit is set.
proof fn lemma_mask_select_push(s: Seq<DocView>, keep: Seq<bool>, d: DocView, b: bool)
    requires
        s.len() == keep.len(),
    ensures
        mask_select(s.push(d), keep.push(b)) == if b {
            mask_select(s, keep).push(d)
        } else {
            mask_select(s, keep)
        },
{
    assert(s.push(d).drop_last() =~= s);
    assert(keep.push(b).drop_last() =~= keep);
    assert(s.push(d).last() == d);
    assert(keep.push(b).last() == b);
}

/// One more page's documents extend the page-ordered document list.
proof fn lemma_all_docs_take_step(pages: Seq<PageView>, n: int)
    requires
        0 <= n < pages.len(),
    ensures
        all_docs(pages.take(n + 1)) == all_docs(pages.take(n)) + pages[n].docs,
{
    let rows = |p: PageView| p.docs;
    assert(pages.take(n + 1).map_values(rows) =~= pages.take(n).map_values(rows).push(
        pages[n].docs,
    ));
    pages.take(n).map_values(rows).lemma_flatten_push(pages[n].docs);
}

/// Characterizes `first_fit_from`: it lands on the first page at or
/// after `i` with room for `size` bytes, or on `pages.len()` when no
/// page has room.
proof fn lemma_first_fit_from(pages: Seq<PageView>, size: int, i: int)
    requires
        0 <= i <= pages.len(),
    ensures
        i <= first_fit_from(pages, size, i) <= pages.len(),
        first_fit_from(pages, size, i) < pages.len() ==> pages[first_fit_from(
            pages,
            size,
            i,
        )].header.free_space_available >= size,
        forall|j: int|
            i <= j < first_fit_from(pages, size, i) ==> pages[j].header.free_space_available
                < size,
    decreases pages.len() - i,
{
    if i < pages.len() && pages[i].header.free_space_available < size {
        lemma_first_fit_from(pages, size, i + 1);
    }
}

/// Landing a document with a fresh identifier on a page keeps
/// identifiers unique and the index matching the pages.
proof fn lemma_insert_preserves_wf(
    p0: Seq<PageView>,
    m0: Map<u64, u64>,
    t: int,
    d: DocView,
    budget: u64,
    p1: Seq<PageView>,
    m1: Map<u64, u64>,
)
    requires
        unique_ids(p0),
        index_matches(p0, m0),
        !m0.contains_key(d.id),
        0 <= t <= p0.len(),
        t <= u64::MAX,
        p1 == insert_at(p0, t, d, budget),
        m1 == m0.insert(d.id, t as u64),
    ensures
        unique_ids(p1),
        index_matches(p1, m1),
{
    let id = d.id;
    // no position anywhere in p0 already holds d's identifier
    assert forall|n: int, i: int|
        0 <= n < p0.len() && 0 <= i < p0[n].docs.len() implies (#[trigger] p0[n].docs[i]).id
        != id by {
        assert(m0.contains_key(p0[n].docs[i].id));
    }
    // where every position of p1 comes from
    assert forall|n: int, i: int|
        0 <= n < p1.len() && 0 <= i < p1[n].docs.len() implies {
        let doc = #[trigger] p1[n].docs[i];
        (n == t && i == p1[t].docs.len() - 1 && doc == d) || (0 <= n < p0.len() && i
            < p0[n].docs.len() && doc == p0[n].docs[i])
    } by {
        if t < p0.len() {
            assert(p1[t].docs == p0[t].docs.push(d));
        } else {
            assert(p1[t].docs == Seq::<DocView>::empty().push(d));
        }
    }
    assert forall|n1: int, i1: int, n2: int, i2: int|
        #![trigger p1[n1].docs[i1], p1[n2].docs[i2]]
        0 <= n1 < p1.len() && 0 <= i1 < p1[n1].docs.len() && 0 <= n2 < p1.len() && 0 <= i2
            < p1[n2].docs.len() && (n1 != n2 || i1 != i2) implies p1[n1].docs[i1].id
        != p1[n2].docs[i2].id by {}
    assert forall|n: int, i: int|
        0 <= n < p1.len() && 0 <= i < p1[n].docs.len() implies m1.contains_key(
        (#[trigger] p1[n].docs[i]).id,
    ) && m1[p1[n].docs[i].id] == n by {}
    assert forall|k: u64| #[trigger] m1.contains_key(k) implies 0 <= m1[k] < p1.len() && has_doc(
        p1[m1[k] as int].docs,
        k,
    ) by {
        if k == id {
            if t < p0.len() {
                assert(p1[t].docs == p0[t].docs.push(d));
                assert(p1[t].docs[p0[t].docs.len() as int].id == k);
            } else {
                assert(p1[t].docs == Seq::<DocView>::empty().push(d));
                assert(p1[t].docs[0].id == k);
            }
        } else {
            let pk = m0[k] as int;
            let i = choose|i: int| 0 <= i < p0[pk].docs.len() && p0[pk].docs[i].id == k;
            if pk == t && t < p0.len() {
                assert(p1[t].docs == p0[t].docs.push(d));
                assert(p1[pk].docs[i].id == k);
            } else {
                assert(p1[pk].docs[i].id == k);
            }
        }
    }
}

/// Replacing a document in place with one carrying the same
/// identifier keeps identifiers unique and the index matching.
proof fn lemma_update_preserves_wf(
    p0: Seq<PageView>,
    m0: Map<u64, u64>,
    pn: int,
    i: int,
    d: DocView,
    p1: Seq<PageView>,
)
    requires
        unique_ids(p0),
        index_matches(p0, m0),
        0 <= pn < p0.len(),
        0 <= i < p0[pn].docs.len(),
        p0[pn].docs[i].id == d.id,
        p1 == p0.update(pn, p0[pn].with_doc_updated(i, d)),
    ensures
        unique_ids(p1),
        index_matches(p1, m0),
{
    assert(p1[pn].docs == p0[pn].docs.update(i, d));
    assert forall|n: int, k: int|
        0 <= n < p1.len() && 0 <= k < p1[n].docs.len() implies (#[trigger] p1[n].docs[k]).id
        == p0[n].docs[k].id by {}
    assert forall|n1: int, i1: int, n2: int, i2: int|
        #![trigger p1[n1].docs[i1], p1[n2].docs[i2]]
        0 <= n1 < p1.len() && 0 <= i1 < p1[n1].docs.len() && 0 <= n2 < p1.len() && 0 <= i2
            < p1[n2].docs.len() && (n1 != n2 || i1 != i2) implies p1[n1].docs[i1].id
        != p1[n2].docs[i2].id by {
        assert(p0[n1].docs[i1].id != p0[n2].docs[i2].id);
    }
    assert forall|k: u64| #[trigger] m0.contains_key(k) implies 0 <= m0[k] < p1.len() && has_doc(
        p1[m0[k] as int].docs,
        k,
    ) by {
        let nk = m0[k] as int;
        let jk = choose|jk: int| 0 <= jk < p0[nk].docs.len() && p0[nk].docs[jk].id == k;
        assert(p1[nk].docs[jk].id == k);
    }
}

/// Removing the document at position `i` of page `pn` by the
/// swap-with-last scheme keeps identifiers unique, and the index less
/// that identifier matches the pages.
proof fn lemma_remove_preserves_wf(
    p0: Seq<PageView>,
    m0: Map<u64, u64>,
    pn: int,
    i: int,
    p1: Seq<PageView>,
    m1: Map<u64, u64>,
)
    requires
        unique_ids(p0),
        index_matches(p0, m0),
        0 <= pn < p0.len(),
        0 <= i < p0[pn].docs.len(),
        i == first_doc_index(p0[pn].docs, p0[pn].docs[i].id),
        p1 == p0.update(pn, p0[pn].with_doc_removed(i)),
        m1 == m0.remove(p0[pn].docs[i].id),
    ensures
        unique_ids(p1),
        index_matches(p1, m1),
        !m1.contains_key(p0[pn].docs[i].id),
{
    let id = p0[pn].docs[i].id;
    let len0 = p0[pn].docs.len() as int;
    assert(p1[pn].docs == p0[pn].docs.update(i, p0[pn].docs.last()).drop_last());
    // every position of p1 holds a document from a distinct position of p0,
    // and none of them is the removed one
    assert forall|n: int, k: int|
        0 <= n < p1.len() && 0 <= k < p1[n].docs.len() implies {
        let doc = #[trigger] p1[n].docs[k];
        &&& (n != pn ==> doc == p0[n].docs[k])
        &&& (n == pn && k != i ==> doc == p0[n].docs[k])
        &&& (n == pn && k == i ==> doc == p0[n].docs[len0 - 1])
        &&& doc.id != id || (n == pn && k == i && i == len0 - 1)
    } by {
        if n == pn {
            if k == i && i < len0 - 1 {
                assert(p0[pn].docs[len0 - 1].id != p0[pn].docs[i].id);
            } else if k != i {
                assert(p0[pn].docs[k].id != p0[pn].docs[i].id);
            }
        } else {
            assert(p0[n].docs[k].id != p0[pn].docs[i].id);
        }
    }
    assert forall|n1: int, i1: int, n2: int, i2: int|
        #![trigger p1[n1].docs[i1], p1[n2].docs[i2]]
        0 <= n1 < p1.len() && 0 <= i1 < p1[n1].docs.len() && 0 <= n2 < p1.len() && 0 <= i2
            < p1[n2].docs.len() && (n1 != n2 || i1 != i2) implies p1[n1].docs[i1].id
        != p1[n2].docs[i2].id by {}
    assert forall|n: int, k: int|
        0 <= n < p1.len() && 0 <= k < p1[n].docs.len() implies m1.contains_key(
        (#[trigger] p1[n].docs[k]).id,
    ) && m1[p1[n].docs[k].id] == n by {
        if n == pn && k == i {
            assert(p0[pn].docs[len0 - 1].id != id);
        }
    }
    assert forall|k: u64| #[trigger] m1.contains_key(k) implies 0 <= m1[k] < p1.len() && has_doc(
        p1[m1[k] as int].docs,
        k,
    ) by {
        let nk = m1[k] as int;
        let jk = choose|jk: int| 0 <= jk < p0[nk].docs.len() && p0[nk].docs[jk].id == k;
        if nk == pn {
            assert(jk != i);
            if jk == len0 - 1 {
                assert(p1[pn].docs[i].id == k);
            } else {
                assert(p1[pn].docs[jk].id == k);
            }
        } else {
            assert(p1[nk].docs[jk].id == k);
        }
    }
}

/// After a document with a fresh identifier lands on page `t`, the
/// index maps its identifier to `t`, and the first document with that
/// identifier on page `t` is the new one.
proof fn lemma_doc_found_after_insert(
    p0: Seq<PageView>,
    m0: Map<u64, u64>,
    d: DocView,
    t: int,
    budget: u64,
    p1: Seq<PageView>,
    m1: Map<u64, u64>,
)
    requires
        unique_ids(p0),
        index_matches(p0, m0),
        !m0.contains_key(d.id),
        0 <= t <= p0.len() <= u64::MAX,
        p1 == insert_at(p0, t, d, budget),
        m1 == m0.insert(d.id, t as u64),
    ensures
        m1.contains_key(d.id),
        m1[d.id] == t as u64,
        p1[t].docs[first_doc_index(p1[t].docs, d.id)] == d,
{
    let id = d.id;
    let docs1 = p1[t].docs;
    if t < p0.len() {
        assert(docs1 == p0[t].docs.push(d));
        assert forall|j: int| 0 <= j < p0[t].docs.len() implies docs1[j].id != id by {
            assert(m0.contains_key(p0[t].docs[j].id));
        }
        assert(docs1[p0[t].docs.len() as int].id == id);
        lemma_first_doc_index_from(docs1, id, 0);
        let f = first_doc_index(docs1, id);
        assert(docs1[f].id == id);
        assert(f == p0[t].docs.len());
    } else {
        assert(docs1 == Seq::<DocView>::empty().push(d));
        lemma_first_doc_index_from(docs1, id, 0);
        assert(docs1[0].id == id);
        assert(first_doc_index(docs1, id) == 0);
    }
}

/// Insert-then-find: for a document not previously stored and not
/// exceeding the size budget, after it is inserted, looking its
/// identifier up yields exactly that document.
pub proof fn lemma_insert_then_find(c0: Collection, c1: Collection, d: DocView)
    requires
        c0.wf(),
        c1.wf(),
        c0.pages().len() <= u64::MAX,
        !c0.resident(d.id),
        doc_size(d) <= c0.config().data_budget,
        c1.pages() == insert_at(
            c0.pages(),
            first_fit(c0.pages(), doc_size(d)),
            d,
            c0.config().data_budget,
        ),
        c1.index() == c0.index().insert(d.id, first_fit(c0.pages(), doc_size(d)) as u64),
    ensures
        c1.resident(d.id),
        c1.doc_at(d.id) == d,
{
    let t = first_fit(c0.pages(), doc_size(d));
    lemma_first_fit_from(c0.pages(), doc_size(d), 0);
    lemma_doc_found_after_insert(
        c0.pages(),
        c0.index(),
        d,
        t,
        c0.config().data_budget,
        c1.pages(),
        c1.index(),
    );
}

/// Update in place: updating a document whose new version still fits
/// its current page's free space preserves its page assignment, and
/// lookup then sees the new content.
pub proof fn lemma_update_in_place_find(c0: Collection, c1: Collection, d: DocView)
    requires
        c0.wf(),
        c1.wf(),
        c0.resident(d.id),
        ({
            let pn = c0.page_of(d.id);
            let page = c0.pages()[pn];
            let i = first_doc_index(page.docs, d.id);
            &&& doc_size(d) <= page.header.free_space_available + doc_size(page.docs[i])
            &&& c1.pages() == c0.pages().update(pn, page.with_doc_updated(i, d))
            &&& c1.index() == c0.index()
        }),
    ensures
        c1.resident(d.id),
        c1.page_of(d.id) == c0.page_of(d.id),
        c1.doc_at(d.id) == d,
{
    let id = d.id;
    let pn = c0.page_of(id);
    let docs0 = c0.pages()[pn].docs;
    let i = first_doc_index(docs0, id);
    lemma_first_doc_index_from(docs0, id, 0);
    let docs1 = c1.pages()[pn].docs;
    assert(docs1 == docs0.update(i, d));
    lemma_first_doc_index_from(docs1, id, 0);
    let f = first_doc_index(docs1, id);
    assert(docs1[i].id == id);
    assert(f <= i);
    assert(f == i) by {
        if f < i {
            assert(docs0[f].id != id);
            assert(docs1[f] == docs0[f]);
        }
    }
}

/// Update with relocation: when the new version could not stay on its
/// old page, the old copy is gone from that page, and lookup sees the
/// new version on the page the insertion policy chose, which is a
/// different page.
pub proof fn lemma_update_relocated_find(c0: Collection, c1: Collection, d: DocView)
    requires
        c0.wf(),
        c1.wf(),
        c0.pages().len() <= u64::MAX,
        c0.resident(d.id),
        doc_size(d) <= c0.config().data_budget,
        ({
            let pn = c0.page_of(d.id);
            let page = c0.pages()[pn];
            let i = first_doc_index(page.docs, d.id);
            let mid = c0.pages().update(pn, page.with_doc_removed(i));
            let t = first_fit(mid, doc_size(d));
            &&& doc_size(d) > page.header.free_space_available + doc_size(page.docs[i])
            &&& c1.pages() == insert_at(mid, t, d, c0.config().data_budget)
            &&& c1.index() == c0.index().insert(d.id, t as u64)
        }),
    ensures
        c1.resident(d.id),
        c1.doc_at(d.id) == d,
        c1.page_of(d.id) != c0.page_of(d.id),
        !has_doc(c1.pages()[c0.page_of(d.id)].docs, d.id),
{
    let id = d.id;
    let pn = c0.page_of(id);
    let page = c0.pages()[pn];
    let docs0 = page.docs;
    let i = first_doc_index(docs0, id);
    lemma_first_doc_index_from(docs0, id, 0);
    let mid = c0.pages().update(pn, page.with_doc_removed(i));
    let m_mid = c0.index().remove(id);
    let t = first_fit(mid, doc_size(d));
    lemma_remove_preserves_wf(c0.pages(), c0.index(), pn, i, mid, m_mid);
    lemma_first_fit_from(mid, doc_size(d), 0);
    // the old page has too little room even after the removal, so the
    // first-fit scan passes it over
    assert(mid[pn].header.free_space_available < doc_size(d));
    assert(t != pn);
    assert(c0.index().insert(id, t as u64) =~= m_mid.insert(id, t as u64));
    lemma_doc_found_after_insert(
        mid,
        m_mid,
        d,
        t,
        c0.config().data_budget,
        c1.pages(),
        c1.index(),
    );
    assert(c1.pages()[pn] == mid[pn]);
    if has_doc(mid[pn].docs, id) {
        let j = choose|j: int| 0 <= j < mid[pn].docs.len() && mid[pn].docs[j].id == id;
        assert(m_mid.contains_key(mid[pn].docs[j].id));
    }
}

/// Index rebuild idempotence: two well-formed collections over the
/// same pages carry the same identifier index, so reopening a
/// collection from the same backing file reproduces it.
pub proof fn lemma_index_rebuild_identical(c1: Collection, c2: Collection)
    requires
        c1.wf(),
        c2.wf(),
        c1.pages() == c2.pages(),
    ensures
        c1.index() == c2.index(),
{
    let m1 = c1.index();
    let m2 = c2.index();
    assert forall|id: u64| #[trigger] m1.contains_key(id) implies m2.contains_key(id) && m2[id]
        == m1[id] by {
        let n = m1[id] as int;
        let j = choose|j: int| 0 <= j < c1.pages()[n].docs.len() && c1.pages()[n].docs[j].id
            == id;
        assert(m2.contains_key(c2.pages()[n].docs[j].id));
    }
    assert forall|id: u64| #[trigger] m2.contains_key(id) implies m1.contains_key(id) by {
        let n = m2[id] as int;
        let j = choose|j: int| 0 <= j < c2.pages()[n].docs.len() && c2.pages()[n].docs[j].id
            == id;
        assert(m1.contains_key(c1.pages()[n].docs[j].id));
    }
    assert(m1 =~= m2);
}

/// Predicate scan correctness: when every mask bit is the value of one
/// predicate on the document's content, the selected subsequence is
/// exactly the documents satisfying the predicate, in order.
pub proof fn lemma_mask_select_is_filter(
    s: Seq<DocView>,
    keep: Seq<bool>,
    p: spec_fn(DocView) -> bool,
)
    requires
        keep.len() == s.len(),
        forall|i: int| 0 <= i < s.len() ==> keep[i] == p(s[i]),
    ensures
        mask_select(s, keep) == s.filter(p),
    decreases s.len(),
{
    reveal(Seq::filter);
    if s.len() > 0 {
        lemma_mask_select_is_filter(s.drop_last(), keep.drop_last(), p);
    }
}

impl Collection {
    /// Opens a collection from the raw bytes of its backing file
    /// (empty bytes mean a fresh collection), then builds the
    /// identifier index by one full scan.  Fails on bytes that are not
    /// a well-formed backing file, and on a file in which two
    /// documents share an identifier.
    pub fn new(raw: Vec<u8>, config: CollectionConfig) -> (r: Result<Collection, CollectionError>)
        requires
            config.wf(),
        ensures
            match r {
                Ok(c) => {
                    &&& c.wf()
                    &&& c.config() == config
                    &&& c.index() == index_of(c.pages())
                    &&& if raw@.len() == 0 {
                        &&& c.pages() == seq![PageView::empty(0, config.data_budget)]
                        &&& c.dirty() == seq![0u64]
                    } else {
                        &&& raw_matches(raw@, config, c.pages())
                        &&& (forall|s: Seq<PageView>|
                            raw_matches(raw@, config, s) ==> s == c.pages())
                        &&& c.dirty() == Seq::<u64>::empty()
                    }
                },
                Err(e) => {
                    &&& raw@.len() != 0
                    &&& match e {
                        CollectionError::FileError(fe) => fe
                            == CollectionFileError::SerializationError && !(exists|
                            s: Seq<PageView>,
                        | raw_matches(raw@, config, s) && pages_inv(s, config)),
                        CollectionError::DuplicateError => exists|s: Seq<PageView>|
                            raw_matches(raw@, config, s) && pages_inv(s, config)
                                && !unique_ids(s),
                        _ => false,
                    }
                },
            },
    {
        let ghost raw_view = raw@;
        let collection_file = match CollectionFile::new(raw, config) {
            Ok(f) => f,
            Err(e) => {
                return Err(CollectionError::FileError(e));
            },
        };
        let collection_id_idx = match build_unique_index(&collection_file) {
            Ok(m) => m,
            Err(e) => {
                proof {
                    if raw_view.len() == 0 {
                        let pages = collection_file.pages();
                        assert forall|n1: int, i1: int, n2: int, i2: int|
                            #![trigger pages[n1].docs[i1], pages[n2].docs[i2]]
                            0 <= n1 < pages.len() && 0 <= i1 < pages[n1].docs.len() && 0 <= n2
                                < pages.len() && 0 <= i2 < pages[n2].docs.len() && (n1 != n2 || i1
                                != i2) implies pages[n1].docs[i1].id
                            != pages[n2].docs[i2].id by {
                            assert(pages[n1].docs.len() == 0);
                        }
                        assert(unique_ids(pages));
                    } else {
                        assert(raw_matches(raw_view, config, collection_file.pages())
                            && pages_inv(collection_file.pages(), config) && !unique_ids(
                            collection_file.pages(),
                        ));
                    }
                }
                return Err(e);
            },
        };
        let c = Collection { id_to_page_map: collection_id_idx, collection_file };
        Ok(c)
    }

    /// Scans page headers in ascending page order and returns the
    /// first page whose free space can hold a document of size
    /// `document_size`; when no existing page qualifies (including the
    /// zero-pages case), a brand-new page at the end of the store.
    fn get_first_page_with_enough_space(&self, document_size: u64) -> (r: Result<
        CollectionPage,
        CollectionError,
    >)
        requires
            self.wf(),
        ensures
            ({
                let t = first_fit(self.pages(), document_size as int);
                match r {
                    Ok(p) => {
                        &&& p@.header.page_number == t
                        &&& p@.wf(self.config().data_budget)
                        &&& (document_size <= self.config().data_budget ==> document_size as int
                            <= p@.header.free_space_available)
                        &&& if t < self.pages().len() {
                            p@ == self.pages()[t]
                        } else {
                            p@ == PageView::empty(t, self.config().data_budget)
                        }
                    },
                    Err(_) => false,
                }
            }),
    {
        let number_of_pages: u64 = self.collection_file.number_of_pages();

        if number_of_pages == 0 {
            return Ok(CollectionPage::new(0, self.collection_file.get_config().data_budget));
        }

        let mut i: u64 = 0;
        while i < number_of_pages
            invariant
                self.wf(),
                number_of_pages == self.pages().len(),
                0 <= i <= number_of_pages,
                first_fit(self.pages(), document_size as int) == first_fit_from(
                    self.pages(),
                    document_size as int,
                    i as int,
                ),
            decreases number_of_pages - i,
        {
            let collection_page_header = match self.collection_file.read_page_header(i) {
                Ok(h) => h,
                Err(e) => {
                    return Err(CollectionError::FileError(e));
                },
            };

            if collection_page_header.space_available() >= document_size {
                proof {
                    assert(page_slot_inv(self.pages()[i as int], i as int, self.config()));
                }
                return match self.collection_file.read_page(i) {
                    Ok(p) => Ok(p),
                    Err(e) => Err(CollectionError::FileError(e)),
                };
            }
            i = i + 1;
        }

        let fresh = CollectionPage::new(
            number_of_pages,
            self.collection_file.get_config().data_budget,
        );
        proof {
            assert(docs_size(fresh@.docs) == 0);
        }
        Ok(fresh)
    }

    /// Inserts `doc` into the in-memory page `collection_page`,
    /// persists the whole page, and records the document's page
    /// number in the index.
    fn write_document_to_page(&mut self, doc: &Document, collection_page: &mut CollectionPage)
        -> (r: Result<(), CollectionError>)
        requires
            old(self).wf(),
            !old(self).resident(doc@.id),
            doc_size(doc@) <= old(collection_page)@.header.free_space_available,
            old(collection_page)@.wf(old(self).config().data_budget),
            old(collection_page)@.header.page_number <= old(self).pages().len(),
            old(collection_page)@.header.page_number < old(self).pages().len()
                ==> old(collection_page)@ == old(self).pages()[old(
                collection_page,
            )@.header.page_number],
            old(collection_page)@.header.page_number == old(self).pages().len()
                ==> old(collection_page)@ == PageView::empty(
                old(self).pages().len() as int,
                old(self).config().data_budget,
            ),
        ensures
            final(self).wf(),
            final(self).config() == old(self).config(),
            r == Ok::<(), CollectionError>(()),
            ({
                let t = old(collection_page)@.header.page_number;
                &&& final(self).pages() == insert_at(
                    old(self).pages(),
                    t,
                    doc@,
                    old(self).config().data_budget,
                )
                &&& final(self).index() == old(self).index().insert(doc@.id, t as u64)
                &&& final(self).dirty() == old(self).dirty().push(t as u64)
            }),
    {
        let doc_id: u64 = doc.id();
        let ghost budget = self.config().data_budget;
        let ghost page0 = collection_page@;
        proof {
            lemma_docs_size_bounds(page0.docs);
        }
        match collection_page.insert_document(doc.clone()) {
            Ok(()) => {},
            Err(e) => {
                return Err(CollectionError::PageError(e));
            },
        }
        proof {
            lemma_docs_size_push(page0.docs, doc@);
            assert(collection_page@.wf(budget));
        }
        match self.collection_file.write_page(collection_page) {
            Ok(()) => {},
            Err(e) => {
                return Err(CollectionError::FileError(e));
            },
        }
        let page_number: u64 = collection_page.get_page_number();
        self.id_to_page_map.insert(doc_id, page_number);
        proof {
            lemma_insert_preserves_wf(
                old(self).pages(),
                old(self).index(),
                page0.header.page_number as int,
                doc@,
                budget,
                self.pages(),
                self.index(),
            );
        }
        Ok(())
    }

    /// Inserts a document.  A document whose serialized size exceeds
    /// the data budget can never fit any page and fails with
    /// `DocumentTooBig`; an identifier already present fails with
    /// `DuplicateError`; otherwise the document lands on the first
    /// page with enough free space, or on a brand-new page when none
    /// has room.
    pub fn insert_one(&mut self, doc: &Document) -> (r: Result<(), CollectionError>)
        requires
            old(self).wf(),
        ensures
            final(self).wf(),
            final(self).config() == old(self).config(),
            match r {
                Ok(()) => {
                    &&& doc_size(doc@) <= old(self).config().data_budget
                    &&& !old(self).resident(doc@.id)
                    &&& ({
                        let t = first_fit(old(self).pages(), doc_size(doc@));
                        &&& final(self).pages() == insert_at(
                            old(self).pages(),
                            t,
                            doc@,
                            old(self).config().data_budget,
                        )
                        &&& final(self).index() == old(self).index().insert(doc@.id, t as u64)
                        &&& final(self).dirty() == old(self).dirty().push(t as u64)
                    })
                },
                Err(CollectionError::DocumentTooBig) => doc_size(doc@) > old(
                    self,
                ).config().data_budget && final(self).unchanged_from(old(self)),
                Err(CollectionError::DuplicateError) => {
                    &&& doc_size(doc@) <= old(self).config().data_budget
                    &&& old(self).resident(doc@.id)
                    &&& final(self).unchanged_from(old(self))
                },
                _ => false,
            },
    {
        let doc_id: u64 = doc.id();
        let budget: u64 = self.collection_file.get_config().data_budget;
        let document_size: u64 = match crate::document::document_size(doc) {
            Some(s) => s,
            None => {
                return Err(CollectionError::DocumentTooBig);
            },
        };

        if document_size > budget {
            return Err(CollectionError::DocumentTooBig);
        }

        if self.id_to_page_map.contains_key(&doc_id) {
            return Err(CollectionError::DuplicateError);
        }

        let mut page = match self.get_first_page_with_enough_space(document_size) {
            Ok(p) => p,
            Err(e) => {
                return Err(e);
            },
        };

        proof {
            lemma_first_fit_from(self.pages(), document_size as int, 0);
        }

        match self.write_document_to_page(doc, &mut page) {
            Ok(()) => Ok(()),
            Err(e) => Err(e),
        }
    }

    /// Updates the document whose identifier matches `doc_update`'s.
    /// When the new version still fits its current page, it is
    /// replaced in place and keeps its page; when it no longer fits,
    /// the old copy is removed from its page and the new version is
    /// reinserted through the normal insertion path, which may place
    /// it on a different page.  Fails with `NotFoundError` when the
    /// identifier is not stored, and with `DocumentTooBig` when the
    /// new version exceeds the data budget (the old copy is then
    /// already gone).
    pub fn update_one(&mut self, doc_update: &Document) -> (r: Result<(), CollectionError>)
        requires
            old(self).wf(),
        ensures
            final(self).wf(),
            final(self).config() == old(self).config(),
            ({
                let id = doc_update@.id;
                let new_size = doc_size(doc_update@);
                let budget = old(self).config().data_budget;
                if !old(self).resident(id) {
                    &&& r == Err::<(), CollectionError>(CollectionError::NotFoundError)
                    &&& final(self).unchanged_from(old(self))
                } else {
                    let pn = old(self).page_of(id);
                    let page = old(self).pages()[pn];
                    let i = first_doc_index(page.docs, id);
                    let old_size = doc_size(page.docs[i]);
                    if new_size <= page.header.free_space_available + old_size {
                        &&& r == Ok::<(), CollectionError>(())
                        &&& final(self).pages() == old(self).pages().update(
                            pn,
                            page.with_doc_updated(i, doc_update@),
                        )
                        &&& final(self).index() == old(self).index()
                        &&& final(self).dirty() == old(self).dirty().push(pn as u64)
                    } else {
                        let mid = old(self).pages().update(pn, page.with_doc_removed(i));
                        if new_size <= budget {
                            let t = first_fit(mid, new_size);
                            &&& r == Ok::<(), CollectionError>(())
                            &&& final(self).pages() == insert_at(mid, t, doc_update@, budget)
                            &&& final(self).index() == old(self).index().insert(id, t as u64)
                            &&& final(self).dirty() == old(self).dirty().push(pn as u64).push(
                                t as u64,
                            )
                        } else {
                            &&& r == Err::<(), CollectionError>(CollectionError::DocumentTooBig)
                            &&& final(self).pages() == mid
                            &&& final(self).index() == old(self).index().remove(id)
                            &&& final(self).dirty() == old(self).dirty().push(pn as u64)
                        }
                    }
                }
            }),
    {
        let doc_id: u64 = doc_update.id();
        let page_number: u64 = match self.id_to_page_map.get(&doc_id) {
            Some(pn) => *pn,
            None => {
                return Err(CollectionError::NotFoundError);
            },
        };
        let mut page = match self.collection_file.read_page(page_number) {
            Ok(p) => p,
            Err(e) => {
                return Err(CollectionError::FileError(e));
            },
        };

        let ghost pages0 = self.pages();
        let ghost m0 = self.index();
        let ghost pn = page_number as int;
        let ghost docs0 = pages0[pn].docs;
        let ghost i = first_doc_index(docs0, doc_id);
        let ghost budget = self.config().data_budget;
        proof {
            lemma_first_doc_index_from(docs0, doc_id, 0);
            lemma_docs_size_bounds(docs0);
            crate::collection_page::lemma_docs_size_elem(docs0, i);
        }

        // in-place attempt; skipped when the new version cannot even
        // be measured, in which case it fits nowhere
        if crate::document::document_size(doc_update).is_some() {
            match page.update_document(doc_update.clone()) {
                Ok(()) => {
                    proof {
                        crate::collection_page::lemma_docs_size_update(docs0, i, doc_update@);
                    }
                    match self.collection_file.write_page(&page) {
                        Ok(()) => {},
                        Err(e) => {
                            return Err(CollectionError::FileError(e));
                        },
                    }
                    proof {
                        lemma_update_preserves_wf(pages0, m0, pn, i, doc_update@, self.pages());
                    }
                    return Ok(());
                },
                Err(CollectionPageError::NoFreeSpaceAvailable) => {},
                Err(e) => {
                    // the index said the page holds the identifier
                    return Err(CollectionError::PageError(e));
                },
            }
        }

        // relocation: remove the old copy, persist that removal, drop
        // the index entry, and reinsert through the insertion path
        match page.remove_document(doc_id) {
            Ok(_) => {},
            Err(e) => {
                return Err(CollectionError::PageError(e));
            },
        }
        proof {
            crate::collection_page::lemma_docs_size_update(docs0, i, docs0.last());
            assert(docs0.update(i, docs0.last()).last() == docs0.last());
        }
        match self.collection_file.write_page(&page) {
            Ok(()) => {},
            Err(e) => {
                return Err(CollectionError::FileError(e));
            },
        }
        self.id_to_page_map.remove(&doc_id);
        proof {
            lemma_remove_preserves_wf(pages0, m0, pn, i, self.pages(), self.index());
        }

        let ghost mid_pages = pages0.update(pn, pages0[pn].with_doc_removed(i));
        proof {
            assert(self.pages() == mid_pages);
        }
        let reinserted = self.insert_one(doc_update);
        proof {
            if reinserted is Ok {
                let t = first_fit(mid_pages, doc_size(doc_update@));
                assert(m0.remove(doc_id).insert(doc_id, t as u64) =~= m0.insert(
                    doc_id,
                    t as u64,
                ));
            }
        }
        match reinserted {
            Ok(()) => Ok(()),
            Err(e) => Err(e),
        }
    }

    /// Returns a copy of the stored document with identifier `id`, or
    /// `None` when no such document is stored.
    pub fn find_by_id(&self, id: u64) -> (r: Option<Document>)
        requires
            self.wf(),
        ensures
            match r {
                Some(d) => self.resident(id) && d@ == self.doc_at(id),
                None => !self.resident(id),
            },
    {
        let page_number: u64 = match self.id_to_page_map.get(&id) {
            Some(pn) => *pn,
            None => {
                return None;
            },
        };
        let page = match self.collection_file.read_page(page_number) {
            Ok(p) => p,
            Err(_) => {
                return None;
            },
        };
        page.find_document(id)
    }

    /// Returns copies of every stored document the predicate accepts,
    /// collecting matches in ascending page order then in-page
    /// insertion order.  The result is exactly the documents whose
    /// mask bit the predicate set.
    pub fn find_by<F: Fn(&Document) -> bool>(&self, filter: F) -> (r: Vec<Document>)
        requires
            self.wf(),
            forall|d: &Document| #[trigger] filter.requires((d,)),
        ensures
            exists|keep: Seq<bool>, witnesses: Seq<Document>|
                #![trigger mask_select(all_docs(self.pages()), keep), views_of_docs(witnesses)]
                {
                    &&& keep.len() == all_docs(self.pages()).len()
                    &&& views_of_docs(witnesses) == all_docs(self.pages())
                    &&& (forall|i: int|
                        0 <= i < keep.len() ==> filter.ensures(
                            (&witnesses[i],),
                            #[trigger] keep[i],
                        ))
                    &&& views_of_docs(r@) == mask_select(all_docs(self.pages()), keep)
                },
    {
        let ghost pages = self.pages();
        let mut matching_docs: Vec<Document> = Vec::new();
        let ghost mut keep: Seq<bool> = Seq::empty();
        let ghost mut wits: Seq<Document> = Seq::empty();
        let number_of_pages: u64 = self.collection_file.number_of_pages();

        let mut page_number: u64 = 0;
        while page_number < number_of_pages
            invariant
                self.wf(),
                pages == self.pages(),
                number_of_pages == pages.len(),
                0 <= page_number <= number_of_pages,
                keep.len() == all_docs(pages.take(page_number as int)).len(),
                wits.len() == keep.len(),
                views_of_docs(wits) == all_docs(pages.take(page_number as int)),
                forall|i: int|
                    0 <= i < keep.len() ==> filter.ensures((&wits[i],), #[trigger] keep[i]),
                views_of_docs(matching_docs@) == mask_select(
                    all_docs(pages.take(page_number as int)),
                    keep,
                ),
                forall|d: &Document| #[trigger] filter.requires((d,)),
            decreases number_of_pages - page_number,
        {
            let page = match self.collection_file.read_page(page_number) {
                Ok(p) => p,
                Err(_) => {
                    return matching_docs;
                },
            };
            let documents = page.documents();
            let ghost docs = page@.docs;
            let ghost before = all_docs(pages.take(page_number as int));
            proof {
                assert(docs.take(0) =~= Seq::<DocView>::empty());
                assert(before + docs.take(0) =~= before);
            }

            let mut j: usize = 0;
            while j < documents.len()
                invariant
                    0 <= j <= documents.len(),
                    docs.len() == documents.len(),
                    views_of_docs(documents@) == docs,
                    keep.len() == before.len() + j,
                    wits.len() == keep.len(),
                    views_of_docs(wits) == before + docs.take(j as int),
                    forall|i: int|
                        0 <= i < keep.len() ==> filter.ensures((&wits[i],), #[trigger] keep[i]),
                    views_of_docs(matching_docs@) == mask_select(
                        before + docs.take(j as int),
                        keep,
                    ),
                    forall|d: &Document| #[trigger] filter.requires((d,)),
                decreases documents.len() - j,
            {
                let ghost seen = before + docs.take(j as int);
                let ghost keep_before = keep;
                let ghost wits_before = wits;
                let document = &documents[j];
                let matched: bool = filter(document);
                proof {
                    keep = keep.push(matched);
                    wits = wits.push(documents@[j as int]);
                    lemma_mask_select_push(seen, keep_before, docs[j as int], matched);
                    assert(seen.push(docs[j as int]) =~= before + docs.take(j as int + 1));
                    assert(views_of_docs(wits) =~= views_of_docs(wits_before).push(
                        docs[j as int],
                    ));
                }
                if matched {
                    matching_docs.push(document.clone());
                    proof {
                        assert(views_of_docs(matching_docs@) =~= mask_select(
                            seen,
                            keep_before,
                        ).push(docs[j as int]));
                    }
                }
                j = j + 1;
            }
            proof {
                assert(docs.take(docs.len() as int) =~= docs);
                lemma_all_docs_take_step(pages, page_number as int);
            }
            page_number = page_number + 1;
        }
        proof {
            assert(pages.take(pages.len() as int) =~= pages);
            assert(views_of_docs(wits) == all_docs(pages));
            assert(views_of_docs(matching_docs@) == mask_select(all_docs(pages), keep));
        }
        matching_docs
    }

    /// Hands back the page numbers written since the last drain, and
    /// clears the list; the embedding program persists those pages.
    pub fn take_dirty(&mut self) -> (r: Vec<u64>)
        requires
            old(self).wf(),
        ensures
            final(self).wf(),
            r@ == old(self).dirty(),
            final(self).dirty() == Seq::<u64>::empty(),
            final(self).pages() == old(self).pages(),
            final(self).extents() == old(self).extents(),
            final(self).index() == old(self).index(),
            final(self).config() == old(self).config(),
            forall|i: int| 0 <= i < r@.len() ==> #[trigger] r@[i] < final(self).pages().len(),
    {
        self.collection_file.take_dirty()
    }

    /// A copy of the raw bytes of the page numbered `page_number`, for
    /// the embedding program to persist.
    pub fn page_bytes(&self, page_number: u64) -> (r: Result<Vec<u8>, CollectionError>)
        requires
            self.wf(),
        ensures
            page_number < self.pages().len() ==> (r matches Ok(b) && b@ == self.extents()[
                page_number as int
            ]),
            page_number >= self.pages().len() ==> r == Err::<Vec<u8>, CollectionError>(
                CollectionError::FileError(CollectionFileError::PageNumberTooHighError),
            ),
    {
        match self.collection_file.page_bytes(page_number) {
            Ok(b) => Ok(b),
            Err(e) => Err(CollectionError::FileError(e)),
        }
    }

    /// The 8-byte little-endian page count, for the embedding program
    /// to persist at the start of the backing file.
    pub fn file_header_bytes(&self) -> (r: Vec<u8>)
        requires
            self.wf(),
        ensures
            r@ == vstd::bytes::spec_u64_to_le_bytes(self.pages().len() as u64),
    {
        self.collection_file.file_header_bytes()
    }

    /// The whole backing file as one byte string.  Opening a new
    /// collection from this image reproduces exactly these pages.
    pub fn file_image(&self) -> (r: Vec<u8>)
        requires
            self.wf(),
        ensures
            raw_matches(r@, self.config(), self.pages()),
    {
        self.collection_file.file_image()
    }
}

} // verus!
