//! One page's worth of documents plus the header that accounts for the
//! page's occupancy and free space.

use vstd::prelude::*;

use crate::document::{doc_size, views_of_docs, DocView, Document};
use crate::PAGE_ENCODING_OVERHEAD;

verus! {

/// Mathematical value of a page header.
pub ghost struct HeaderView {
    pub page_number: int,
    pub number_of_documents: int,
    pub free_space_available: int,
}

/// Mathematical value of a page.
pub ghost struct PageView {
    pub header: HeaderView,
    pub docs: Seq<DocView>,
}

/// Tracks one page's occupancy: its number, how many documents it
/// holds, and how much of the data budget is still free.
#[derive(Debug, Clone, Copy, PartialEq, Eq)]
pub struct CollectionPageHeader {
    pub(crate) page_number: u64,
    pub(crate) number_of_documents: u64,
    pub(crate) free_space_available: u64,
}

/// The documents physically resident in one page, with their header.
#[derive(Debug, PartialEq)]
pub struct CollectionPage {
    pub(crate) header: CollectionPageHeader,
    pub(crate) documents: Vec<Document>,
}

/// Errors local to a single page.
#[derive(Debug, PartialEq, Eq)]
pub enum CollectionPageError {
    NoFreeSpaceAvailable,
    DocumentNotFound,
}

impl View for CollectionPageHeader {
    type V = HeaderView;

    closed spec fn view(&self) -> HeaderView {
        HeaderView {
            page_number: self.page_number as int,
            number_of_documents: self.number_of_documents as int,
            free_space_available: self.free_space_available as int,
        }
    }
}

impl View for CollectionPage {
    type V = PageView;

    closed spec fn view(&self) -> PageView {
        PageView { header: self.header@, docs: views_of_docs(self.documents@) }
    }
}

/// Total serialized size of a sequence of documents.
pub open spec fn docs_size(s: Seq<DocView>) -> int
    decreases s.len(),
{
    if s.len() == 0 {
        0
    } else {
        docs_size(s.drop_last()) + doc_size(s.last())
    }
}

/// Whether some document in `docs` carries the identifier `id`.
pub open spec fn has_doc(docs: Seq<DocView>, id: u64) -> bool {
    exists|i: int| 0 <= i < docs.len() && docs[i].id == id
}

/// Position of the first document at or after `i` whose identifier is
/// `id`, or `docs.len()` if there is none.
pub open spec fn first_doc_index_from(docs: Seq<DocView>, id: u64, i: int) -> int
    decreases docs.len() - i,
{
    if i < 0 || i >= docs.len() {
        docs.len() as int
    } else if docs[i].id == id {
        i
    } else {
        first_doc_index_from(docs, id, i + 1)
    }
}

/// Position of the first document in `docs` whose identifier is `id`.
pub open spec fn first_doc_index(docs: Seq<DocView>, id: u64) -> int {
    first_doc_index_from(docs, id, 0)
}

impl PageView {
    /// The header invariant: the document count matches the documents
    /// held, and the free space is exactly what the budget leaves.
    pub open spec fn wf(self, data_budget: u64) -> bool {
        &&& self.header.number_of_documents == self.docs.len()
        &&& self.header.free_space_available >= 0
        &&& self.header.free_space_available + docs_size(self.docs) == data_budget
        &&& 0 <= self.header.page_number <= u64::MAX
    }

    /// A fresh page with nothing in it.
    pub open spec fn empty(page_number: int, data_budget: u64) -> PageView {
        PageView {
            header: HeaderView {
                page_number,
                number_of_documents: 0,
                free_space_available: data_budget as int,
            },
            docs: Seq::empty(),
        }
    }

    /// The page after appending `d`.
    pub open spec fn with_doc_pushed(self, d: DocView) -> PageView {
        PageView {
            header: HeaderView {
                page_number: self.header.page_number,
                number_of_documents: self.header.number_of_documents + 1,
                free_space_available: self.header.free_space_available - doc_size(d),
            },
            docs: self.docs.push(d),
        }
    }

    /// The page after replacing the document at `i` with `d` in place.
    pub open spec fn with_doc_updated(self, i: int, d: DocView) -> PageView {
        PageView {
            header: HeaderView {
                page_number: self.header.page_number,
                number_of_documents: self.header.number_of_documents,
                free_space_available: self.header.free_space_available
                    + doc_size(self.docs[i]) - doc_size(d),
            },
            docs: self.docs.update(i, d),
        }
    }

    /// The page after removing the document at `i` by swapping the last
    /// document into its place.
    pub open spec fn with_doc_removed(self, i: int) -> PageView {
        PageView {
            header: HeaderView {
                page_number: self.header.page_number,
                number_of_documents: self.header.number_of_documents - 1,
                free_space_available: self.header.free_space_available
                    + doc_size(self.docs[i]),
            },
            docs: self.docs.update(i, self.docs.last()).drop_last(),
        }
    }

    /// A view that some in-memory page can actually take: header fields
    /// in machine range and contents small enough to be encoded.
    pub open spec fn valid(self) -> bool {
        &&& 0 <= self.header.page_number <= u64::MAX
        &&& 0 <= self.header.number_of_documents <= u64::MAX
        &&& 0 <= self.header.free_space_available <= u64::MAX
        &&& forall|i: int| 0 <= i < self.docs.len() ==> (#[trigger] self.docs[i]).content.len()
            <= usize::MAX
        &&& PAGE_ENCODING_OVERHEAD + docs_size(self.docs) <= usize::MAX
    }
}

pub(crate) proof fn lemma_docs_size_bounds(s: Seq<DocView>)
    ensures
        docs_size(s) >= 16 * s.len(),
    decreases s.len(),
{
    if s.len() > 0 {
        lemma_docs_size_bounds(s.drop_last());
    }
}

pub(crate) proof fn lemma_docs_size_elem(s: Seq<DocView>, i: int)
    requires
        0 <= i < s.len(),
    ensures
        docs_size(s) >= doc_size(s[i]) + 16 * (s.len() - 1),
    decreases s.len(),
{
    if i == s.len() - 1 {
        lemma_docs_size_bounds(s.drop_last());
    } else {
        lemma_docs_size_elem(s.drop_last(), i);
    }
}

pub(crate) proof fn lemma_docs_size_push(s: Seq<DocView>, d: DocView)
    ensures
        docs_size(s.push(d)) == docs_size(s) + doc_size(d),
{
    assert(s.push(d).drop_last() =~= s);
    assert(s.push(d).last() == d);
}

pub(crate) proof fn lemma_docs_size_update(s: Seq<DocView>, i: int, d: DocView)
    requires
        0 <= i < s.len(),
    ensures
        docs_size(s.update(i, d)) == docs_size(s) - doc_size(s[i]) + doc_size(d),
    decreases s.len(),
{
    if i == s.len() - 1 {
        assert(s.update(i, d).drop_last() =~= s.drop_last());
        assert(s.update(i, d).last() == d);
    } else {
        assert(s.update(i, d).drop_last() =~= s.drop_last().update(i, d));
        assert(s.update(i, d).last() == s.last());
        lemma_docs_size_update(s.drop_last(), i, d);
    }
}

pub(crate) proof fn lemma_docs_size_split(s: Seq<DocView>, i: int)
    requires
        0 <= i <= s.len(),
    ensures
        docs_size(s) == docs_size(s.take(i)) + docs_size(s.skip(i)),
    decreases s.len(),
{
    if i == s.len() {
        assert(s.take(i) =~= s);
        assert(s.skip(i) =~= Seq::<DocView>::empty());
    } else if s.len() > 0 {
        lemma_docs_size_split(s.drop_last(), i);
        assert(s.drop_last().take(i) =~= s.take(i));
        assert(s.skip(i) =~= s.drop_last().skip(i).push(s.last()));
        lemma_docs_size_push(s.drop_last().skip(i), s.last());
    }
}

/// Characterizes `first_doc_index_from`: it lands on the first match at
/// or after `i`, or on `docs.len()` when there is none.
pub(crate) proof fn lemma_first_doc_index_from(docs: Seq<DocView>, id: u64, i: int)
    requires
        0 <= i <= docs.len(),
    ensures
        i <= first_doc_index_from(docs, id, i) <= docs.len(),
        first_doc_index_from(docs, id, i) < docs.len() ==> docs[first_doc_index_from(
            docs,
            id,
            i,
        )].id == id,
        forall|j: int| i <= j < first_doc_index_from(docs, id, i) ==> docs[j].id != id,
        first_doc_index_from(docs, id, i) == docs.len() ==> forall|j: int|
            i <= j < docs.len() ==> docs[j].id != id,
    decreases docs.len() - i,
{
    if i < docs.len() && docs[i].id != id {
        lemma_first_doc_index_from(docs, id, i + 1);
    }
}

impl CollectionPageHeader {
    /// How many documents the page holds.
    pub fn number_of_documents(&self) -> (r: u64)
        ensures
            r == self@.number_of_documents,
    {
        self.number_of_documents
    }

    /// How much of the page's data budget is still free.
    pub fn space_available(&self) -> (r: u64)
        ensures
            r == self@.free_space_available,
    {
        self.free_space_available
    }
}

impl CollectionPage {
    /// An empty page for the given page number, with the whole data
    /// budget free.
    pub fn new(page_number: u64, data_budget: u64) -> (r: CollectionPage)
        ensures
            r@ == PageView::empty(page_number as int, data_budget),
            r@.wf(data_budget),
    {
        let r = CollectionPage {
            header: CollectionPageHeader {
                page_number,
                number_of_documents: 0,
                free_space_available: data_budget,
            },
            documents: Vec::new(),
        };
        proof {
            assert(r@.docs =~= Seq::<DocView>::empty());
            assert(r@ == PageView::empty(page_number as int, data_budget));
        }
        r
    }

    /// The page's number.
    pub fn get_page_number(&self) -> (r: u64)
        ensures
            r == self@.header.page_number,
    {
        self.header.page_number
    }

    /// The page's header.
    pub fn header(&self) -> (r: &CollectionPageHeader)
        ensures
            r@ == self@.header,
    {
        &self.header
    }

    /// The documents resident in the page, in insertion order.
    pub fn documents(&self) -> (r: &Vec<Document>)
        ensures
            views_of_docs(r@) == self@.docs,
    {
        &self.documents
    }

    /// Total serialized size of the page's documents.
    pub fn documents_total_size(&self) -> (r: u64)
        requires
            self@.valid(),
        ensures
            r == docs_size(self@.docs),
    {
        let ghost docs = self@.docs;
        let mut total: u64 = 0;
        let mut i: usize = 0;
        while i < self.documents.len()
            invariant
                0 <= i <= self.documents.len(),
                docs == self@.docs,
                docs.len() == self.documents.len(),
                self@.valid(),
                total == docs_size(docs.take(i as int)),
            decreases self.documents.len() - i,
        {
            proof {
                lemma_docs_size_split(docs, i as int);
                lemma_docs_size_split(docs, i + 1);
                lemma_docs_size_bounds(docs.skip(i + 1));
                lemma_docs_size_bounds(docs.take(i as int));
                assert(docs.take(i + 1) =~= docs.take(i as int).push(docs[i as int]));
                lemma_docs_size_push(docs.take(i as int), docs[i as int]);
            }
            total = total + (self.documents[i].content.len() as u64 + 16);
            i = i + 1;
        }
        proof {
            assert(docs.take(docs.len() as int) =~= docs);
        }
        total
    }

    /// Appends `document` if its serialized size fits the free space,
    /// decrementing the free space and incrementing the count; fails
    /// with `NoFreeSpaceAvailable` otherwise, leaving the page as it
    /// was.
    pub fn insert_document(&mut self, document: Document) -> (r: Result<(), CollectionPageError>)
        requires
            old(self)@.header.number_of_documents < u64::MAX,
            doc_size(document@) <= u64::MAX,
        ensures
            match r {
                Ok(()) => doc_size(document@) <= old(self)@.header.free_space_available
                    && final(self)@ == old(self)@.with_doc_pushed(document@),
                Err(e) => e == CollectionPageError::NoFreeSpaceAvailable
                    && doc_size(document@) > old(self)@.header.free_space_available
                    && final(self)@ == old(self)@,
            },
    {
        let document_size: u64 = document.content.len() as u64 + 16;

        if self.header.free_space_available < document_size {
            return Err(CollectionPageError::NoFreeSpaceAvailable);
        }

        let ghost prior = self@;
        self.documents.push(document);
        self.header.free_space_available = self.header.free_space_available - document_size;
        self.header.number_of_documents = self.header.number_of_documents + 1;

        proof {
            assert(self@.docs =~= prior.docs.push(document@));
            assert(self@ == prior.with_doc_pushed(document@));
        }
        Ok(())
    }

    /// Returns a copy of the first document whose identifier is `id`,
    /// or `None` when the page holds none with it.
    pub fn find_document(&self, id: u64) -> (r: Option<Document>)
        ensures
            match r {
                Some(d) => has_doc(self@.docs, id) && d@ == self@.docs[first_doc_index(
                    self@.docs,
                    id,
                )],
                None => !has_doc(self@.docs, id),
            },
    {
        let ghost docs = self@.docs;
        let mut i: usize = 0;
        while i < self.documents.len()
            invariant
                0 <= i <= self.documents.len(),
                docs == self@.docs,
                docs.len() == self.documents.len(),
                forall|j: int| 0 <= j < i ==> docs[j].id != id,
                first_doc_index(docs, id) == first_doc_index_from(docs, id, i as int),
            decreases self.documents.len() - i,
        {
            if self.documents[i].id == id {
                return Some(self.documents[i].clone());
            }
            i = i + 1;
        }
        None
    }

    /// Replaces the first document whose identifier matches `new_doc`'s
    /// in place, adjusting the free space by the difference of the old
    /// and new serialized sizes.  Fails with `NoFreeSpaceAvailable` when
    /// the replacement would not fit the page, and with
    /// `DocumentNotFound` when no document carries that identifier; the
    /// page is left unchanged on failure.
    pub fn update_document(&mut self, new_doc: Document) -> (r: Result<(), CollectionPageError>)
        requires
            old(self)@.header.free_space_available + docs_size(old(self)@.docs) <= u64::MAX,
            doc_size(new_doc@) <= u64::MAX,
        ensures
            ({
                let docs = old(self)@.docs;
                let id = new_doc@.id;
                let i = first_doc_index(docs, id);
                match r {
                    Ok(()) => has_doc(docs, id) && doc_size(new_doc@)
                        <= old(self)@.header.free_space_available + doc_size(docs[i])
                        && final(self)@ == old(self)@.with_doc_updated(i, new_doc@),
                    Err(CollectionPageError::NoFreeSpaceAvailable) => has_doc(docs, id)
                        && doc_size(new_doc@) > old(self)@.header.free_space_available
                        + doc_size(docs[i]) && final(self)@ == old(self)@,
                    Err(CollectionPageError::DocumentNotFound) => !has_doc(docs, id)
                        && final(self)@ == old(self)@,
                }
            }),
    {
        let ghost docs = self@.docs;
        let new_size: u64 = new_doc.content.len() as u64 + 16;
        let mut i: usize = 0;
        while i < self.documents.len()
            invariant
                0 <= i <= self.documents.len(),
                docs == self@.docs,
                docs.len() == self.documents.len(),
                forall|j: int| 0 <= j < i ==> docs[j].id != new_doc@.id,
                first_doc_index(docs, new_doc@.id) == first_doc_index_from(
                    docs,
                    new_doc@.id,
                    i as int,
                ),
                new_size == doc_size(new_doc@),
                old(self)@.header.free_space_available + docs_size(docs) <= u64::MAX,
                self == old(self),
            decreases self.documents.len() - i,
        {
            if self.documents[i].id == new_doc.id {
                proof {
                    lemma_docs_size_elem(docs, i as int);
                    lemma_docs_size_bounds(docs);
                }
                let old_size: u64 = self.documents[i].content.len() as u64 + 16;
                if new_size > self.header.free_space_available + old_size {
                    return Err(CollectionPageError::NoFreeSpaceAvailable);
                }

                let ghost prior = self@;
                self.header.free_space_available = self.header.free_space_available + old_size
                    - new_size;
                self.documents[i] = new_doc;

                proof {
                    assert(self@.docs =~= prior.docs.update(i as int, new_doc@));
                    assert(self@ == prior.with_doc_updated(i as int, new_doc@));
                }
                return Ok(());
            }
            i = i + 1;
        }
        Err(CollectionPageError::DocumentNotFound)
    }

    /// Removes and returns the first document whose identifier is `id`,
    /// swapping the last document into its place, restoring the free
    /// space the document used and decrementing the count.  Fails with
    /// `DocumentNotFound` when no document carries `id`.
    pub fn remove_document(&mut self, id: u64) -> (r: Result<Document, CollectionPageError>)
        requires
            old(self)@.header.number_of_documents == old(self)@.docs.len(),
            old(self)@.header.free_space_available + docs_size(old(self)@.docs) <= u64::MAX,
        ensures
            ({
                let docs = old(self)@.docs;
                let i = first_doc_index(docs, id);
                match r {
                    Ok(d) => has_doc(docs, id) && d@ == docs[i] && final(self)@ == old(
                        self,
                    )@.with_doc_removed(i),
                    Err(e) => e == CollectionPageError::DocumentNotFound && !has_doc(docs, id)
                        && final(self)@ == old(self)@,
                }
            }),
    {
        let ghost docs = self@.docs;
        let mut i: usize = 0;
        while i < self.documents.len()
            invariant
                0 <= i <= self.documents.len(),
                docs == self@.docs,
                docs.len() == self.documents.len(),
                forall|j: int| 0 <= j < i ==> docs[j].id != id,
                first_doc_index(docs, id) == first_doc_index_from(docs, id, i as int),
                old(self)@.header.number_of_documents == docs.len(),
                old(self)@.header.free_space_available + docs_size(docs) <= u64::MAX,
                self == old(self),
            decreases self.documents.len() - i,
        {
            if self.documents[i].id == id {
                proof {
                    lemma_docs_size_elem(docs, i as int);
                    lemma_docs_size_bounds(docs);
                }
                let ghost prior = self@;
                let removed = self.documents.swap_remove(i);
                let removed_size: u64 = removed.content.len() as u64 + 16;
                self.header.free_space_available = self.header.free_space_available
                    + removed_size;
                self.header.number_of_documents = self.header.number_of_documents - 1;

                proof {
                    assert(self@.docs =~= prior.docs.update(i as int, prior.docs.last())
                        .drop_last());
                    assert(self@ == prior.with_doc_removed(i as int));
                }
                return Ok(removed);
            }
            i = i + 1;
        }
        Err(CollectionPageError::DocumentNotFound)
    }
}

} // verus!
