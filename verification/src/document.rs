//! The document type stored in a collection, and its size accounting.

use vstd::prelude::*;

verus! {

/// A record stored in a collection: a unique numeric identifier and an
/// opaque byte payload.  The engine never inspects the payload; it only
/// stores it and hands copies back.
#[derive(Debug, PartialEq, Eq)]
pub struct Document {
    pub id: u64,
    pub content: Vec<u8>,
}

/// Mathematical value of a [`Document`].
pub ghost struct DocView {
    pub id: u64,
    pub content: Seq<u8>,
}

impl View for Document {
    type V = DocView;

    open spec fn view(&self) -> DocView {
        DocView { id: self.id, content: self.content@ }
    }
}

/// Types that expose a unique comparable identifier.
pub trait HasId {
    type Id;

    spec fn spec_id(&self) -> Self::Id;

    fn id(&self) -> (r: Self::Id)
        ensures
            r == self.spec_id(),
    ;
}

impl HasId for Document {
    type Id = u64;

    open spec fn spec_id(&self) -> u64 {
        self.id
    }

    fn id(&self) -> (r: u64) {
        self.id
    }
}

/// Serialized size in bytes of one document: 8 for the identifier,
/// 8 for the payload length prefix, and one byte per payload byte.
pub open spec fn doc_size(d: DocView) -> int {
    16 + d.content.len() as int
}

/// The views of a sequence of documents.
pub open spec fn views_of_docs(s: Seq<Document>) -> Seq<DocView> {
    s.map_values(|d: Document| d@)
}

impl Clone for Document {
    /// Duplicates the document; lookups return such copies.
    fn clone(&self) -> (r: Self)
        ensures
            r@ == self@,
    {
        let content = self.content.clone();
        proof {
            assert(content@ =~= self.content@);
        }
        Document { id: self.id, content }
    }
}

/// Serialized size of `doc`, as `doc_size` gives it, or `None` on the
/// machine-limit case of a payload too large to measure in a `u64`.
pub fn document_size(doc: &Document) -> (r: Option<u64>)
    ensures
        match r {
            Some(s) => s == doc_size(doc@),
            None => doc_size(doc@) > u64::MAX,
        },
{
    let len_u64: u64 = doc.content.len() as u64;
    if len_u64 <= u64::MAX - 16 {
        Some(len_u64 + 16)
    } else {
        None
    }
}

} // verus!
