//! The binary page codec: the calls into `bincode` that serialize and
//! deserialize whole pages, and the name the encoding goes by.
//!
//! A page encodes as its three header fields followed by its documents
//! as a length-prefixed list of (identifier, payload) pairs, all
//! integers fixed-width little-endian.  Nothing else in the crate
//! touches `bincode`; everything below `encoding_prefix_of` is proved.

use vstd::prelude::*;

use crate::collection_page::{CollectionPage, CollectionPageHeader, HeaderView, PageView};
use crate::document::Document;
use crate::PAGE_ENCODING_OVERHEAD;

verus! {

/// The byte string `bincode` produces for a page.  It is a function of
/// the page's value alone; its length is stated by `encode_page`.
pub uninterp spec fn page_encoding(pv: PageView) -> Seq<u8>;

/// Whether `bytes` begins with the encoding of the page `pv` (trailing
/// bytes are free: extents are fixed-size and padded).
pub open spec fn encoding_prefix_of(pv: PageView, bytes: Seq<u8>) -> bool {
    &&& pv.valid()
    &&& PAGE_ENCODING_OVERHEAD <= page_encoding(pv).len() <= bytes.len()
    &&& page_encoding(pv) == bytes.subrange(0, page_encoding(pv).len() as int)
}

/// An optional page, at the view level.
pub open spec fn page_opt_view(r: Option<CollectionPage>) -> Option<PageView> {
    match r {
        Some(p) => Some(p@),
        None => None,
    }
}

/// An optional page header, at the view level.
pub open spec fn header_opt_view(r: Option<CollectionPageHeader>) -> Option<HeaderView> {
    match r {
        Some(h) => Some(h@),
        None => None,
    }
}

/// Relies on `bincode::serialize` (fixed-width little-endian integers,
/// length-prefixed lists): the result depends on the page's value
/// alone, and is 32 bytes of header and list framing followed by the
/// documents, 16 bytes of framing plus the payload each.  Serializing
/// plain integers and byte vectors cannot fail.
#[verifier::external_body]
pub(crate) fn encode_page(page: &CollectionPage) -> (r: Vec<u8>)
    ensures
        r@ == page_encoding(page@),
        r@.len() == PAGE_ENCODING_OVERHEAD + crate::collection_page::docs_size(page@.docs),
{
    let documents: Vec<(u64, &Vec<u8>)> =
        page.documents.iter().map(|d| (d.id, &d.content)).collect();
    let raw = (
        page.header.page_number,
        page.header.number_of_documents,
        page.header.free_space_available,
        documents,
    );
    bincode::serialize(&raw).expect("serializing header fields and byte vectors cannot fail")
}

/// Relies on `bincode::deserialize`: with fixed-width integers it reads
/// exactly the bytes of one encoded page, ignores whatever follows,
/// and returns the one page value those bytes encode; bytes that are
/// no page's encoding are an error.
#[verifier::external_body]
pub(crate) fn decode_page(bytes: &[u8]) -> (r: Option<CollectionPage>)
    ensures
        forall|pv: PageView| encoding_prefix_of(pv, bytes@) ==> page_opt_view(r) == Some(pv),
        page_opt_view(r) matches Some(pv) ==> encoding_prefix_of(pv, bytes@),
{
    let raw: (u64, u64, u64, Vec<(u64, Vec<u8>)>) = match bincode::deserialize(bytes) {
        Ok(v) => v,
        Err(_) => return None,
    };
    let documents = raw.3.into_iter().map(|(id, content)| Document { id, content }).collect();
    Some(CollectionPage {
        header: CollectionPageHeader {
            page_number: raw.0,
            number_of_documents: raw.1,
            free_space_available: raw.2,
        },
        documents,
    })
}

/// Relies on `bincode::deserialize` for the three header fields alone:
/// they sit in the first 24 bytes of a page's encoding, fixed-width
/// little-endian, so any byte string that agrees with an encoded page
/// there decodes to that page's header.
#[verifier::external_body]
pub(crate) fn decode_header(bytes: &[u8]) -> (r: Option<CollectionPageHeader>)
    ensures
        forall|pv: PageView|
            pv.valid() && page_encoding(pv).len() >= 24 && bytes@.len() >= 24 && page_encoding(
                pv,
            ).subrange(0, 24) == bytes@.subrange(0, 24) ==> header_opt_view(r) == Some(pv.header),
{
    let raw: (u64, u64, u64) = match bincode::deserialize(bytes) {
        Ok(v) => v,
        Err(_) => return None,
    };
    Some(CollectionPageHeader {
        page_number: raw.0,
        number_of_documents: raw.1,
        free_space_available: raw.2,
    })
}

} // verus!
