//! The paged file store: maps logical page numbers to fixed-size byte
//! extents of one backing file, serializing and deserializing whole
//! pages at the extent boundary.
//!
//! The store works on an in-memory image of the file: the embedding
//! program reads the backing file once and hands the raw bytes in, and
//! persists the extents the store reports as written.  The file is an
//! 8-byte little-endian page count followed by one extent per page;
//! page `n` occupies the extent starting at byte `8 + n * page_size`.

use vstd::prelude::*;

use vstd::bytes::{lemma_auto_spec_u64_to_from_le_bytes, spec_u64_from_le_bytes, spec_u64_to_le_bytes, u64_from_le_bytes, u64_to_le_bytes};
use vstd::arithmetic::div_mod::lemma_fundamental_div_mod;
use vstd::slice::{slice_subrange, slice_to_vec};

use crate::collection_page::{
    docs_size, lemma_docs_size_bounds, lemma_docs_size_elem, CollectionPage,
    CollectionPageHeader, PageView,
};
use crate::encoding::{
    decode_header, decode_page, encode_page, encoding_prefix_of, page_encoding, page_opt_view,
};
use crate::{CollectionConfig, FILE_HEADER_SIZE, PAGE_ENCODING_OVERHEAD};

verus! {

/// The paged byte image of one collection's backing file.
pub struct CollectionFile {
    config: CollectionConfig,
    extents: Vec<Vec<u8>>,
    dirty: Vec<u64>,
    pages: Ghost<Seq<PageView>>,
}

/// Errors of the paged file store.
#[derive(Debug, PartialEq, Eq)]
pub enum CollectionFileError {
    PageNumberTooHighError,
    SerializationError,
}

/// What every stored page satisfies in slot `n`: the header invariant
/// for the configured budget, machine-range fields, and its own slot
/// number.
pub open spec fn page_slot_inv(pv: PageView, n: int, config: CollectionConfig) -> bool {
    &&& pv.wf(config.data_budget)
    &&& pv.valid()
    &&& pv.header.page_number == n
}

/// The page-level store invariant.
pub open spec fn pages_inv(pages: Seq<PageView>, config: CollectionConfig) -> bool {
    &&& config.wf()
    &&& pages.len() >= 1
    &&& forall|n: int| 0 <= n < pages.len() ==> page_slot_inv(#[trigger] pages[n], n, config)
}

/// One extent of `raw`: the fixed-size byte range holding page `n`.
pub open spec fn extent_of(raw: Seq<u8>, n: int, config: CollectionConfig) -> Seq<u8> {
    raw.subrange(
        FILE_HEADER_SIZE + n * config.page_size,
        FILE_HEADER_SIZE + (n + 1) * config.page_size,
    )
}

/// How a backing file's raw bytes present the page sequence `pages`:
/// an 8-byte little-endian page count, then one fixed-size extent per
/// page, each beginning with its page's encoding.
pub open spec fn raw_matches(raw: Seq<u8>, config: CollectionConfig, pages: Seq<PageView>) -> bool {
    &&& 1 <= pages.len() <= u64::MAX
    &&& raw.len() == FILE_HEADER_SIZE + pages.len() * config.page_size
    &&& raw.subrange(0, FILE_HEADER_SIZE as int) == spec_u64_to_le_bytes(pages.len() as u64)
    &&& forall|n: int| 0 <= n < pages.len() ==> encoding_prefix_of(
        #[trigger] pages[n],
        extent_of(raw, n, config),
    )
}

/// A page that satisfies the header invariant under a usable
/// configuration fits one extent and is in machine range.
pub(crate) proof fn lemma_wf_page_valid(pv: PageView, config: CollectionConfig)
    requires
        config.wf(),
        pv.wf(config.data_budget),
    ensures
        pv.valid(),
        PAGE_ENCODING_OVERHEAD + docs_size(pv.docs) <= config.page_size,
{
    lemma_docs_size_bounds(pv.docs);
    assert forall|i: int| 0 <= i < pv.docs.len() implies (#[trigger] pv.docs[i]).content.len()
        <= usize::MAX by {
        lemma_docs_size_elem(pv.docs, i);
    }
}

/// A file that presents some page sequence is at least 8 bytes of
/// count plus one extent long, and its count bytes give the sequence's
/// length.
proof fn lemma_matches_len(raw: Seq<u8>, config: CollectionConfig, s: Seq<PageView>)
    requires
        config.wf(),
        raw_matches(raw, config, s),
    ensures
        raw.len() >= 8 + config.page_size,
        spec_u64_from_le_bytes(raw.subrange(0, 8)) == s.len() as u64,
{
    assert(s.len() * config.page_size >= config.page_size) by (nonlinear_arith)
        requires
            s.len() >= 1,
            config.page_size >= 0,
    ;
    lemma_auto_spec_u64_to_from_le_bytes();
    assert(spec_u64_from_le_bytes(spec_u64_to_le_bytes(s.len() as u64)) == s.len() as u64);
}

impl CollectionFile {
    /// The stored pages, by page number.
    pub closed spec fn pages(&self) -> Seq<PageView> {
        self.pages@
    }

    /// The store's sizing configuration.
    pub closed spec fn config(&self) -> CollectionConfig {
        self.config
    }

    /// The raw byte extents, by page number.
    pub closed spec fn extents(&self) -> Seq<Seq<u8>> {
        self.extents@.map_values(|e: Vec<u8>| e@)
    }

    /// Page numbers written since the dirty list was last drained.
    pub closed spec fn dirty(&self) -> Seq<u64> {
        self.dirty@
    }

    /// The byte-level part of the store invariant: one fixed-size
    /// extent per page, each beginning with its page's encoding.
    pub closed spec fn extents_inv(&self) -> bool {
        &&& self.extents@.len() == self.pages@.len()
        &&& forall|n: int| 0 <= n < self.pages@.len() ==> {
            &&& (#[trigger] self.extents()[n]).len() == self.config.page_size
            &&& encoding_prefix_of(self.pages@[n], self.extents()[n])
        }
        &&& forall|i: int| 0 <= i < self.dirty@.len() ==> (#[trigger] self.dirty@[i])
            < self.pages@.len()
    }

    /// The store invariant.
    pub open spec fn wf(&self) -> bool {
        &&& pages_inv(self.pages(), self.config())
        &&& self.extents_inv()
    }

    /// Encodes `page` and pads the result with zero bytes to the
    /// configured extent size.
    fn encode_extent(page: &CollectionPage, config: &CollectionConfig) -> (r: Vec<u8>)
        requires
            config.wf(),
            page@.wf(config.data_budget),
        ensures
            r@.len() == config.page_size,
            encoding_prefix_of(page@, r@),
    {
        proof {
            lemma_wf_page_valid(page@, *config);
        }
        let mut extent = encode_page(page);
        let ghost encoded = extent@;
        proof {
            lemma_docs_size_bounds(page@.docs);
            assert(PAGE_ENCODING_OVERHEAD <= encoded.len() <= config.page_size as int);
        }
        extent.resize(config.page_size as usize, 0u8);
        proof {
            assert(extent@.subrange(0, encoded.len() as int) =~= encoded);
        }
        extent
    }

    /// Opens a collection's backing file from its raw bytes.  Empty
    /// bytes mean a fresh file: an initial empty page 0 is synthesized
    /// and reported dirty, so that the embedding program persists it.
    /// Otherwise the bytes must hold the 8-byte page count and that
    /// many decodable, well-formed page extents; the raw bytes then
    /// determine the resulting pages exactly.
    pub fn new(raw: Vec<u8>, config: CollectionConfig) -> (r: Result<
        CollectionFile,
        CollectionFileError,
    >)
        requires
            config.wf(),
        ensures
            match r {
                Ok(f) => {
                    &&& f.wf()
                    &&& f.config() == config
                    &&& if raw@.len() == 0 {
                        &&& f.pages() == seq![PageView::empty(0, config.data_budget)]
                        &&& f.dirty() == seq![0u64]
                    } else {
                        &&& raw_matches(raw@, config, f.pages())
                        &&& (forall|s: Seq<PageView>|
                            raw_matches(raw@, config, s) ==> s == f.pages())
                        &&& f.dirty() == Seq::<u64>::empty()
                    }
                },
                Err(e) => {
                    &&& e == CollectionFileError::SerializationError
                    &&& raw@.len() != 0
                    &&& !(exists|s: Seq<PageView>|
                        raw_matches(raw@, config, s) && pages_inv(s, config))
                },
            },
    {
        if raw.len() == 0 {
            let first_page = CollectionPage::new(0, config.data_budget);
            let extent = Self::encode_extent(&first_page, &config);
            let ghost extent_view = extent@;
            let mut extents: Vec<Vec<u8>> = Vec::new();
            extents.push(extent);
            let mut dirty: Vec<u64> = Vec::new();
            dirty.push(0);
            let ghost initial_pages: Seq<PageView> = seq![first_page@];
            let f = CollectionFile { config, extents, dirty, pages: Ghost(initial_pages) };
            proof {
                lemma_wf_page_valid(first_page@, config);
                assert(f.extents() =~= seq![extent_view]);
                assert(f.pages() =~= seq![PageView::empty(0, config.data_budget)]);
                assert(f.dirty() =~= seq![0u64]);
            }
            return Ok(f);
        }

        if raw.len() < 8 {
            proof {
                assert forall|s: Seq<PageView>| !(raw_matches(raw@, config, s) && pages_inv(
                    s,
                    config,
                )) by {
                    if raw_matches(raw@, config, s) {
                        lemma_matches_len(raw@, config, s);
                        assert(config.page_size >= PAGE_ENCODING_OVERHEAD);
                    }
                }
            }
            return Err(CollectionFileError::SerializationError);
        }

        let count: u64 = u64_from_le_bytes(slice_subrange(raw.as_slice(), 0, 8));
        let page_size_us: usize = config.page_size as usize;
        let body_len: usize = raw.len() - 8;
        let q: usize = body_len / page_size_us;
        let rem: usize = body_len % page_size_us;

        if count == 0 || rem != 0 || (q as u64) != count {
            proof {
                assert forall|s: Seq<PageView>| !(raw_matches(raw@, config, s) && pages_inv(
                    s,
                    config,
                )) by {
                    if raw_matches(raw@, config, s) {
                        lemma_matches_len(raw@, config, s);
                        assert(s.len() as u64 == count);
                        assert(s.len() * config.page_size == body_len);
                        lemma_fundamental_div_mod(body_len as int, page_size_us as int);
                        assert(s.len() == q && 0 == rem) by (nonlinear_arith)
                            requires
                                s.len() * (page_size_us as int) == body_len as int,
                                body_len as int == (page_size_us as int) * q + rem,
                                0 <= rem < page_size_us,
                                s.len() >= 0,
                                q >= 0,
                        ;
                    }
                }
            }
            return Err(CollectionFileError::SerializationError);
        }

        proof {
            lemma_fundamental_div_mod(body_len as int, page_size_us as int);
        }
        let mut extents: Vec<Vec<u8>> = Vec::new();
        let ghost mut pages_seq: Seq<PageView> = Seq::empty();
        let mut n: usize = 0;
        let mut offset: usize = 8;
        while n < q
            invariant
                config.wf(),
                page_size_us == config.page_size,
                1 <= q,
                count == q as u64,
                raw@.len() == 8 + q * page_size_us,
                count == spec_u64_from_le_bytes(raw@.subrange(0, 8)),
                raw@.len() <= usize::MAX,
                0 <= n <= q,
                offset == 8 + n * page_size_us,
                extents@.len() == n,
                pages_seq.len() == n,
                forall|k: int| 0 <= k < n ==> page_slot_inv(#[trigger] pages_seq[k], k, config),
                forall|k: int| 0 <= k < n ==> {
                    &&& (#[trigger] extents@[k])@ == extent_of(raw@, k, config)
                    &&& extents@[k]@.len() == config.page_size
                    &&& encoding_prefix_of(pages_seq[k], extents@[k]@)
                },
                forall|k: int, pv: PageView|
                    0 <= k < n && encoding_prefix_of(pv, extent_of(raw@, k, config)) ==> pv
                        == pages_seq[k],
            decreases q - n,
        {
            proof {
                assert((n + 1) * page_size_us <= q * page_size_us) by (nonlinear_arith)
                    requires
                        n + 1 <= q,
                        page_size_us >= 0,
                ;
                assert((n + 1) * page_size_us == n * page_size_us + page_size_us)
                    by (nonlinear_arith);
                assert(offset + page_size_us <= raw@.len());
            }
            let extent_slice: &[u8] = slice_subrange(raw.as_slice(), offset, offset
                + page_size_us);
            proof {
                assert(extent_slice@ =~= extent_of(raw@, n as int, config));
            }
            let page_opt = decode_page(extent_slice);
            let page = match page_opt {
                Some(p) => p,
                None => {
                    proof {
                        assert forall|s: Seq<PageView>| !(raw_matches(raw@, config, s)
                            && pages_inv(s, config)) by {
                            if raw_matches(raw@, config, s) {
                                lemma_matches_len(raw@, config, s);
                                assert(encoding_prefix_of(s[n as int], extent_of(
                                    raw@,
                                    n as int,
                                    config,
                                )));
                            }
                        }
                    }
                    return Err(CollectionFileError::SerializationError);
                },
            };
            proof {
                assert(encoding_prefix_of(page@, extent_slice@));
            }
            let total = page.documents_total_size();
            let free = page.header().space_available();
            let docs_len: u64 = page.documents().len() as u64;
            let ok: bool = page.get_page_number() == n as u64
                && page.header().number_of_documents() == docs_len && free <= config.data_budget
                && config.data_budget - free == total;
            if !ok {
                proof {
                    assert forall|s: Seq<PageView>| !(raw_matches(raw@, config, s) && pages_inv(
                        s,
                        config,
                    )) by {
                        if raw_matches(raw@, config, s) && pages_inv(s, config) {
                            lemma_matches_len(raw@, config, s);
                            assert(encoding_prefix_of(s[n as int], extent_of(
                                raw@,
                                n as int,
                                config,
                            )));
                            assert(page@ == s[n as int]);
                            assert(page_slot_inv(s[n as int], n as int, config));
                        }
                    }
                }
                return Err(CollectionFileError::SerializationError);
            }
            extents.push(slice_to_vec(extent_slice));
            proof {
                pages_seq = pages_seq.push(page@);
                assert(page@.wf(config.data_budget));
                assert forall|k: int, pv: PageView|
                    0 <= k < n + 1 && encoding_prefix_of(pv, extent_of(raw@, k, config))
                        implies pv == pages_seq[k] by {
                    if k == n as int {
                        assert(page_opt_view(page_opt) == Some(pv));
                    }
                }
            }
            offset = offset + page_size_us;
            n = n + 1;
        }

        proof {
            assert forall|k: int| 0 <= k < pages_seq.len() implies encoding_prefix_of(
                #[trigger] pages_seq[k],
                extent_of(raw@, k, config),
            ) by {
                assert(extents@[k]@ == extent_of(raw@, k, config));
            }
        }
        let f = CollectionFile { config, extents, dirty: Vec::new(), pages: Ghost(pages_seq) };
        proof {
            assert forall|k: int| 0 <= k < f.pages@.len() implies {
                &&& (#[trigger] f.extents()[k]).len() == config.page_size
                &&& encoding_prefix_of(f.pages@[k], f.extents()[k])
            } by {
                assert(f.extents()[k] == f.extents@[k]@);
            }
            lemma_auto_spec_u64_to_from_le_bytes();
            assert(raw@.subrange(0, 8).len() == 8);
            assert(spec_u64_to_le_bytes(spec_u64_from_le_bytes(raw@.subrange(0, 8)))
                == raw@.subrange(0, 8));
            assert(raw_matches(raw@, config, f.pages()));
            assert forall|s: Seq<PageView>| raw_matches(raw@, config, s) implies s == f.pages() by {
                lemma_matches_len(raw@, config, s);
                assert(s.len() == q);
                assert forall|k: int| 0 <= k < s.len() implies s[k] == pages_seq[k] by {
                    assert(encoding_prefix_of(s[k], extent_of(raw@, k, config)));
                }
                assert(s =~= pages_seq);
            }
            assert(f.wf());
        }
        Ok(f)
    }

    /// The store's sizing configuration.
    pub fn get_config(&self) -> (r: CollectionConfig)
        ensures
            r == self.config(),
    {
        self.config
    }

    /// The number of pages the store holds.
    pub fn number_of_pages(&self) -> (r: u64)
        requires
            self.wf(),
        ensures
            r == self.pages().len(),
    {
        self.extents.len() as u64
    }

    /// Reads page `page_number` back from its extent, decoding the
    /// whole page.  Fails with `PageNumberTooHighError` when the page
    /// number is out of range.
    pub fn read_page(&self, page_number: u64) -> (r: Result<CollectionPage, CollectionFileError>)
        requires
            self.wf(),
        ensures
            page_number < self.pages().len() ==> (r matches Ok(p) && p@ == self.pages()[
                page_number as int
            ]),
            page_number >= self.pages().len() ==> r == Err::<CollectionPage, CollectionFileError>(
                CollectionFileError::PageNumberTooHighError,
            ),
    {
        if page_number >= self.extents.len() as u64 {
            return Err(CollectionFileError::PageNumberTooHighError);
        }
        let extent: &Vec<u8> = &self.extents[page_number as usize];
        proof {
            assert(self.extents()[page_number as int] == self.extents@[page_number as int]@);
            assert(encoding_prefix_of(self.pages@[page_number as int], extent@));
        }
        match decode_page(extent.as_slice()) {
            Some(page) => Ok(page),
            None => Err(CollectionFileError::SerializationError),
        }
    }

    /// Reads only the header of page `page_number` from the first
    /// bytes of its extent.  Fails with `PageNumberTooHighError` when
    /// the page number is out of range.
    pub fn read_page_header(&self, page_number: u64) -> (r: Result<
        CollectionPageHeader,
        CollectionFileError,
    >)
        requires
            self.wf(),
        ensures
            page_number < self.pages().len() ==> (r matches Ok(h) && h@ == self.pages()[
                page_number as int
            ].header),
            page_number >= self.pages().len() ==> r == Err::<
                CollectionPageHeader,
                CollectionFileError,
            >(CollectionFileError::PageNumberTooHighError),
    {
        if page_number >= self.extents.len() as u64 {
            return Err(CollectionFileError::PageNumberTooHighError);
        }
        let extent: &Vec<u8> = &self.extents[page_number as usize];
        proof {
            let n = page_number as int;
            let pv = self.pages@[n];
            assert(page_encoding(pv).subrange(0, 24) == self.extents()[n].subrange(0, 24)) by {
                assert(page_encoding(pv) == self.extents()[n].subrange(
                    0,
                    page_encoding(pv).len() as int,
                ));
                assert(page_encoding(pv).subrange(0, 24) == self.extents()[n].subrange(
                    0,
                    page_encoding(pv).len() as int,
                ).subrange(0, 24));
                assert(self.extents()[n].subrange(0, page_encoding(pv).len() as int).subrange(
                    0,
                    24,
                ) =~= self.extents()[n].subrange(0, 24));
            }
        }
        match decode_header(extent.as_slice()) {
            Some(header) => Ok(header),
            None => Err(CollectionFileError::SerializationError),
        }
    }

    /// Writes `page` into its extent, serializing the whole page.  A
    /// write at the current page count extends the store by exactly
    /// one page; one past it fails with `PageNumberTooHighError`.
    pub fn write_page(&mut self, page: &CollectionPage) -> (r: Result<(), CollectionFileError>)
        requires
            old(self).wf(),
            page@.wf(old(self).config().data_budget),
        ensures
            final(self).wf(),
            final(self).config() == old(self).config(),
            ({
                let pn = page@.header.page_number;
                if pn > old(self).pages().len() {
                    &&& r == Err::<(), CollectionFileError>(
                        CollectionFileError::PageNumberTooHighError,
                    )
                    &&& final(self).pages() == old(self).pages()
                    &&& final(self).extents() == old(self).extents()
                    &&& final(self).dirty() == old(self).dirty()
                } else {
                    &&& r == Ok::<(), CollectionFileError>(())
                    &&& final(self).pages() == if pn == old(self).pages().len() {
                        old(self).pages().push(page@)
                    } else {
                        old(self).pages().update(pn as int, page@)
                    }
                    &&& final(self).dirty() == old(self).dirty().push(pn as u64)
                }
            }),
    {
        let pn: u64 = page.get_page_number();
        let count: u64 = self.extents.len() as u64;
        if pn > count {
            return Err(CollectionFileError::PageNumberTooHighError);
        }

        let extent = Self::encode_extent(page, &self.config);
        if pn == count {
            self.extents.push(extent);
            proof {
                self.pages@ = self.pages@.push(page@);
            }
        } else {
            self.extents[pn as usize] = extent;
            proof {
                self.pages@ = self.pages@.update(pn as int, page@);
            }
        }
        self.dirty.push(pn);

        proof {
            assert forall|n: int| 0 <= n < self.pages@.len() implies {
                &&& (#[trigger] self.extents()[n]).len() == self.config.page_size
                &&& encoding_prefix_of(self.pages@[n], self.extents()[n])
            } by {
                if n != pn as int {
                    assert(self.extents()[n] == old(self).extents()[n]);
                }
            }
            assert(final(self).extents() =~= final(self).extents());
        }
        Ok(())
    }

    /// Hands back the page numbers written since the last drain, and
    /// clears the list; the embedding program persists those extents.
    pub fn take_dirty(&mut self) -> (r: Vec<u64>)
        requires
            old(self).wf(),
        ensures
            final(self).wf(),
            r@ == old(self).dirty(),
            final(self).dirty() == Seq::<u64>::empty(),
            final(self).pages() == old(self).pages(),
            final(self).extents() == old(self).extents(),
            final(self).config() == old(self).config(),
            forall|i: int| 0 <= i < r@.len() ==> #[trigger] r@[i] < old(self).pages().len(),
    {
        let r = self.dirty.clone();
        self.dirty.clear();
        proof {
            assert(r@ =~= old(self).dirty());
            assert(self.extents() =~= old(self).extents());
            assert(self.wf());
        }
        r
    }

    /// A copy of the raw extent holding page `page_number`, for the
    /// embedding program to persist at byte offset
    /// `8 + page_number * page_size`.  Fails with
    /// `PageNumberTooHighError` when the page number is out of range.
    pub fn page_bytes(&self, page_number: u64) -> (r: Result<Vec<u8>, CollectionFileError>)
        requires
            self.wf(),
        ensures
            page_number < self.pages().len() ==> (r matches Ok(b) && b@ == self.extents()[
                page_number as int
            ]),
            page_number >= self.pages().len() ==> r == Err::<Vec<u8>, CollectionFileError>(
                CollectionFileError::PageNumberTooHighError,
            ),
    {
        if page_number >= self.extents.len() as u64 {
            return Err(CollectionFileError::PageNumberTooHighError);
        }
        let b = self.extents[page_number as usize].clone();
        proof {
            assert(b@ =~= self.extents()[page_number as int]);
        }
        Ok(b)
    }

    /// The whole backing file as one byte string: the page count
    /// followed by every extent.  Reopening a store from this image
    /// reproduces exactly the pages this store holds.
    pub fn file_image(&self) -> (r: Vec<u8>)
        requires
            self.wf(),
        ensures
            raw_matches(r@, self.config(), self.pages()),
    {
        let ghost ps = self.config.page_size as int;
        let mut image: Vec<u8> = u64_to_le_bytes(self.extents.len() as u64);
        let mut n: usize = 0;
        while n < self.extents.len()
            invariant
                self.wf(),
                ps == self.config().page_size,
                0 <= n <= self.extents@.len(),
                self.extents@.len() == self.pages().len(),
                image@.len() == 8 + n * ps,
                image@.subrange(0, 8) == spec_u64_to_le_bytes(self.pages().len() as u64),
                forall|k: int| 0 <= k < n ==> #[trigger] extent_of(image@, k, self.config())
                    == self.extents()[k],
            decreases self.extents@.len() - n,
        {
            let ghost prior = image@;
            let extent: &Vec<u8> = &self.extents[n];
            proof {
                assert(extent@ == self.extents()[n as int]);
                assert(extent@.len() == ps);
            }
            image.extend_from_slice(extent.as_slice());
            proof {
                assert((n + 1) * ps == n * ps + ps) by (nonlinear_arith);
                assert(image@.subrange(0, 8) =~= prior.subrange(0, 8));
                assert forall|k: int| 0 <= k < n + 1 implies #[trigger] extent_of(
                    image@,
                    k,
                    self.config(),
                ) == self.extents()[k] by {
                    assert(0 <= k * ps) by (nonlinear_arith)
                        requires
                            k >= 0,
                            ps >= 0,
                    ;
                    if k < n as int {
                        assert((k + 1) * ps <= n * ps) by (nonlinear_arith)
                            requires
                                k + 1 <= n,
                                ps >= 0,
                        ;
                        assert((k + 1) * ps == k * ps + ps) by (nonlinear_arith);
                        assert forall|j: int| 0 <= j < ps implies #[trigger] image@[8 + k * ps
                            + j] == prior[8 + k * ps + j] by {}
                        assert(extent_of(image@, k, self.config()) =~= extent_of(
                            prior,
                            k,
                            self.config(),
                        ));
                    } else {
                        assert forall|j: int| 0 <= j < ps implies #[trigger] image@[8 + n * ps
                            + j] == extent@[j] by {
                            assert(cloned::<u8>(extent@[j], image@[prior.len() + j]));
                        }
                        assert(extent_of(image@, k, self.config()) =~= extent@);
                    }
                }
            }
            n = n + 1;
        }
        proof {
            assert(1 <= self.pages().len() <= u64::MAX);
            assert forall|k: int| 0 <= k < self.pages().len() implies encoding_prefix_of(
                #[trigger] self.pages()[k],
                extent_of(image@, k, self.config()),
            ) by {
                assert(extent_of(image@, k, self.config()) == self.extents()[k]);
            }
        }
        image
    }

    /// The 8-byte little-endian page count, for the embedding program
    /// to persist at the start of the backing file.
    pub fn file_header_bytes(&self) -> (r: Vec<u8>)
        requires
            self.wf(),
        ensures
            r@ == spec_u64_to_le_bytes(self.pages().len() as u64),
    {
        u64_to_le_bytes(self.extents.len() as u64)
    }
}

} // verus!
