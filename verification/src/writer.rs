//! The slabtastic writer.
//!
//! The writer packs records into a data page and emits the page once it
//! reaches the preferred size; `finish` emits the last page and then the
//! pages page (the index). The bytes it emits are held until the caller
//! takes them with `take_output` and stores them at `base_offset()` and on
//! in the file, in order. A writer that appends to an existing file hands
//! over nothing until it is finished, so the file it extends stays valid
//! with its original records until the new pages page can follow.
use vstd::prelude::*;
use crate::config::{WriterConfig, round_up};
use crate::constants::{FOOTER_V1_SIZE, HEADER_SIZE, PageType};
use crate::error::SlabError;
use crate::page::{Page, concat, min_page_size, page_image};
use crate::pages_page::{PageEntry, PagesPage, entry_bytes};
use crate::page::push_bytes;
use crate::pages_page::{decode_entry, entries_of, entries_sorted, is_slot};
use crate::reader::{
    file_entries, file_opens, file_record, found_in, index_bytes, index_size, page_at_ok,
    page_bytes_at, page_records_at, page_start_at, record_in, stored_size,
};
use crate::page::{page_parses, page_records, tail_footer, lemma_concat_prefix_len, lemma_concat_step, lemma_concat_index};
use crate::footer::{Footer, decode_footer, footer_error, footer_valid};
use crate::reader::{available, load_index, open_error, entry_page_ok, file_consistent, page_span_ok};

verus! {

/// The largest record count a page footer can hold.
pub open spec fn max_page_records() -> int {
    0xff_ffff
}

/// Writes slabtastic files, accumulating records into pages and flushing
/// them according to the configured page size thresholds.
pub struct SlabWriter {
    config: WriterConfig,
    current_page: Page,
    current_size: u64,
    pages_page: PagesPage,
    file_offset: u64,
    next_ordinal: i64,
    page_start_ordinal: i64,
    base_offset: u64,
    output: Vec<u8>,
    written: Ghost<Seq<u8>>,
    flushed: Ghost<Seq<Seq<Seq<u8>>>>,
    positions: Ghost<Seq<int>>,
    sizes: Ghost<Seq<int>>,
    carried: Ghost<int>,
    first_ordinal: Ghost<int>,
    sealed: bool,
}

/// The pages page image for a sequence of index entries.
pub open spec fn index_image(es: Seq<PageEntry>) -> Seq<u8> {
    page_image(index_records(es), 0, 1, 1, 16, min_page_size(index_records(es)))
}

/// The records of a pages page holding `es`.
pub open spec fn index_records(es: Seq<PageEntry>) -> Seq<Seq<u8>> {
    Seq::new(es.len(), |i: int| entry_bytes(es[i]))
}

impl SlabWriter {
    /// Records accepted since the writer was created, in ordinal order.
    pub closed spec fn records(&self) -> Seq<Seq<u8>> {
        concat(self.flushed@) + self.current_page.rec_view()
    }

    /// All bytes emitted since the writer was created (taken or not).
    pub closed spec fn written(&self) -> Seq<u8> {
        self.written@
    }

    /// Emitted bytes not taken yet.
    pub closed spec fn pending(&self) -> Seq<u8> {
        self.output@
    }

    /// The file offset at which the emitted bytes begin.
    pub closed spec fn base(&self) -> int {
        self.base_offset as int
    }

    /// The file offset at which the next page will begin.
    pub closed spec fn offset(&self) -> int {
        self.file_offset as int
    }

    /// The ordinal the next record receives.
    pub closed spec fn next(&self) -> int {
        self.next_ordinal as int
    }

    /// The ordinal of the first record accepted by this writer.
    pub closed spec fn first(&self) -> int {
        self.first_ordinal@
    }

    /// The configuration.
    pub closed spec fn config_view(&self) -> WriterConfig {
        self.config
    }

    /// The index entries: those taken over from an existing file, then one
    /// per page flushed by this writer.
    pub closed spec fn index(&self) -> Seq<PageEntry> {
        self.pages_page.entry_view()
    }

    /// How many index entries were taken over from an existing file.
    pub closed spec fn carried(&self) -> int {
        self.carried@
    }

    /// The emitted bytes end with the pages page of the current index and
    /// no record is waiting in the current page.
    pub closed spec fn sealed(&self) -> bool {
        self.sealed
    }

    /// The writer adds to an existing file (made by `append`, whose pages
    /// begin past offset 0); it then holds the bytes it emits until it is
    /// finished.
    pub open spec fn appending(&self) -> bool {
        self.base() > 0
    }

    /// `take_output` hands over nothing now: the writer appends to an
    /// existing file and has emitted bytes since it was last finished.
    pub open spec fn withholds(&self) -> bool {
        self.appending() && !self.sealed()
    }

    /// The emitted bytes already handed over by `take_output`.
    pub open spec fn taken(&self) -> Seq<u8> {
        self.written().take(self.written().len() - self.pending().len())
    }

    /// The records of the data pages this writer flushed, page by page.
    pub closed spec fn flushed_pages(&self) -> Seq<Seq<Seq<u8>>> {
        self.flushed@
    }

    /// Where each flushed page begins among the emitted bytes.
    pub closed spec fn page_positions(&self) -> Seq<int> {
        self.positions@
    }

    /// The size of each flushed page.
    pub closed spec fn page_sizes(&self) -> Seq<int> {
        self.sizes@
    }

    /// Page `j` flushed by this writer is stored intact among the emitted
    /// bytes and indexed by entry `carried + j`.
    pub closed spec fn flushed_page_ok(&self, j: int) -> bool {
        let e = self.pages_page.entry_view()[self.carried@ + j];
        let rs = self.flushed@[j];
        let pos = self.positions@[j];
        let size = self.sizes@[j];
        &&& 0 < rs.len() <= max_page_records()
        &&& min_page_size(rs) <= size <= 0xffff_ffff
        &&& size == self.config.aligned(min_page_size(rs))
        &&& min_page_size(rs) <= self.config.max_page_size
        &&& e.start_ordinal == self.first_ordinal@ + concat(self.flushed@.take(j)).len()
        &&& e.file_offset == self.base_offset + pos
        &&& 0 <= pos
        &&& pos + size <= self.written@.len()
        &&& self.written@.subrange(pos, pos + size) == page_image(
            rs,
            e.start_ordinal as int,
            2,
            1,
            16,
            size as nat,
        )
    }

    /// The writer's internal invariant.
    pub closed spec fn wf(&self) -> bool {
        let cur = self.current_page.rec_view();
        &&& self.wf_core()
        &&& (cur.len() == 0 || self.current_size < self.config.preferred_page_size)
        &&& cur.len() < max_page_records()
    }

    /// The invariant, except that the current page may be due for flushing.
    pub closed spec fn wf_core(&self) -> bool {
        let cur = self.current_page.rec_view();
        let es = self.pages_page.entry_view();
        &&& self.current_page.footer.start_ordinal == self.page_start_ordinal
        &&& self.current_page.footer.page_type == PageType::Data
        &&& self.current_page.footer.version == 1
        &&& self.current_page.footer.footer_length == 16
        &&& self.current_size == min_page_size(cur)
        &&& self.current_size <= 0x2_0000_0000
        &&& (cur.len() == 0 || self.current_size <= self.config.max_page_size)
        &&& cur.len() <= max_page_records()
        &&& self.file_offset == self.base_offset + self.written@.len()
        &&& self.file_offset <= i64::MAX
        &&& self.output@.len() <= self.written@.len()
        &&& self.written@.subrange(
            self.written@.len() - self.output@.len(),
            self.written@.len() as int,
        ) == self.output@
        &&& (forall|i: int| 0 <= i < self.pages_page.page.rec_view().len() ==> (
        #[trigger] self.pages_page.page.rec_view()[i]) == entry_bytes(es[i]))
        &&& self.pages_page.page.footer.start_ordinal == 0
        &&& self.pages_page.page.footer.page_type == PageType::Pages
        &&& self.pages_page.page.footer.version == 1
        &&& self.pages_page.page.footer.footer_length == 16
        &&& 0 <= self.carried@
        &&& es.len() == self.carried@ + self.flushed@.len()
        &&& self.positions@.len() == self.flushed@.len()
        &&& forall|i: int, j: int|
            0 <= i < j < self.positions@.len() ==> #[trigger] self.positions@[i] < #[trigger] self.positions@[j]
        &&& self.sizes@.len() == self.flushed@.len()
        &&& forall|j: int| 0 <= j < self.flushed@.len() ==> #[trigger] self.flushed_page_ok(j)
        &&& self.page_start_ordinal == self.first_ordinal@ + concat(self.flushed@).len()
        &&& self.next_ordinal == self.page_start_ordinal + cur.len()
        &&& self.sealed ==> {
            &&& cur.len() == 0
            &&& es.len() <= max_page_records()
            &&& index_image(es).len() <= self.written@.len()
            &&& self.written@.subrange(
                self.written@.len() - index_image(es).len(),
                self.written@.len() as int,
            ) == index_image(es)
        }
    }
}


/// Concatenation after pushing one more piece.
pub proof fn lemma_concat_push<A>(s: Seq<Seq<A>>, x: Seq<A>)
    ensures
        concat(s.push(x)) == concat(s) + x,
{
    assert(s.push(x).drop_last() =~= s);
}

impl SlabWriter {
    /// Create a writer for a new file; its pages begin at file offset 0 and
    /// its first record receives ordinal 0.
    pub fn new(config: WriterConfig) -> (r: SlabWriter)
        ensures
            r.wf(),
            r.config_view() == config,
            r.records() == Seq::<Seq<u8>>::empty(),
            r.written() == Seq::<u8>::empty(),
            r.pending() == Seq::<u8>::empty(),
            r.base() == 0,
            r.offset() == 0,
            r.next() == 0,
            r.first() == 0,
            r.index() == Seq::<PageEntry>::empty(),
            r.carried() == 0,
            r.current_records() == Seq::<Seq<u8>>::empty(),
            r.flushed_pages() == Seq::<Seq<Seq<u8>>>::empty(),
            !r.sealed(),
            !r.appending(),
    {
        let current_page = Page::new(0, PageType::Data);
        let pages_page = PagesPage::new();
        let r = SlabWriter {
            config,
            current_page,
            current_size: 28,
            pages_page,
            file_offset: 0,
            next_ordinal: 0,
            page_start_ordinal: 0,
            base_offset: 0,
            output: Vec::new(),
            written: Ghost(Seq::empty()),
            flushed: Ghost(Seq::empty()),
            positions: Ghost(Seq::empty()),
            sizes: Ghost(Seq::empty()),
            carried: Ghost(0),
            first_ordinal: Ghost(0),
            sealed: false,
        };
        proof {
            assert(concat(Seq::<Seq<u8>>::empty()) == Seq::<u8>::empty());
            assert(min_page_size(Seq::<Seq<u8>>::empty()) == 28);
            assert(r.written@.subrange(0, 0) =~= r.output@);
            assert(r.records() =~= Seq::<Seq<u8>>::empty());
        }
        r
    }

    /// The file offset at which the bytes this writer emits begin.
    pub fn base_offset(&self) -> (r: u64)
        ensures
            r == self.base(),
    {
        self.base_offset
    }

    /// The file offset at which the next page will begin.
    pub fn file_offset(&self) -> (r: u64)
        ensures
            r == self.offset(),
    {
        self.file_offset
    }

    /// The ordinal the next record receives.
    pub fn next_ordinal(&self) -> (r: i64)
        ensures
            r == self.next(),
    {
        self.next_ordinal
    }

    /// Hand over the emitted bytes not taken yet; they belong in the file
    /// right after those taken before (the first at `base_offset()`).
    ///
    /// A writer made by `append` hands over nothing between adding records
    /// and `finish`, so what a caller has stored after an existing file
    /// always ends with a pages page, and an append interrupted before
    /// `finish` leaves the file as it was. A writer for a new file hands
    /// over its data pages as they are emitted; until `finish` they end
    /// with a data page, and a file ending with them does not open.
    pub fn take_output(&mut self) -> (r: Vec<u8>)
        requires
            old(self).wf(),
        ensures
            final(self).wf(),
            r@ == if old(self).withholds() {
                Seq::<u8>::empty()
            } else {
                old(self).pending()
            },
            final(self).pending() == if old(self).withholds() {
                old(self).pending()
            } else {
                Seq::<u8>::empty()
            },
            old(self).withholds() ==> *final(self) == *old(self),
            final(self).records() == old(self).records(),
            final(self).written() == old(self).written(),
            final(self).index() == old(self).index(),
            final(self).base() == old(self).base(),
            final(self).offset() == old(self).offset(),
            final(self).next() == old(self).next(),
            final(self).first() == old(self).first(),
            final(self).carried() == old(self).carried(),
            final(self).sealed() == old(self).sealed(),
            final(self).config_view() == old(self).config_view(),
            final(self).flushed_pages() == old(self).flushed_pages(),
            final(self).page_positions() == old(self).page_positions(),
            final(self).page_sizes() == old(self).page_sizes(),
    {
        let mut out: Vec<u8> = Vec::new();
        if self.base_offset > 0 && !self.sealed {
            return out;
        }
        std::mem::swap(&mut out, &mut self.output);
        proof {
            assert(self.written@.subrange(self.written@.len() as int, self.written@.len() as int)
                =~= self.output@);
            assert forall|j: int| 0 <= j < self.flushed@.len() implies #[trigger] self.flushed_page_ok(j) by {
                assert(old(self).flushed_page_ok(j));
            }
        }
        out
    }

    /// Emit the current page if it holds any record.
    ///
    /// The page is padded to `config.aligned(size)` bytes; a page whose
    /// padded size exceeds 2^32 - 1 cannot be represented and is refused
    /// with `PageTooLarge(padded size)`, leaving the writer unchanged.
    pub fn flush_page(&mut self) -> (r: Result<(), SlabError>)
        requires
            old(self).wf(),
            old(self).offset() + min_page_size(old(self).current_records())
                + old(self).config_view().min_page_size <= i64::MAX,
        ensures
            final(self).wf(),
            final(self).records() == old(self).records(),
            final(self).next() == old(self).next(),
            final(self).base() == old(self).base(),
            final(self).first() == old(self).first(),
            final(self).carried() == old(self).carried(),
            final(self).config_view() == old(self).config_view(),
            final(self).offset() <= old(self).offset() + 0xffff_ffff,
            old(self).written().is_prefix_of(final(self).written()),
            old(self).pending().is_prefix_of(final(self).pending()),
            final(self).pending() == old(self).pending() + final(self).written().skip(
                old(self).written().len() as int,
            ),
            old(self).index().is_prefix_of(final(self).index()),
            final(self).index().len() <= old(self).index().len() + 1,
            old(self).flushed_pages().is_prefix_of(final(self).flushed_pages()),
            old(self).page_positions().is_prefix_of(final(self).page_positions()),
            old(self).page_sizes().is_prefix_of(final(self).page_sizes()),
            match r {
                Ok(()) => final(self).current_records() == Seq::<Seq<u8>>::empty() && (
                old(self).current_records().len() > 0 ==> old(self).config_view().aligned(
                    min_page_size(old(self).current_records()),
                ) <= 0xffff_ffff) && (
                old(self).current_records().len() == 0 ==> *final(self)
                    == *old(self)) && (old(self).current_records().len() > 0 ==> final(
                self).flushed_pages() == old(self).flushed_pages().push(
                    old(self).current_records(),
                ) && final(self).written() == old(self).written() + old(self).page_image_now()
                    && final(self).index() == old(self).index().push(old(self).page_entry_now())
                    && final(self).offset() == old(self).offset() + old(self).page_size_now()),
                Err(e) => e == SlabError::PageTooLarge(
                    old(self).config_view().aligned(
                        min_page_size(old(self).current_records()),
                    ) as u64,
                ) && old(self).current_records().len() > 0 && old(self).config_view().aligned(
                    min_page_size(old(self).current_records()),
                ) > 0xffff_ffff && *final(self) == *old(self),
            },
            pages_fit(old(self).config_view()) ==> r is Ok,
    {
        if self.current_page.record_count() == 0 {
            proof {
                assert(self.records() =~= concat(self.flushed@));
            }
            return Ok(());
        }
        proof {
            crate::config::lemma_aligned_bounds(self.config, self.current_size as nat);
        }
        let aligned = self.config.aligned_len(self.current_size);
        proof {
            crate::config::lemma_aligned_within_unit(self.config, self.current_size as nat);
        }
        if aligned > 0xffff_ffff {
            return Err(SlabError::PageTooLarge(aligned));
        }
        self.emit_current_page(aligned);
        Ok(())
    }

    /// Emit the current, non-empty page padded to `aligned` bytes.
    #[verifier::spinoff_prover]
    #[verifier::rlimit(60)]
    fn emit_current_page(&mut self, aligned: u64)
        requires
            old(self).wf_core(),
            old(self).current_records().len() > 0,
            aligned == old(self).config_view().aligned(min_page_size(old(self).current_records())),
            aligned <= 0xffff_ffff,
            old(self).offset() + aligned <= i64::MAX,
        ensures
            final(self).wf(),
            final(self).current_records() == Seq::<Seq<u8>>::empty(),
            final(self).records() == old(self).records(),
            final(self).next() == old(self).next(),
            final(self).base() == old(self).base(),
            final(self).first() == old(self).first(),
            final(self).carried() == old(self).carried(),
            final(self).config_view() == old(self).config_view(),
            final(self).offset() == old(self).offset() + aligned,
            final(self).written() == old(self).written() + old(self).page_image_now(),
            final(self).index() == old(self).index().push(old(self).page_entry_now()),
            !final(self).sealed(),
            final(self).flushed_pages() == old(self).flushed_pages().push(
                old(self).current_records(),
            ),
            old(self).written().is_prefix_of(final(self).written()),
            old(self).pending().is_prefix_of(final(self).pending()),
            final(self).pending() == old(self).pending() + final(self).written().skip(
                old(self).written().len() as int,
            ),
            old(self).index().is_prefix_of(final(self).index()),
            final(self).index().len() == old(self).index().len() + 1,
            old(self).page_positions().is_prefix_of(final(self).page_positions()),
            old(self).page_sizes().is_prefix_of(final(self).page_sizes()),
    {
        proof {
            crate::config::lemma_aligned_bounds(self.config, self.current_size as nat);
        }
        let bytes = self.current_page.serialize_with_size(aligned as usize);
        let ghost old_written = self.written@;
        let ghost rs = self.current_page.rec_view();
        let ghost n = self.flushed@.len();
        let ghost entry = PageEntry {
            start_ordinal: self.page_start_ordinal,
            file_offset: self.file_offset as i64,
        };
        push_bytes(&mut self.output, bytes.as_slice());
        self.pages_page.add_entry(self.page_start_ordinal, self.file_offset as i64);
        self.file_offset = self.file_offset + aligned;
        self.page_start_ordinal = self.next_ordinal;
        self.current_page = Page::new(self.next_ordinal, PageType::Data);
        self.current_size = 28;
        self.sealed = false;
        proof {
            self.written = Ghost(old_written + bytes@);
            self.flushed = Ghost(self.flushed@.push(rs));
            self.positions = Ghost(self.positions@.push(old_written.len() as int));
            self.sizes = Ghost(self.sizes@.push(aligned as int));
            crate::page::lemma_page_image_len(rs, entry.start_ordinal as int, 2, aligned as nat);
            assert(bytes@.len() == aligned);
            lemma_concat_push(old(self).flushed@, rs);
            assert(self.flushed@.take(n as int) =~= old(self).flushed@);
            assert(self.written@.subrange(
                self.written@.len() - self.output@.len(),
                self.written@.len() as int,
            ) =~= self.output@);
            assert(self.written@.subrange(old_written.len() as int, self.written@.len() as int)
                =~= bytes@);
            assert forall|i: int| 0 <= i < self.pages_page.page.rec_view().len() implies (
            #[trigger] self.pages_page.page.rec_view()[i]) == entry_bytes(
                self.pages_page.entry_view()[i],
            ) by {
                if i < n + old(self).carried@ {
                    assert(old(self).pages_page.page.rec_view()[i] == entry_bytes(
                        old(self).pages_page.entry_view()[i],
                    ));
                }
            }
            assert forall|j: int| 0 <= j < self.flushed@.len() implies #[trigger] self.flushed_page_ok(j) by {
                if j < n {
                    assert(old(self).flushed_page_ok(j));
                    assert(self.flushed@.take(j) =~= old(self).flushed@.take(j));
                    assert(self.written@.subrange(self.positions@[j], self.positions@[j] + self.sizes@[j])
                        =~= old_written.subrange(self.positions@[j], self.positions@[j] + self.sizes@[j]));
                } else {
                    assert(self.pages_page.entry_view()[self.carried@ + j] == entry);
                    assert(0 < rs.len() <= max_page_records());
                    assert(min_page_size(rs) <= aligned <= 0xffff_ffff);
                    assert(entry.start_ordinal == self.first_ordinal@ + concat(self.flushed@.take(j)).len());
                    assert(entry.file_offset == self.base_offset + self.positions@[j]);
                    assert(self.positions@[j] + self.sizes@[j] <= self.written@.len());
                    assert(self.written@.subrange(self.positions@[j], self.positions@[j] + self.sizes@[j])
                        == page_image(rs, entry.start_ordinal as int, 2, 1, 16, aligned as nat));
                }
            }
            assert(self.records() =~= concat(self.flushed@));
            assert(old(self).written@.is_prefix_of(self.written@));
            assert(old(self).output@.is_prefix_of(self.output@));
            assert forall|i: int, j: int|
                0 <= i < j < self.positions@.len() implies #[trigger] self.positions@[i]
                    < #[trigger] self.positions@[j] by {
                assert(old(self).flushed_page_ok(i));
                if j == n {
                    assert(old(self).positions@[i] + old(self).sizes@[i] <= old_written.len());
                } else {
                    assert(old(self).positions@[i] < old(self).positions@[j]);
                }
            }
        }
    }

    /// The records waiting in the current page.
    pub closed spec fn current_records(&self) -> Seq<Seq<u8>> {
        self.current_page.rec_view()
    }

    /// The first ordinal of the current page.
    pub open spec fn page_start(&self) -> int {
        self.next() - self.current_records().len()
    }

    /// The size the current page is padded to when emitted.
    pub open spec fn page_size_now(&self) -> nat {
        self.config_view().aligned(min_page_size(self.current_records()))
    }

    /// The bytes of the current page when emitted: a data page of its
    /// records, starting at `page_start()`, padded to `page_size_now()`.
    pub open spec fn page_image_now(&self) -> Seq<u8> {
        page_image(self.current_records(), self.page_start(), 2, 1, 16, self.page_size_now())
    }

    /// The index entry of the current page when emitted: its first ordinal
    /// and the file offset at which it goes.
    pub open spec fn page_entry_now(&self) -> PageEntry {
        PageEntry { start_ordinal: self.page_start() as i64, file_offset: self.offset() as i64 }
    }
}


/// Whether a record of `len` bytes is too large for a page of the configured
/// maximum size (it needs 32 bytes of header, offsets and footer).
pub open spec fn record_too_large(c: WriterConfig, len: nat) -> bool {
    len + 32 > c.max_page_size
}

/// A record of `len` bytes is surely accepted: it fits a page of the
/// maximum size, and a page holding it stays below 2^32 bytes whatever the
/// current page holds.
pub open spec fn record_fits(c: WriterConfig, len: nat) -> bool {
    &&& !record_too_large(c, len)
    &&& c.preferred_page_size + c.min_page_size + len + 32 < 0x1_0000_0000
}

/// Pages of this configuration are surely flushed: the current page stays
/// below the preferred size, so once padded it stays below 2^32 bytes.
pub open spec fn pages_fit(c: WriterConfig) -> bool {
    c.preferred_page_size + c.min_page_size < 0x1_0000_0000
}

/// A page holding `rs` is due for flushing: it reached the preferred size,
/// or the most records a footer can count.
pub open spec fn page_full(c: WriterConfig, rs: Seq<Seq<u8>>) -> bool {
    min_page_size(rs) >= c.preferred_page_size || rs.len() >= max_page_records()
}

/// What adding a record of `len` bytes may cost in file bytes, counting a
/// page it starts: the record with its offset, a header, offsets and footer
/// for up to two pages, and the padding of up to two pages.
pub open spec fn record_cost(c: WriterConfig, len: nat) -> nat {
    (len + 60 + 2 * c.min_page_size) as nat
}

/// What adding the records `rs` may cost in file bytes (see `record_cost`).
pub open spec fn batch_cost(c: WriterConfig, rs: Seq<Seq<u8>>) -> nat
    decreases rs.len(),
{
    if rs.len() == 0 {
        0
    } else {
        batch_cost(c, rs.drop_last()) + record_cost(c, rs.last().len())
    }
}

impl SlabWriter {
    /// Adding a record of `len` bytes to the current page would take it past
    /// the maximum page size: the current page is flushed first and the
    /// record starts a new page.
    pub open spec fn splits_before(&self, len: nat) -> bool {
        &&& self.current_records().len() > 0
        &&& min_page_size(self.current_records()) + len + 4 > self.config_view().max_page_size
    }

    /// The page a record joins: the current page, or a new one when the
    /// current page would overflow.
    pub open spec fn joined(&self, data: Seq<u8>) -> Seq<Seq<u8>> {
        if self.splits_before(data.len()) {
            seq![data]
        } else {
            self.current_records().push(data)
        }
    }

    /// The pages that adding `data` flushes, in order: the current page when
    /// the record does not fit it, then the page the record joins when that
    /// page is full.
    pub open spec fn flushed_by(&self, data: Seq<u8>) -> Seq<Seq<Seq<u8>>> {
        (if self.splits_before(data.len()) {
            seq![self.current_records()]
        } else {
            Seq::empty()
        }) + (if page_full(self.config_view(), self.joined(data)) {
            seq![self.joined(data)]
        } else {
            Seq::empty()
        })
    }

    /// The padded size of the first page that adding `data` flushes and
    /// that cannot be padded within 2^32 - 1 bytes, if any.
    pub open spec fn oversized_by(&self, data: Seq<u8>) -> Option<nat> {
        let c = self.config_view();
        if self.splits_before(data.len()) && c.aligned(min_page_size(self.current_records()))
            > 0xffff_ffff {
            Some(c.aligned(min_page_size(self.current_records())))
        } else if page_full(c, self.joined(data)) && c.aligned(min_page_size(self.joined(data)))
            > 0xffff_ffff {
            Some(c.aligned(min_page_size(self.joined(data))))
        } else {
            None
        }
    }

    /// The size of the current page as it stands, without padding.
    pub fn pending_size(&self) -> (r: u64)
        requires
            self.wf(),
        ensures
            r == min_page_size(self.current_records()),
    {
        self.current_size
    }

    /// The configuration.
    pub fn config(&self) -> (r: WriterConfig)
        ensures
            r == self.config_view(),
    {
        self.config
    }

    /// Add a record; it receives ordinal `next()`.
    ///
    /// A record longer than `max_page_size - 32` bytes is refused with
    /// `RecordTooLarge`. A record that would take the current page past
    /// `max_page_size` makes the current page be flushed first, so no page
    /// holds more than `max_page_size` bytes before padding; the page the
    /// record joins is flushed once it reaches the preferred size (or the
    /// most records a footer counts). A page that would be padded beyond
    /// 2^32 - 1 bytes cannot be represented and the record is refused with
    /// `PageTooLarge`. A refused record leaves the writer unchanged.
    #[verifier::spinoff_prover]
    #[verifier::rlimit(100)]
    pub fn add_record(&mut self, data: &[u8]) -> (r: Result<(), SlabError>)
        requires
            old(self).wf(),
            old(self).config_view().max_page_size >= 32,
            old(self).next() < i64::MAX,
            old(self).offset() + min_page_size(old(self).current_records()) + record_cost(
                old(self).config_view(),
                data@.len(),
            ) <= i64::MAX,
        ensures
            final(self).wf(),
            final(self).base() == old(self).base(),
            final(self).first() == old(self).first(),
            final(self).carried() == old(self).carried(),
            final(self).config_view() == old(self).config_view(),
            final(self).offset() + min_page_size(final(self).current_records()) <= old(self).offset()
                + min_page_size(old(self).current_records()) + record_cost(
                old(self).config_view(),
                data@.len(),
            ),
            old(self).written().is_prefix_of(final(self).written()),
            old(self).pending().is_prefix_of(final(self).pending()),
            final(self).pending() == old(self).pending() + final(self).written().skip(
                old(self).written().len() as int,
            ),
            old(self).index().is_prefix_of(final(self).index()),
            final(self).index().len() <= old(self).index().len() + 2,
            old(self).flushed_pages().is_prefix_of(final(self).flushed_pages()),
            old(self).page_positions().is_prefix_of(final(self).page_positions()),
            old(self).page_sizes().is_prefix_of(final(self).page_sizes()),
            match r {
                Ok(()) => {
                    &&& !record_too_large(old(self).config_view(), data@.len())
                    &&& old(self).oversized_by(data@) is None
                    &&& final(self).records() == old(self).records().push(data@)
                    &&& final(self).next() == old(self).next() + 1
                    &&& !final(self).sealed()
                    &&& final(self).flushed_pages() == old(self).flushed_pages() + old(self).flushed_by(data@)
                    &&& final(self).current_records() == if page_full(
                        old(self).config_view(),
                        old(self).joined(data@),
                    ) {
                        Seq::<Seq<u8>>::empty()
                    } else {
                        old(self).joined(data@)
                    }
                },
                Err(e) => *final(self) == *old(self) && if record_too_large(
                    old(self).config_view(),
                    data@.len(),
                ) {
                    e == SlabError::RecordTooLarge {
                        record_size: data@.len() as usize,
                        max_size: (old(self).config_view().max_page_size - 32) as usize,
                    }
                } else {
                    old(self).oversized_by(data@) matches Some(s) && e == SlabError::PageTooLarge(
                        s as u64,
                    )
                },
            },
            record_fits(old(self).config_view(), data@.len()) ==> r is Ok,
    {
        let len = data.len();
        let max = self.config.max_page_size as usize;
        if len > max - 32 {
            return Err(SlabError::RecordTooLarge { record_size: len, max_size: max - 32 });
        }
        proof {
            crate::config::lemma_aligned_within_unit(self.config, self.current_size as nat);
            crate::config::lemma_aligned_within_unit(self.config, len as nat + 32);
            crate::config::lemma_aligned_within_unit(self.config, self.current_size as nat + len as nat + 4);
        }
        let cur_n = self.current_page.record_count();
        let split = cur_n > 0 && self.current_size + len as u64 + 4 > self.config.max_page_size as u64;
        let mut aligned_cur: u64 = 0;
        if split {
            aligned_cur = self.config.aligned_len(self.current_size);
            if aligned_cur > 0xffff_ffff {
                return Err(SlabError::PageTooLarge(aligned_cur));
            }
        }
        let joined_size: u64 = if split {
            len as u64 + 32
        } else {
            self.current_size + len as u64 + 4
        };
        let joined_count: usize = if split {
            1
        } else {
            cur_n + 1
        };
        let ghost old_cur = self.current_page.rec_view();
        let ghost joined = old(self).joined(data@);
        proof {
            if split {
                assert(min_page_size(seq![data@]) == len + 32) by {
                    assert(seq![data@].drop_last() =~= Seq::<Seq<u8>>::empty());
                    assert(concat(Seq::<Seq<u8>>::empty()) == Seq::<u8>::empty());
                }
            } else {
                lemma_concat_push(old_cur, data@);
            }
            assert(min_page_size(joined) == joined_size);
            assert(joined.len() == joined_count);
        }
        let full = joined_size >= self.config.preferred_page_size as u64 || joined_count >= 0xff_ffff;
        if full {
            let a = self.config.aligned_len(joined_size);
            if a > 0xffff_ffff {
                return Err(SlabError::PageTooLarge(a));
            }
        }
        let ghost mid_flushed = self.flushed@;
        let ghost before = *self;
        if split {
            self.emit_current_page(aligned_cur);
        }
        let ghost after_split = *self;
        let ghost cur2 = self.current_page.rec_view();
        self.current_page.add_record(data);
        self.current_size = joined_size;
        self.next_ordinal = self.next_ordinal + 1;
        self.sealed = false;
        proof {
            assert(cur2 == if split { Seq::<Seq<u8>>::empty() } else { old_cur });
            assert(self.current_page.rec_view() == cur2.push(data@));
            assert(self.current_page.rec_view() =~= joined);
            lemma_concat_push(cur2, data@);
            assert(self.records() =~= old(self).records().push(data@));
            assert(self.written@.subrange(
                self.written@.len() - self.output@.len(),
                self.written@.len() as int,
            ) == self.output@);
            assert forall|j: int| 0 <= j < self.flushed@.len() implies #[trigger] self.flushed_page_ok(j) by {
                assert(after_split.flushed_page_ok(j));
            }
        }
        let ghost before_full = *self;
        if full {
            let a = self.config.aligned_len(joined_size);
            self.emit_current_page(a);
        }
        proof {
            assert(self.flushed_pages() =~= old(self).flushed_pages() + old(self).flushed_by(data@));
            lemma_prefix_trans(old(self).written(), after_split.written(), self.written());
            lemma_prefix_trans(old(self).pending(), after_split.pending(), self.pending());
            lemma_prefix_trans(old(self).index(), after_split.index(), self.index());
            lemma_prefix_trans(old(self).flushed_pages(), after_split.flushed_pages(), self.flushed_pages());
            lemma_prefix_trans(old(self).page_positions(), after_split.page_positions(), self.page_positions());
            lemma_prefix_trans(old(self).page_sizes(), after_split.page_sizes(), self.page_sizes());
            let w0 = old(self).written();
            let w1 = after_split.written();
            let w2 = self.written();
            assert(w2.skip(w0.len() as int) =~= w1.skip(w0.len() as int) + w2.skip(w1.len() as int));
            assert(self.pending() =~= old(self).pending() + self.written().skip(w0.len() as int));
        }
        Ok(())
    }
}


/// The cost of a prefix of a batch is at most the cost of a longer one.
pub proof fn lemma_batch_cost_mono(c: WriterConfig, rs: Seq<Seq<u8>>, i: int, j: int)
    requires
        0 <= i <= j <= rs.len(),
    ensures
        batch_cost(c, rs.take(i)) <= batch_cost(c, rs.take(j)),
    decreases j - i,
{
    if i < j {
        assert(rs.take(j).drop_last() =~= rs.take(j - 1));
        lemma_batch_cost_mono(c, rs, i, j - 1);
    }
    assert(rs.take(rs.len() as int) =~= rs);
}

/// Being a prefix is transitive.
pub proof fn lemma_prefix_trans<A>(a: Seq<A>, b: Seq<A>, c: Seq<A>)
    requires
        a.is_prefix_of(b),
        b.is_prefix_of(c),
    ensures
        a.is_prefix_of(c),
{
    assert(a =~= c.subrange(0, a.len() as int));
}

/// The contents of a batch of records.
pub open spec fn batch_view(rs: Seq<&[u8]>) -> Seq<Seq<u8>> {
    Seq::new(rs.len(), |i: int| rs[i]@)
}

/// The size a pages page of `k` entries reports when it is too large.
pub open spec fn index_size_report(k: nat) -> u64 {
    if k <= 0x0ccc_cccc_cccc_cccb {
        (28 + 20 * k) as u64
    } else {
        u64::MAX
    }
}

impl SlabWriter {
    /// Add several records in order; equivalent to calling `add_record` on
    /// each until one is refused.
    pub fn add_records(&mut self, records: &[&[u8]]) -> (r: Result<(), SlabError>)
        requires
            old(self).wf(),
            old(self).config_view().max_page_size >= 32,
            old(self).next() + records@.len() <= i64::MAX,
            old(self).offset() + min_page_size(old(self).current_records()) + batch_cost(
                old(self).config_view(),
                batch_view(records@),
            ) <= i64::MAX,
        ensures
            final(self).wf(),
            final(self).base() == old(self).base(),
            final(self).first() == old(self).first(),
            final(self).carried() == old(self).carried(),
            final(self).config_view() == old(self).config_view(),
            old(self).written().is_prefix_of(final(self).written()),
            old(self).pending().is_prefix_of(final(self).pending()),
            final(self).pending() == old(self).pending() + final(self).written().skip(
                old(self).written().len() as int,
            ),
            old(self).index().is_prefix_of(final(self).index()),
            final(self).index().len() <= old(self).index().len() + 2 * records@.len(),
            match r {
                Ok(()) => final(self).records() == old(self).records() + batch_view(records@)
                    && final(self).next() == old(self).next() + records@.len() && (
                records@.len() > 0 ==> !final(self).sealed()),
                Err(e) => exists|k: int|
                    0 <= k < records@.len() && final(self).records() == old(self).records()
                        + batch_view(records@).take(k) && (if record_too_large(
                        final(self).config_view(),
                        records@[k]@.len(),
                    ) {
                        e == SlabError::RecordTooLarge {
                            record_size: records@[k]@.len() as usize,
                            max_size: (final(self).config_view().max_page_size - 32) as usize,
                        }
                    } else {
                        final(self).oversized_by(records@[k]@) matches Some(s) && e
                            == SlabError::PageTooLarge(s as u64)
                    }),
            },
            (forall|k: int|
                0 <= k < records@.len() ==> record_fits(
                    old(self).config_view(),
                    (#[trigger] records@[k])@.len(),
                )) ==> r is Ok,
    {
        let n = records.len();
        let ghost o0 = old(self).offset() + min_page_size(old(self).current_records());
        let ghost bv = batch_view(records@);
        let mut i: usize = 0;
        proof {
            assert(bv.take(0) =~= Seq::<Seq<u8>>::empty());
        }
        while i < n
            invariant
                n == records@.len(),
                0 <= i <= n,
                self.wf(),
                self.base() == old(self).base(),
                self.first() == old(self).first(),
                self.carried() == old(self).carried(),
                self.config_view() == old(self).config_view(),
                old(self).written().is_prefix_of(self.written()),
                old(self).pending().is_prefix_of(self.pending()),
                self.pending() == old(self).pending() + self.written().skip(
                    old(self).written().len() as int,
                ),
                old(self).index().is_prefix_of(self.index()),
                self.index().len() <= old(self).index().len() + 2 * i,
                self.records() == old(self).records() + batch_view(records@).take(i as int),
                self.next() == old(self).next() + i,
                bv == batch_view(records@),
                self.offset() + min_page_size(self.current_records()) <= o0 + batch_cost(
                    self.config_view(),
                    bv.take(i as int),
                ),
                old(self).next() + n <= i64::MAX,
                o0 + batch_cost(self.config_view(), bv) <= i64::MAX,
                o0 == old(self).offset() + min_page_size(old(self).current_records()),
                old(self).config_view().max_page_size >= 32,
                i > 0 ==> !self.sealed(),
            decreases n - i,
        {
            proof {
                assert(bv.take(i + 1).drop_last() =~= bv.take(i as int));
                assert(bv.take(i + 1).last() == records@[i as int]@);
                assert(batch_cost(self.config_view(), bv.take(i + 1)) == batch_cost(
                    self.config_view(),
                    bv.take(i as int),
                ) + record_cost(self.config_view(), records@[i as int]@.len()));
                lemma_batch_cost_mono(self.config_view(), bv, i + 1, n as int);
                assert(bv.take(n as int) =~= bv);
            }
            let ghost before = *self;
            let res = self.add_record(records[i]);
            match res {
                Ok(()) => {},
                Err(e) => {
                    assert(self.records() == old(self).records() + batch_view(records@).take(
                        i as int,
                    ));
                    assert(*self == before);
                    return Err(e);
                },
            }
            proof {
                assert(batch_view(records@).take(i + 1) =~= batch_view(records@).take(
                    i as int,
                ).push(records@[i as int]@));
                lemma_prefix_trans(old(self).written(), before.written(), self.written());
                lemma_prefix_trans(old(self).pending(), before.pending(), self.pending());
                lemma_prefix_trans(old(self).index(), before.index(), self.index());
                let w0 = old(self).written();
                let w1 = before.written();
                let w2 = self.written();
                assert(w2.skip(w0.len() as int) =~= w1.skip(w0.len() as int) + w2.skip(
                    w1.len() as int,
                ));
                assert(self.pending() =~= old(self).pending() + self.written().skip(
                    old(self).written().len() as int,
                ));
            }
            i = i + 1;
        }
        assert(batch_view(records@).take(n as int) =~= batch_view(records@));
        Ok(())
    }

    /// Finish writing: flush the pending page and emit the pages page.
    ///
    /// A pages page of more entries than a footer can count is refused with
    /// `PageTooLarge` (its size, saturated at `u64::MAX`).
    #[verifier::spinoff_prover]
    #[verifier::rlimit(60)]
    pub fn finish(&mut self) -> (r: Result<(), SlabError>)
        requires
            old(self).wf(),
            old(self).offset() + 0x2_0000_0000 <= i64::MAX,
        ensures
            final(self).wf(),
            final(self).records() == old(self).records(),
            final(self).next() == old(self).next(),
            final(self).base() == old(self).base(),
            final(self).first() == old(self).first(),
            final(self).carried() == old(self).carried(),
            final(self).config_view() == old(self).config_view(),
            final(self).offset() <= old(self).offset() + 0x1_ffff_fffe,
            old(self).written().is_prefix_of(final(self).written()),
            old(self).pending().is_prefix_of(final(self).pending()),
            final(self).pending() == old(self).pending() + final(self).written().skip(
                old(self).written().len() as int,
            ),
            old(self).index().is_prefix_of(final(self).index()),
            final(self).index().len() <= old(self).index().len() + 1,
            old(self).flushed_pages().is_prefix_of(final(self).flushed_pages()),
            old(self).page_positions().is_prefix_of(final(self).page_positions()),
            old(self).page_sizes().is_prefix_of(final(self).page_sizes()),
            final(self).flushed_pages() == if old(self).current_records().len() > 0
                && final(self).current_records().len() == 0 {
                old(self).flushed_pages().push(old(self).current_records())
            } else {
                old(self).flushed_pages()
            },
            match r {
                Ok(()) => final(self).sealed() && final(self).records() == concat(
                    final(self).flushed_pages(),
                ),
                Err(e) => (e == SlabError::PageTooLarge(
                    old(self).config_view().aligned(
                        min_page_size(old(self).current_records()),
                    ) as u64,
                ) && old(self).current_records().len() > 0 && old(self).config_view().aligned(
                    min_page_size(old(self).current_records()),
                ) > 0xffff_ffff && *final(self) == *old(self)) || (final(self).current_records().len() == 0 && final(self).index().len() > max_page_records()
                    && e == SlabError::PageTooLarge(
                    index_size_report(final(self).index().len()),
                )),
            },
            pages_fit(old(self).config_view()) && old(self).index().len() + 1 < max_page_records()
                ==> r is Ok,
    {
        match self.flush_page() {
            Ok(()) => {},
            Err(e) => {
                return Err(e);
            },
        }
        let ghost mid = *self;
        assert(mid.flushed_pages() == if old(self).current_records().len() > 0 {
            old(self).flushed_pages().push(old(self).current_records())
        } else {
            old(self).flushed_pages()
        });
        let k = self.pages_page.entry_count();
        if k > 0xff_ffff {
            let size: u64 = if k as u64 <= 0x0ccc_cccc_cccc_cccb {
                28 + 20 * k as u64
            } else {
                u64::MAX
            };
            return Err(SlabError::PageTooLarge(size));
        }
        let ghost es = self.pages_page.entry_view();
        let ghost prs = self.pages_page.page.rec_view();
        proof {
            assert(prs =~= index_records(es));
            assert forall|j: int| 0 <= j < prs.len() implies (#[trigger] prs[j]).len() == 16 by {
                crate::pages_page::lemma_entry_write_read(es[j], Seq::<u8>::empty());
            }
            crate::page::lemma_concat_uniform(prs, 16, prs.len() as int);
            assert(prs.take(prs.len() as int) =~= prs);
        }
        let bytes = self.pages_page.serialize();
        let ghost old_written = self.written@;
        proof {
            crate::page::lemma_page_image_len(prs, 0, 1, min_page_size(prs));
        }
        push_bytes(&mut self.output, bytes.as_slice());
        self.file_offset = self.file_offset + bytes.len() as u64;
        self.sealed = true;
        proof {
            self.written = Ghost(old_written + bytes@);
            assert(bytes@ =~= index_image(es));
            assert(self.written@.subrange(
                self.written@.len() - self.output@.len(),
                self.written@.len() as int,
            ) =~= self.output@);
            assert(self.written@.subrange(
                self.written@.len() - index_image(es).len(),
                self.written@.len() as int,
            ) =~= index_image(es));
            assert forall|j: int| 0 <= j < self.flushed@.len() implies #[trigger] self.flushed_page_ok(j) by {
                assert(mid.flushed_page_ok(j));
                assert(self.written@.subrange(self.positions@[j], self.positions@[j] + self.sizes@[j])
                    =~= old_written.subrange(self.positions@[j], self.positions@[j] + self.sizes@[j]));
            }
            assert(self.records() =~= concat(self.flushed@));
        }
        Ok(())
    }
}


/// The number of records before piece `j`.
pub open spec fn prefix_count<A>(chunks: Seq<Seq<A>>, j: int) -> nat {
    concat(chunks.take(j)).len()
}

/// Prefix counts never decrease.
pub proof fn lemma_prefix_count_mono<A>(chunks: Seq<Seq<A>>, i: int, j: int)
    requires
        0 <= i <= j <= chunks.len(),
    ensures
        prefix_count(chunks, i) <= prefix_count(chunks, j),
{
    assert(chunks.take(j).take(i) =~= chunks.take(i));
    lemma_concat_prefix_len(chunks.take(j), i);
}

/// Every position of a concatenation lies in some piece.
pub proof fn lemma_locate<A>(chunks: Seq<Seq<A>>, o: int)
    requires
        0 <= o < concat(chunks).len(),
    ensures
        exists|j: int|
            0 <= j < chunks.len() && #[trigger] prefix_count(chunks, j) <= o < prefix_count(chunks, j + 1),
    decreases chunks.len(),
{
    let n = chunks.len() as int;
    assert(chunks.take(n) =~= chunks);
    lemma_concat_step(chunks, n - 1);
    if o >= prefix_count(chunks, n - 1) {
        assert(prefix_count(chunks, n - 1) <= o < prefix_count(chunks, (n - 1) + 1));
    } else {
        let c = chunks.drop_last();
        assert(concat(chunks.take(n - 1)) == concat(c)) by {
            assert(chunks.take(n - 1) =~= c);
        }
        lemma_locate(c, o);
        let j = choose|j: int| 0 <= j < c.len() && #[trigger] prefix_count(c, j) <= o < prefix_count(c, j + 1);
        assert(c.take(j) =~= chunks.take(j));
        assert(c.take(j + 1) =~= chunks.take(j + 1));
        assert(prefix_count(chunks, j) <= o < prefix_count(chunks, j + 1));
    }
}

/// A position inside piece `j` holds that piece's element.
pub proof fn lemma_concat_at<A>(chunks: Seq<Seq<A>>, j: int, o: int)
    requires
        0 <= j < chunks.len(),
        prefix_count(chunks, j) <= o < prefix_count(chunks, j + 1),
    ensures
        o < concat(chunks).len(),
        concat(chunks)[o] == chunks[j][o - prefix_count(chunks, j)],
{
    lemma_concat_step(chunks, j);
    lemma_concat_index(chunks, j);
    let p = prefix_count(chunks, j) as int;
    assert(concat(chunks).subrange(p, p + chunks[j].len())[o - p] == chunks[j][o - p]);
}

impl SlabWriter {
    /// A page flushed by this writer reads back, with its start ordinal and
    /// its records, from the file made of `pre` (the bytes before `base()`)
    /// and the emitted bytes.
    proof fn lemma_flushed_page_reads(&self, pre: Seq<u8>, j: int)
        requires
            self.wf(),
            pre.len() == self.base_offset,
            0 <= j < self.flushed@.len(),
            -0x80_0000_0000 <= self.first_ordinal@,
            self.next_ordinal <= 0x80_0000_0000,
        ensures
            page_at_ok(pre + self.written@, self.index()[self.carried@ + j].file_offset as int),
            page_start_at(pre + self.written@, self.index()[self.carried@ + j].file_offset as int)
                == self.index()[self.carried@ + j].start_ordinal,
            page_records_at(pre + self.written@, self.index()[self.carried@ + j].file_offset as int)
                == self.flushed@[j],
    {
        assert(self.flushed_page_ok(j));
        let e = self.index()[self.carried@ + j];
        let rs = self.flushed@[j];
        let pos = self.positions@[j];
        let size = self.sizes@[j];
        let w = self.written@;
        let data = pre + w;
        let off = e.file_offset as int;
        let img = page_image(rs, e.start_ordinal as int, 2, 1, 16, size as nat);
        lemma_prefix_count_mono(self.flushed@, j, j + 1);
        lemma_prefix_count_mono(self.flushed@, j + 1, self.flushed@.len() as int);
        lemma_concat_step(self.flushed@, j);
        assert(self.flushed@.take(self.flushed@.len() as int) =~= self.flushed@);
        assert(crate::footer::ordinal_in_range(e.start_ordinal as int));
        crate::page::lemma_page_write_read(rs, e.start_ordinal as int, 2, size as nat);
        crate::page::lemma_page_image_len(rs, e.start_ordinal as int, 2, size as nat);
        crate::encoding::lemma_le_bytes_len(size as nat, 4);
        assert(off == pre.len() + pos);
        assert(data.subrange(off, off + size) =~= w.subrange(pos, pos + size));
        assert(data.subrange(off + 4, off + 8) =~= img.subrange(4, 8));
        assert(img.subrange(4, 8) =~= crate::encoding::le_bytes(size as nat, 4));
        crate::encoding::lemma_le_value_of_bytes(size as nat, 4);
        crate::encoding::lemma_pow256_values();
        vstd::arithmetic::div_mod::lemma_small_mod(size as nat, 0x1_0000_0000);
        assert(stored_size(data, off) == size);
        assert(page_bytes_at(data, off) == img);
    }

    /// The pages page at the end of a sealed writer's bytes opens as the
    /// file's index, and that index is the writer's.
    proof fn lemma_sealed_index(&self)
        requires
            self.wf(),
            self.sealed,
        ensures
            file_opens(self.written@),
            file_entries(self.written@) == self.index(),
    {
        let es = self.index();
        let w = self.written@;
        assert(w.subrange(w.len() - index_image(es).len(), w.len() as int) == index_image(es));
        lemma_index_image_opens(w, es);
    }
}

/// Bytes that end with the pages page of `es` open as a file indexed by `es`.
#[verifier::spinoff_prover]
pub proof fn lemma_index_image_opens(w: Seq<u8>, es: Seq<PageEntry>)
    requires
        es.len() <= max_page_records(),
        index_image(es).len() <= w.len(),
        w.subrange(w.len() - index_image(es).len(), w.len() as int) == index_image(es),
    ensures
        file_opens(w),
        file_entries(w) == es,
{
    let recs = index_records(es);
    let size = min_page_size(recs);
    let img = index_image(es);
    assert forall|j: int| 0 <= j < recs.len() implies (#[trigger] recs[j]).len() == 16 by {
        crate::pages_page::lemma_entry_write_read(es[j], Seq::<u8>::empty());
    }
    crate::page::lemma_concat_uniform(recs, 16, recs.len() as int);
    assert(recs.take(recs.len() as int) =~= recs);
    crate::page::lemma_page_write_read(recs, 0, 1, size);
    crate::page::lemma_page_image_len(recs, 0, 1, size);
    assert(tail_footer(w) =~= tail_footer(img));
    assert(index_size(w) == size);
    assert(index_bytes(w) =~= img);
    assert(entries_of(page_records(img)) =~= es) by {
        assert forall|i: int| 0 <= i < es.len() implies #[trigger] decode_entry(recs[i]) == es[i] by {
            crate::pages_page::lemma_entry_write_read(es[i], Seq::<u8>::empty());
            assert(entry_bytes(es[i]) + Seq::<u8>::empty() =~= entry_bytes(es[i]));
        }
    }
}

/// The pages page of entries `es` reads back as `es`: its bytes parse as a
/// page of type `Pages` whose records decode to `es`, so
/// `PagesPage::deserialize` of what `PagesPage::serialize` gives for these
/// entries holds them again.
#[verifier::spinoff_prover]
pub proof fn lemma_index_write_read(es: Seq<PageEntry>)
    requires
        es.len() <= max_page_records(),
    ensures
        page_parses(index_image(es)),
        decode_footer(tail_footer(index_image(es))).page_type == PageType::Pages,
        entries_of(page_records(index_image(es))) == es,
{
    let recs = index_records(es);
    let size = min_page_size(recs);
    assert forall|j: int| 0 <= j < recs.len() implies (#[trigger] recs[j]).len() == 16 by {
        crate::pages_page::lemma_entry_write_read(es[j], Seq::<u8>::empty());
    }
    crate::page::lemma_concat_uniform(recs, 16, recs.len() as int);
    assert(recs.take(recs.len() as int) =~= recs);
    crate::page::lemma_page_write_read(recs, 0, 1, size);
    assert(entries_of(recs) =~= es) by {
        assert forall|i: int| 0 <= i < es.len() implies #[trigger] decode_entry(recs[i]) == es[i] by {
            crate::pages_page::lemma_entry_write_read(es[i], Seq::<u8>::empty());
            assert(entry_bytes(es[i]) + Seq::<u8>::empty() =~= entry_bytes(es[i]));
        }
    }
}

/// The requirements of the law for a file written from scratch.
pub open spec fn written_from_scratch(w: SlabWriter) -> bool {
    &&& w.wf()
    &&& w.sealed()
    &&& w.base() == 0
    &&& w.first() == 0
    &&& w.carried() == 0
    &&& w.next() <= 0x80_0000_0000
}

impl SlabWriter {
    /// The pages of a file written from scratch: entry `k` starts at the
    /// number of records before page `k`, points at a page that reads with
    /// that start and those records, and the entries are sorted.
    #[verifier::spinoff_prover]
    proof fn lemma_fresh_pages(&self)
        requires
            written_from_scratch(*self),
        ensures
            self.index().len() == self.flushed@.len(),
            entries_sorted(self.index()),
            forall|i: int, j: int|
                0 <= i < j < self.index().len() ==> #[trigger] self.index()[i].file_offset
                    < #[trigger] self.index()[j].file_offset,
            forall|j: int|
                0 <= j < self.flushed@.len() ==> #[trigger] self.index()[j].start_ordinal
                    == prefix_count(self.flushed@, j),
            forall|j: int|
                0 <= j < self.flushed@.len() ==> prefix_count(self.flushed@, j) < #[trigger] prefix_count(
                    self.flushed@,
                    j + 1,
                ),
            forall|k: int|
                0 <= k < self.flushed@.len() ==> page_at_ok(
                    self.written@,
                    #[trigger] self.index()[k].file_offset as int,
                ) && page_start_at(self.written@, self.index()[k].file_offset as int) == prefix_count(
                    self.flushed@,
                    k,
                ) && page_records_at(self.written@, self.index()[k].file_offset as int)
                    == self.flushed@[k],
    {
        let es = self.index();
        let data = self.written@;
        let chunks = self.flushed@;
        let n = chunks.len() as int;
        assert forall|j: int| 0 <= j < n implies #[trigger] es[j].start_ordinal == prefix_count(chunks, j) by {
            assert(self.flushed_page_ok(j));
        }
        assert forall|j: int| 0 <= j < n implies prefix_count(chunks, j) < #[trigger] prefix_count(chunks, j + 1) by {
            assert(self.flushed_page_ok(j));
            lemma_concat_step(chunks, j);
        }
        assert forall|i: int, j: int| 0 <= i < j < es.len() implies es[i].start_ordinal <= es[j].start_ordinal by {
            lemma_prefix_count_mono(chunks, i, j);
        }
        assert forall|i: int, j: int| 0 <= i < j < es.len() implies #[trigger] es[i].file_offset
            < #[trigger] es[j].file_offset by {
            assert(self.flushed_page_ok(i));
            assert(self.flushed_page_ok(j));
        }
        assert forall|k: int| 0 <= k < n implies page_at_ok(data, #[trigger] es[k].file_offset as int)
            && page_start_at(data, es[k].file_offset as int) == prefix_count(chunks, k)
            && page_records_at(data, es[k].file_offset as int) == chunks[k] by {
            self.lemma_flushed_page_reads(Seq::empty(), k);
            assert(Seq::<u8>::empty() + data =~= data);
        }
    }

    /// What ordinal `o` gives in a file written from scratch.
    #[verifier::spinoff_prover]
    proof fn lemma_fresh_record(&self, o: int)
        requires
            written_from_scratch(*self),
        ensures
            file_record(self.written@, self.index(), o) == if 0 <= o < self.records().len() {
                Some(self.records()[o])
            } else {
                None::<Seq<u8>>
            },
    {
        self.lemma_fresh_pages();
        let es = self.index();
        let data = self.written@;
        let chunks = self.flushed@;
        let n = chunks.len() as int;
        assert(self.records() =~= concat(chunks));
        assert(chunks.take(n) =~= chunks);
        if 0 <= o < concat(chunks).len() {
            lemma_locate(chunks, o);
            let j = choose|j: int| 0 <= j < n && #[trigger] prefix_count(chunks, j) <= o < prefix_count(chunks, j + 1);
            assert(is_slot(es, o, j)) by {
                if j + 1 < n {
                    assert(es[j + 1].start_ordinal == prefix_count(chunks, j + 1));
                }
            }
            lemma_concat_step(chunks, j);
            assert(found_in(data, es, o, j));
            crate::reader::lemma_file_record_at(data, es, o, j);
            lemma_concat_at(chunks, j, o);
        } else {
            assert forall|k: int| !found_in(data, es, o, k) by {
                if found_in(data, es, o, k) {
                    lemma_concat_step(chunks, k);
                    lemma_prefix_count_mono(chunks, k, k + 1);
                    lemma_prefix_count_mono(chunks, k + 1, n);
                }
            }
        }
    }
}

/// A file written from scratch reads back exactly the records added, in
/// order: ordinal `o` gives record `o` for `0 <= o < n` and nothing
/// elsewhere, and its index is sorted, with pages at increasing offsets. It holds while the ordinals fit the
/// 40-bit footer field (fewer than 2^39 records).
#[verifier::spinoff_prover]
pub proof fn lemma_written_file_reads_back(w: SlabWriter)
    requires
        w.wf(),
        w.sealed(),
        w.base() == 0,
        w.first() == 0,
        w.carried() == 0,
        w.next() <= 0x80_0000_0000,
    ensures
        file_opens(w.written()),
        file_entries(w.written()) == w.index(),
        entries_sorted(file_entries(w.written())),
        forall|i: int, j: int|
            0 <= i < j < file_entries(w.written()).len() ==> #[trigger] file_entries(
                w.written(),
            )[i].file_offset < #[trigger] file_entries(w.written())[j].file_offset,
        file_consistent(w.written()),
        forall|o: int|
            #![trigger file_record(w.written(), file_entries(w.written()), o)]
            file_record(w.written(), file_entries(w.written()), o) == if 0 <= o < w.records().len() {
                Some(w.records()[o])
            } else {
                None::<Seq<u8>>
            },
{
    w.lemma_sealed_index();
    w.lemma_fresh_pages();
    let es = w.index();
    let data = w.written@;
    assert forall|k: int| 0 <= k < es.len() implies entry_page_ok(data, #[trigger] es[k]) by {
        assert(page_at_ok(data, es[k].file_offset as int));
    }
    assert forall|o: int| #[trigger] file_record(data, es, o) == if 0 <= o < w.records().len() {
        Some(w.records()[o])
    } else {
        None::<Seq<u8>>
    } by {
        w.lemma_fresh_record(o);
    }
}


/// Where the footer of the page an entry points at lies, by the page's
/// header.
pub open spec fn entry_footer_pos(data: Seq<u8>, e: PageEntry) -> int {
    e.file_offset + stored_size(data, e.file_offset as int) - 16
}

/// The header and the footer of the page an entry points at can be read.
pub open spec fn entry_scan_ok(data: Seq<u8>, e: PageEntry) -> bool {
    let off = e.file_offset as int;
    let fp = entry_footer_pos(data, e);
    &&& 0 <= off
    &&& off + 8 <= data.len()
    &&& 0 <= fp
    &&& fp + 16 <= data.len()
    &&& footer_valid(data.subrange(fp, fp + 16))
}

/// The footer of the page an entry points at.
pub open spec fn entry_footer(data: Seq<u8>, e: PageEntry) -> Footer {
    let fp = entry_footer_pos(data, e);
    decode_footer(data.subrange(fp, fp + 16))
}

/// The error that scanning the page of an entry gives when it fails.
pub open spec fn entry_scan_error(data: Seq<u8>, e: PageEntry, err: SlabError) -> bool {
    let off = e.file_offset as int;
    let fp = entry_footer_pos(data, e);
    if off < 0 || off + 8 > data.len() {
        err == SlabError::TruncatedPage { expected: 8, actual: available(data, off) as usize }
    } else if fp < 0 || fp + 16 > data.len() {
        err == SlabError::TruncatedPage { expected: 16, actual: available(data, fp) as usize }
    } else {
        footer_error(data.subrange(fp, fp + 16), err)
    }
}

/// One past the last ordinal of the indexed pages, and at least 0.
pub open spec fn end_ordinal_of(data: Seq<u8>, es: Seq<PageEntry>) -> int
    decreases es.len(),
{
    if es.len() == 0 {
        0
    } else {
        let m = end_ordinal_of(data, es.drop_last());
        let f = entry_footer(data, es.last());
        let v = f.start_ordinal + f.record_count;
        if v > m {
            v
        } else {
            m
        }
    }
}

impl SlabWriter {
    /// Open an existing file, given its bytes, for appending.
    ///
    /// The file is opened as `SlabReader::open` does; then the header and
    /// the footer of every indexed page are read to find the ordinal that
    /// follows the last record (`next()`, at least 0). Nothing of the file
    /// is rewritten: the new pages, and then the new pages page, go after
    /// its last byte (`base_offset()` is its length), so the old pages page
    /// stays in place, superseded, and the new index keeps the old entries
    /// first.
    pub fn append(existing: &[u8], config: WriterConfig) -> (r: Result<SlabWriter, SlabError>)
        requires
            existing@.len() <= i64::MAX,
        ensures
            match r {
                Ok(w) => file_opens(existing@) && (forall|i: int|
                    0 <= i < file_entries(existing@).len() ==> #[trigger] entry_scan_ok(
                        existing@,
                        file_entries(existing@)[i],
                    )) && w.wf() && w.config_view() == config && w.index() == file_entries(
                    existing@,
                ) && w.carried() == file_entries(existing@).len() && w.records()
                    == Seq::<Seq<u8>>::empty() && w.written() == Seq::<u8>::empty() && w.pending()
                    == Seq::<u8>::empty() && w.base() == existing@.len() && w.offset() == w.base() && w.next() == end_ordinal_of(
                    existing@,
                    file_entries(existing@),
                ) && w.first() == w.next() && !w.sealed() && w.current_records()
                    == Seq::<Seq<u8>>::empty() && w.flushed_pages() == Seq::<Seq<Seq<u8>>>::empty()
                    && w.appending(),
                Err(e) => (!file_opens(existing@) && open_error(existing@, e)) || (file_opens(
                    existing@,
                ) && exists|k: int|
                    0 <= k < file_entries(existing@).len() && (forall|i: int|
                        0 <= i < k ==> #[trigger] entry_scan_ok(existing@, file_entries(existing@)[i]))
                        && !entry_scan_ok(existing@, file_entries(existing@)[k])
                        && entry_scan_error(existing@, file_entries(existing@)[k], e)),
            },
            file_consistent(existing@) ==> r is Ok,
    {
        let old_pp = match load_index(existing) {
            Ok(p) => p,
            Err(e) => {
                return Err(e);
            },
        };
        let entries = old_pp.entries();
        let ghost data = existing@;
        let ghost es = entries@;
        proof {
            crate::reader::lemma_entries_bound(data);
            if file_consistent(data) {
                assert forall|k: int| 0 <= k < es.len() implies #[trigger] entry_scan_ok(data, es[k]) by {
                    assert(entry_page_ok(data, es[k]));
                    lemma_page_scan(data, es[k]);
                }
            }
        }
        let len = existing.len();
        let n = entries.len();
        let mut max_ordinal: i64 = 0;
        let mut pages_page = PagesPage::new();
        let mut i: usize = 0;
        proof {
            assert(es.take(0) =~= Seq::<PageEntry>::empty());
        }
        while i < n
            invariant
                n == es.len(),
                es == entries@,
                es == file_entries(data),
                file_opens(data),
                data == existing@,
                len == data.len(),
                len <= i64::MAX,
                0 <= i <= n,
                forall|j: int| 0 <= j < i ==> #[trigger] entry_scan_ok(data, es[j]),
                file_consistent(data) ==> forall|k: int| 0 <= k < es.len() ==> #[trigger] entry_scan_ok(data, es[k]),
                max_ordinal == end_ordinal_of(data, es.take(i as int)),
                -0x80_0000_0000 <= max_ordinal <= 0x80_0000_0000 + 0x100_0000,
                pages_page.entry_view() == es.take(i as int),
                pages_page.wf(),
                forall|j: int| 0 <= j < pages_page.page.rec_view().len() ==> (
                #[trigger] pages_page.page.rec_view()[j]) == entry_bytes(es[j]),
                pages_page.page.footer.start_ordinal == 0,
                pages_page.page.footer.page_type == PageType::Pages,
                pages_page.page.footer.version == 1,
                pages_page.page.footer.footer_length == 16,
            decreases n - i,
        {
            let entry = entries[i];
            proof {
                assert(es.take(i + 1).drop_last() =~= es.take(i as int));
                assert(es.take(i + 1).last() == entry);
            }
            if entry.file_offset < 0 || entry.file_offset as u64 > len as u64 || len - (entry.file_offset as usize) < HEADER_SIZE {
                return Err(SlabError::TruncatedPage {
                    expected: HEADER_SIZE,
                    actual: if entry.file_offset < 0 || entry.file_offset as u64 > len as u64 {
                        0
                    } else {
                        len - entry.file_offset as usize
                    },
                });
            }
            let off = entry.file_offset as usize;
            proof {
                crate::encoding::lemma_le_value_bound(data.subrange(off + 4, off + 8));
                crate::encoding::lemma_pow256_values();
            }
            let page_size = crate::encoding::read_le(existing, off + 4, 4);
            // the footer of the page lies at off + page_size - 16
            let end: u64 = off as u64 + page_size;
            if end < 16 || end > len as u64 {
                return Err(SlabError::TruncatedPage {
                    expected: FOOTER_V1_SIZE,
                    actual: if end < 16 || end - 16 > len as u64 {
                        0
                    } else {
                        (len as u64 - (end - 16)) as usize
                    },
                });
            }
            let fp = (end - 16) as usize;
            let fbytes = vstd::slice::slice_subrange(existing, fp, fp + FOOTER_V1_SIZE);
            let data_footer = match Footer::read_from(fbytes) {
                Ok(f) => f,
                Err(e) => {
                    assert(fbytes@ =~= data.subrange(fp as int, fp + 16));
                    assert(file_consistent(data) ==> entry_scan_ok(data, es[i as int]));
                    return Err(e);
                },
            };
            proof {
                crate::footer::lemma_footer_read_write(fbytes@);
                assert(fbytes@ =~= data.subrange(fp as int, fp + 16));
            }
            let page_end_ordinal = data_footer.start_ordinal + data_footer.record_count as i64;
            if page_end_ordinal > max_ordinal {
                max_ordinal = page_end_ordinal;
            }
            let ghost prev_recs = pages_page.page.rec_view();
            pages_page.add_entry(entry.start_ordinal, entry.file_offset);
            i = i + 1;
            proof {
                assert(pages_page.entry_view() =~= es.take(i as int));
                assert forall|j: int| 0 <= j < pages_page.page.rec_view().len() implies (
                #[trigger] pages_page.page.rec_view()[j]) == entry_bytes(es[j]) by {
                    if j < i - 1 {
                        assert(prev_recs[j] == entry_bytes(es[j]));
                    }
                }
            }
        }
        assert(es.take(n as int) =~= es);
        let w = SlabWriter {
            config,
            current_page: Page::new(max_ordinal, PageType::Data),
            current_size: 28,
            pages_page,
            file_offset: len as u64,
            next_ordinal: max_ordinal,
            page_start_ordinal: max_ordinal,
            base_offset: len as u64,
            output: Vec::new(),
            written: Ghost(Seq::empty()),
            flushed: Ghost(Seq::empty()),
            positions: Ghost(Seq::empty()),
            sizes: Ghost(Seq::empty()),
            carried: Ghost(n as int),
            first_ordinal: Ghost(max_ordinal as int),
            sealed: false,
        };
        proof {
            assert(concat(Seq::<Seq<u8>>::empty()) == Seq::<u8>::empty());
            assert(min_page_size(Seq::<Seq<u8>>::empty()) == 28);
            assert(w.written@.subrange(0, 0) =~= w.output@);
            assert(w.records() =~= Seq::<Seq<u8>>::empty());
        }
        Ok(w)
    }
}


/// A page that reads at `off` has its footer where scanning an entry for it
/// looks, and holds as many records as that footer counts.
pub proof fn lemma_page_scan(data: Seq<u8>, e: PageEntry)
    requires
        page_at_ok(data, e.file_offset as int),
    ensures
        entry_scan_ok(data, e),
        entry_footer(data, e) == decode_footer(tail_footer(page_bytes_at(data, e.file_offset as int))),
        page_records_at(data, e.file_offset as int).len() == entry_footer(data, e).record_count,
{
    let off = e.file_offset as int;
    let b = page_bytes_at(data, off);
    let fp = entry_footer_pos(data, e);
    assert(tail_footer(b) =~= data.subrange(fp, fp + 16));
}

/// The ordinal that follows an indexed page's last record is at most
/// `end_ordinal_of`, which is never negative.
pub proof fn lemma_end_ordinal_bound(data: Seq<u8>, es: Seq<PageEntry>, k: int)
    requires
        0 <= k < es.len(),
    ensures
        0 <= end_ordinal_of(data, es),
        entry_footer(data, es[k]).start_ordinal + entry_footer(data, es[k]).record_count
            <= end_ordinal_of(data, es),
    decreases es.len(),
{
    lemma_end_ordinal_nonneg(data, es);
    if k < es.len() - 1 {
        assert(es.drop_last()[k] == es[k]);
        lemma_end_ordinal_bound(data, es.drop_last(), k);
    }
}

/// `end_ordinal_of` is never negative.
pub proof fn lemma_end_ordinal_nonneg(data: Seq<u8>, es: Seq<PageEntry>)
    ensures
        0 <= end_ordinal_of(data, es),
    decreases es.len(),
{
    if es.len() > 0 {
        lemma_end_ordinal_nonneg(data, es.drop_last());
    }
}

/// A page that lies within `pre` reads the same once bytes follow `pre`.
pub proof fn lemma_page_in_prefix(pre: Seq<u8>, post: Seq<u8>, off: int)
    requires
        page_span_ok(pre, off),
    ensures
        stored_size(pre + post, off) == stored_size(pre, off),
        page_bytes_at(pre + post, off) == page_bytes_at(pre, off),
        page_span_ok(pre + post, off),
        page_at_ok(pre + post, off) == page_at_ok(pre, off),
        page_start_at(pre + post, off) == page_start_at(pre, off),
        page_records_at(pre + post, off) == page_records_at(pre, off),
{
    let d = pre + post;
    assert(d.subrange(off + 4, off + 8) =~= pre.subrange(off + 4, off + 8));
    assert(d.subrange(off, off + stored_size(pre, off)) =~= pre.subrange(
        off,
        off + stored_size(pre, off),
    ));
}

/// A well-formed file holds no record at or after `end_ordinal_of` its
/// pages.
pub proof fn lemma_no_record_past_end(data: Seq<u8>, o: int)
    requires
        file_consistent(data),
        o >= end_ordinal_of(data, file_entries(data)),
    ensures
        file_record(data, file_entries(data), o) is None,
{
    let es = file_entries(data);
    assert forall|k: int| !found_in(data, es, o, k) by {
        if found_in(data, es, o, k) {
            lemma_page_scan(data, es[k]);
            lemma_end_ordinal_bound(data, es, k);
        }
    }
}

impl SlabWriter {
    /// In a file written from scratch, the pages before entry `i` end at
    /// the number of records they hold.
    proof fn lemma_fresh_end_take(&self, i: int)
        requires
            written_from_scratch(*self),
            0 <= i <= self.flushed@.len(),
        ensures
            end_ordinal_of(self.written@, self.index().take(i)) == prefix_count(self.flushed@, i),
        decreases i,
    {
        let es = self.index();
        let data = self.written@;
        let chunks = self.flushed@;
        self.lemma_fresh_pages();
        if i == 0 {
            assert(es.take(0) =~= Seq::<PageEntry>::empty());
            assert(chunks.take(0) =~= Seq::<Seq<Seq<u8>>>::empty());
        } else {
            self.lemma_fresh_end_take(i - 1);
            assert(es.take(i).drop_last() =~= es.take(i - 1));
            assert(es.take(i).last() == es[i - 1]);
            let k = i - 1;
            lemma_page_scan(data, es[k]);
            assert(page_at_ok(data, es[k].file_offset as int));
            lemma_concat_step(chunks, k);
            assert(prefix_count(chunks, k) < prefix_count(chunks, k + 1));
        }
    }
}

/// A file written from scratch ends, by its pages' footers, at the number
/// of records written: appending to it numbers new records from there on.
pub proof fn lemma_written_file_end(w: SlabWriter)
    requires
        w.wf(),
        w.sealed(),
        w.base() == 0,
        w.first() == 0,
        w.carried() == 0,
        w.next() <= 0x80_0000_0000,
    ensures
        end_ordinal_of(w.written(), file_entries(w.written())) == w.records().len(),
{
    w.lemma_sealed_index();
    w.lemma_fresh_end_take(w.flushed@.len() as int);
    assert(w.index().take(w.flushed@.len() as int) =~= w.index());
    assert(w.flushed@.take(w.flushed@.len() as int) =~= w.flushed@);
    assert(w.records() =~= concat(w.flushed@));
    w.lemma_fresh_pages();
}

/// The requirements of the appending law: `w` was opened by `append` on the
/// well-formed file `pre` and has been finished.
pub open spec fn appended_to(pre: Seq<u8>, w: SlabWriter) -> bool {
    &&& file_consistent(pre)
    &&& w.wf()
    &&& w.sealed()
    &&& w.base() == pre.len()
    &&& w.carried() == file_entries(pre).len()
    &&& w.index().take(w.carried()) == file_entries(pre)
    &&& w.first() == end_ordinal_of(pre, file_entries(pre))
    &&& w.next() <= 0x80_0000_0000
}

impl SlabWriter {
    /// After appending, the old entries point at the old pages, which read
    /// as before and end before `first()`; the new entries point at the
    /// pages this writer flushed; and the index is sorted.
    #[verifier::spinoff_prover]
    #[verifier::rlimit(80)]
    proof fn lemma_appended_pages(&self, pre: Seq<u8>)
        requires
            appended_to(pre, *self),
        ensures
            self.index().len() == file_entries(pre).len() + self.flushed@.len(),
            entries_sorted(self.index()),
            forall|k: int|
                0 <= k < file_entries(pre).len() ==> {
                    let off = file_entries(pre)[k].file_offset as int;
                    &&& #[trigger] self.index()[k] == file_entries(pre)[k]
                    &&& entry_page_ok(pre + self.written@, self.index()[k])
                    &&& entry_page_ok(pre, file_entries(pre)[k])
                    &&& page_span_ok(pre, off)
                    &&& page_records_at(pre + self.written@, off) == page_records_at(pre, off)
                    &&& page_start_at(pre, off) + page_records_at(pre, off).len() <= self.first_ordinal@
                },
            forall|j: int|
                0 <= j < self.flushed@.len() ==> {
                    let e = #[trigger] self.index()[file_entries(pre).len() + j];
                    &&& e.start_ordinal == self.first_ordinal@ + prefix_count(self.flushed@, j)
                    &&& entry_page_ok(pre + self.written@, e)
                    &&& page_records_at(pre + self.written@, e.file_offset as int) == self.flushed@[j]
                    &&& prefix_count(self.flushed@, j) < prefix_count(self.flushed@, j + 1)
                },
    {
        let es = file_entries(pre);
        let n0 = es.len() as int;
        let all = self.index();
        let written = self.written@;
        let data = pre + written;
        let chunks = self.flushed@;
        let m = chunks.len() as int;
        let first = self.first_ordinal@;
        lemma_end_ordinal_nonneg(pre, es);
        assert forall|k: int| 0 <= k < n0 implies {
            let off = es[k].file_offset as int;
            &&& #[trigger] all[k] == es[k]
            &&& entry_page_ok(data, all[k])
            &&& entry_page_ok(pre, es[k])
            &&& page_span_ok(pre, off)
            &&& page_records_at(data, off) == page_records_at(pre, off)
            &&& page_start_at(pre, off) + page_records_at(pre, off).len() <= first
        } by {
            assert(all.take(n0)[k] == all[k]);
            assert(entry_page_ok(pre, es[k]));
            lemma_page_in_prefix(pre, written, es[k].file_offset as int);
            lemma_page_scan(pre, es[k]);
            lemma_end_ordinal_bound(pre, es, k);
        }
        assert forall|j: int| 0 <= j < m implies {
            let e = #[trigger] all[n0 + j];
            &&& e.start_ordinal == first + prefix_count(chunks, j)
            &&& entry_page_ok(data, e)
            &&& page_records_at(data, e.file_offset as int) == chunks[j]
            &&& prefix_count(chunks, j) < prefix_count(chunks, j + 1)
        } by {
            assert(self.flushed_page_ok(j));
            self.lemma_flushed_page_reads(pre, j);
            lemma_concat_step(chunks, j);
        }
        assert forall|i: int, j: int| 0 <= i < j < all.len() implies all[i].start_ordinal
            <= all[j].start_ordinal by {
            if j < n0 {
                assert(all[i] == es[i] && all[j] == es[j]);
            } else if i < n0 {
                assert(all[i] == es[i]);
                assert(all[n0 + (j - n0)].start_ordinal == first + prefix_count(chunks, j - n0));
                assert(page_start_at(pre, es[i].file_offset as int) == es[i].start_ordinal);
            } else {
                assert(all[n0 + (j - n0)].start_ordinal == first + prefix_count(chunks, j - n0));
                assert(all[n0 + (i - n0)].start_ordinal == first + prefix_count(chunks, i - n0));
                lemma_prefix_count_mono(chunks, i - n0, j - n0);
            }
        }
    }

    /// What one ordinal gives after appending (see
    /// `lemma_appended_file_reads_back`).
    #[verifier::spinoff_prover]
    #[verifier::rlimit(100)]
    proof fn lemma_appended_record(&self, pre: Seq<u8>, o: int)
        requires
            appended_to(pre, *self),
        ensures
            file_record(pre + self.written@, self.index(), o) == if self.first_ordinal@ <= o
                < self.first_ordinal@ + self.records().len() {
                Some(self.records()[o - self.first_ordinal@])
            } else {
                file_record(pre, file_entries(pre), o)
            },
    {
        assert(self.records() =~= concat(self.flushed@));
        if self.first_ordinal@ <= o < self.first_ordinal@ + concat(self.flushed@).len() {
            self.lemma_appended_new_record(pre, o);
        } else if o < self.first_ordinal@ {
            self.lemma_appended_old_record(pre, o);
        } else {
            self.lemma_appended_past_record(pre, o);
        }
    }

    /// An ordinal of a record this writer added reads that record.
    #[verifier::spinoff_prover]
    #[verifier::rlimit(80)]
    proof fn lemma_appended_new_record(&self, pre: Seq<u8>, o: int)
        requires
            appended_to(pre, *self),
            self.first_ordinal@ <= o < self.first_ordinal@ + concat(self.flushed@).len(),
        ensures
            file_record(pre + self.written@, self.index(), o) == Some(concat(self.flushed@)[o - self.first_ordinal@]),
    {
        self.lemma_appended_pages(pre);
        let es = file_entries(pre);
        let n0 = es.len() as int;
        let all = self.index();
        let data = pre + self.written@;
        let chunks = self.flushed@;
        let m = chunks.len() as int;
        let first = self.first_ordinal@;
        assert(self.records() =~= concat(chunks));
        assert(chunks.take(m) =~= chunks);
        let total = concat(chunks).len() as int;
        lemma_locate(chunks, o - first);
        let j = choose|j: int|
            0 <= j < m && #[trigger] prefix_count(chunks, j) <= o - first < prefix_count(
                chunks,
                j + 1,
            );
        assert(all[n0 + j].start_ordinal == first + prefix_count(chunks, j));
        assert(is_slot(all, o, n0 + j)) by {
            if j + 1 < m {
                assert(all[n0 + (j + 1)].start_ordinal == first + prefix_count(chunks, j + 1));
            }
        }
        lemma_concat_step(chunks, j);
        assert(found_in(data, all, o, n0 + j));
        crate::reader::lemma_file_record_at(data, all, o, n0 + j);
        lemma_concat_at(chunks, j, o - first);
    }

    /// An ordinal before the first added one reads as in the existing file.
    #[verifier::spinoff_prover]
    #[verifier::rlimit(80)]
    proof fn lemma_appended_old_record(&self, pre: Seq<u8>, o: int)
        requires
            appended_to(pre, *self),
            o < self.first_ordinal@,
        ensures
            file_record(pre + self.written@, self.index(), o) == file_record(pre, file_entries(pre), o),
    {
        self.lemma_appended_pages(pre);
        let es = file_entries(pre);
        let n0 = es.len() as int;
        let all = self.index();
        let data = pre + self.written@;
        let chunks = self.flushed@;
        let m = chunks.len() as int;
        let first = self.first_ordinal@;
        assert(self.records() =~= concat(chunks));
        assert(chunks.take(m) =~= chunks);
        let total = concat(chunks).len() as int;
        // only the old entries can hold `o`, and they hold it as before
        assert forall|k: int| n0 <= k < all.len() implies !is_slot(all, o, k) by {
            assert(all[n0 + (k - n0)].start_ordinal == first + prefix_count(chunks, k - n0));
        }
        assert forall|k: int| 0 <= k < n0 implies found_in(data, all, o, k) == found_in(
            pre,
            es,
            o,
            k,
        ) && record_in(data, all, o, k) == record_in(pre, es, o, k) by {
            assert(all[k] == es[k]);
            if k + 1 < n0 {
                assert(all[k + 1] == es[k + 1]);
            } else if m > 0 {
                assert(all[n0 + 0].start_ordinal == first + prefix_count(chunks, 0));
            }
            lemma_page_in_prefix(pre, self.written@, es[k].file_offset as int);
        }
        if exists|k: int| found_in(pre, es, o, k) {
            let k = choose|k: int| found_in(pre, es, o, k);
            crate::reader::lemma_file_record_at(pre, es, o, k);
            crate::reader::lemma_file_record_at(data, all, o, k);
        } else {
            assert forall|k: int| !found_in(data, all, o, k) by {
                if 0 <= k < n0 {
                    assert(!found_in(pre, es, o, k));
                }
            }
        }
    }

    /// An ordinal past every record reads as in the existing file: nothing.
    #[verifier::spinoff_prover]
    #[verifier::rlimit(80)]
    proof fn lemma_appended_past_record(&self, pre: Seq<u8>, o: int)
        requires
            appended_to(pre, *self),
            self.first_ordinal@ + concat(self.flushed@).len() <= o,
        ensures
            file_record(pre + self.written@, self.index(), o) == file_record(pre, file_entries(pre), o),
    {
        self.lemma_appended_pages(pre);
        let es = file_entries(pre);
        let n0 = es.len() as int;
        let all = self.index();
        let data = pre + self.written@;
        let chunks = self.flushed@;
        let m = chunks.len() as int;
        let first = self.first_ordinal@;
        assert(self.records() =~= concat(chunks));
        assert(chunks.take(m) =~= chunks);
        let total = concat(chunks).len() as int;
        // past every record, old and new
        assert forall|k: int| !found_in(pre, es, o, k) by {
            if found_in(pre, es, o, k) {
                assert(all[k] == es[k]);
            }
        }
        assert forall|k: int| !found_in(data, all, o, k) by {
            if found_in(data, all, o, k) {
                if k < n0 {
                    assert(all[k] == es[k]);
                } else {
                    let j = k - n0;
                    assert(all[n0 + j] == all[k]);
                    lemma_concat_step(chunks, j);
                    lemma_prefix_count_mono(chunks, j + 1, m);
                }
            }
        }
    }
}

/// The old pages read the same footers once bytes follow the file.
proof fn lemma_end_in_prefix(pre: Seq<u8>, post: Seq<u8>, es: Seq<PageEntry>, i: int)
    requires
        0 <= i <= es.len(),
        forall|k: int| 0 <= k < es.len() ==> page_at_ok(pre, #[trigger] es[k].file_offset as int),
    ensures
        end_ordinal_of(pre + post, es.take(i)) == end_ordinal_of(pre, es.take(i)),
    decreases i,
{
    if i == 0 {
        assert(es.take(0) =~= Seq::<PageEntry>::empty());
    } else {
        lemma_end_in_prefix(pre, post, es, i - 1);
        assert(es.take(i).drop_last() =~= es.take(i - 1));
        let e = es[i - 1];
        assert(es.take(i).last() == e);
        let off = e.file_offset as int;
        assert(page_at_ok(pre, off));
        lemma_page_in_prefix(pre, post, off);
        lemma_page_scan(pre, e);
        let fp = entry_footer_pos(pre, e);
        assert(entry_footer_pos(pre + post, e) == fp);
        assert((pre + post).subrange(fp, fp + 16) =~= pre.subrange(fp, fp + 16));
        assert(entry_footer(pre + post, e) == entry_footer(pre, e));
    }
}

impl SlabWriter {
    /// After appending, the old entries and the first `j` new ones end at
    /// `first()` plus the records of those new pages.
    #[verifier::spinoff_prover]
    #[verifier::rlimit(80)]
    proof fn lemma_appended_end_take(&self, pre: Seq<u8>, j: int)
        requires
            appended_to(pre, *self),
            0 <= j <= self.flushed@.len(),
        ensures
            end_ordinal_of(pre + self.written@, self.index().take(file_entries(pre).len() + j))
                == self.first_ordinal@ + prefix_count(self.flushed@, j),
        decreases j,
    {
        let es = file_entries(pre);
        let n0 = es.len() as int;
        let all = self.index();
        let data = pre + self.written@;
        let chunks = self.flushed@;
        self.lemma_appended_pages(pre);
        if j == 0 {
            assert(all.take(n0) =~= es);
            assert forall|k: int| 0 <= k < es.len() implies page_at_ok(pre, #[trigger] es[k].file_offset as int) by {
                assert(all[k] == es[k]);
            }
            lemma_end_in_prefix(pre, self.written@, es, n0);
            assert(es.take(n0) =~= es);
            assert(chunks.take(0) =~= Seq::<Seq<Seq<u8>>>::empty());
        } else {
            self.lemma_appended_end_take(pre, j - 1);
            let k = n0 + j - 1;
            assert(all.take(k + 1).drop_last() =~= all.take(k));
            assert(all.take(k + 1).last() == all[k]);
            assert(all[n0 + (j - 1)] == all[k]);
            assert(entry_page_ok(data, all[k]));
            lemma_page_scan(data, all[k]);
            lemma_concat_step(chunks, j - 1);
            assert(prefix_count(chunks, j - 1) < prefix_count(chunks, j));
            assert(page_records_at(data, all[k].file_offset as int) == chunks[j - 1]);
            assert(entry_footer(data, all[k]).start_ordinal + entry_footer(data, all[k]).record_count
                == self.first_ordinal@ + prefix_count(chunks, j));
        }
    }
}

/// After appending, the file ends, by its pages' footers, at `first()` plus
/// the number of records appended: a further append numbers its records
/// from there on.
pub proof fn lemma_appended_file_end(pre: Seq<u8>, w: SlabWriter)
    requires
        file_consistent(pre),
        w.wf(),
        w.sealed(),
        w.base() == pre.len(),
        w.carried() == file_entries(pre).len(),
        w.index().take(w.carried()) == file_entries(pre),
        w.first() == end_ordinal_of(pre, file_entries(pre)),
        w.next() <= 0x80_0000_0000,
    ensures
        end_ordinal_of(pre + w.written(), file_entries(pre + w.written())) == w.first()
            + w.records().len(),
{
    lemma_appended_file_reads_back(pre, w);
    w.lemma_appended_pages(pre);
    w.lemma_appended_end_take(pre, w.flushed@.len() as int);
    assert(w.index().take((file_entries(pre).len() + w.flushed@.len()) as int) =~= w.index());
    assert(w.flushed@.take(w.flushed@.len() as int) =~= w.flushed@);
    assert(w.records() =~= concat(w.flushed@));
}

/// Appending keeps what a file held and adds what was written. Once a
/// writer that `append` opened on a well-formed file `pre` is finished, the
/// file made of `pre` and the emitted bytes begins with `pre` unchanged (the
/// old pages page included), is well-formed, its index is the
/// writer's (the old entries first), ordinal `first() + i` gives the `i`-th
/// record added, and every other ordinal gives what it gave in `pre`. It
/// holds while the ordinals fit the 40-bit footer field.
#[verifier::spinoff_prover]
pub proof fn lemma_appended_file_reads_back(pre: Seq<u8>, w: SlabWriter)
    requires
        file_consistent(pre),
        w.wf(),
        w.sealed(),
        w.base() == pre.len(),
        w.carried() == file_entries(pre).len(),
        w.index().take(w.carried()) == file_entries(pre),
        w.first() == end_ordinal_of(pre, file_entries(pre)),
        w.next() <= 0x80_0000_0000,
    ensures
        (pre + w.written()).take(pre.len() as int) == pre,
        file_consistent(pre + w.written()),
        file_entries(pre + w.written()) == w.index(),
        forall|o: int|
            #![trigger file_record(pre, file_entries(pre), o)]
            o >= w.first() ==> file_record(pre, file_entries(pre), o) is None,
        forall|o: int|
            #![trigger file_record(pre + w.written(), w.index(), o)]
            file_record(pre + w.written(), w.index(), o) == if w.first() <= o < w.first()
                + w.records().len() {
                Some(w.records()[o - w.first()])
            } else {
                file_record(pre, file_entries(pre), o)
            },
{
    let all = w.index();
    let written = w.written@;
    let data = pre + written;
    assert(data.take(pre.len() as int) =~= pre);
    w.lemma_appended_pages(pre);
    let img = index_image(all);
    assert(data.subrange(data.len() - img.len(), data.len() as int) =~= written.subrange(
        written.len() - img.len(),
        written.len() as int,
    ));
    lemma_index_image_opens(data, all);
    assert forall|k: int| 0 <= k < all.len() implies entry_page_ok(data, #[trigger] all[k]) by {
        let n0 = file_entries(pre).len() as int;
        if k >= n0 {
            assert(all[n0 + (k - n0)] == all[k]);
        }
    }
    assert forall|o: int| o >= w.first() implies #[trigger] file_record(pre, file_entries(pre), o) is None by {
        lemma_no_record_past_end(pre, o);
    }
    assert forall|o: int| #[trigger] file_record(data, all, o) == if w.first() <= o < w.first()
        + w.records().len() {
        Some(w.records()[o - w.first()])
    } else {
        file_record(pre, file_entries(pre), o)
    } by {
        w.lemma_appended_record(pre, o);
    }
}

/// The page size that a page emitted by this writer announces in its
/// header is the size it was padded to.
impl SlabWriter {
    proof fn lemma_flushed_page_size(&self, pre: Seq<u8>, j: int)
        requires
            self.wf(),
            pre.len() == self.base_offset,
            0 <= j < self.flushed@.len(),
        ensures
            stored_size(pre + self.written@, self.index()[self.carried@ + j].file_offset as int)
                == self.config.aligned(min_page_size(self.flushed@[j])),
    {
        assert(self.flushed_page_ok(j));
        let e = self.index()[self.carried@ + j];
        let rs = self.flushed@[j];
        let pos = self.positions@[j];
        let size = self.sizes@[j];
        let w = self.written@;
        let data = pre + w;
        let off = e.file_offset as int;
        let img = page_image(rs, e.start_ordinal as int, 2, 1, 16, size as nat);
        crate::page::lemma_page_image_len(rs, e.start_ordinal as int, 2, size as nat);
        crate::encoding::lemma_le_bytes_len(size as nat, 4);
        assert(data.subrange(off, off + size) =~= w.subrange(pos, pos + size));
        assert(data.subrange(off + 4, off + 8) =~= img.subrange(4, 8));
        assert(img.subrange(4, 8) =~= crate::encoding::le_bytes(size as nat, 4));
        crate::encoding::lemma_le_value_of_bytes(size as nat, 4);
        crate::encoding::lemma_pow256_values();
        vstd::arithmetic::div_mod::lemma_small_mod(size as nat, 0x1_0000_0000);
    }
}

/// With page alignment on, every data page a writer emits announces a size
/// that is a multiple of the minimum page size and at least that size.
/// `pre` stands for the bytes of the file before `base()`.
#[verifier::spinoff_prover]
pub proof fn lemma_pages_aligned(pre: Seq<u8>, w: SlabWriter)
    requires
        w.wf(),
        pre.len() == w.base(),
        w.config_view().page_alignment,
        w.config_view().min_page_size > 0,
    ensures
        forall|k: int|
            w.carried() <= k < w.index().len() ==> {
                let size = stored_size(pre + w.written(), #[trigger] w.index()[k].file_offset as int);
                &&& size % (w.config_view().min_page_size as nat) == 0
                &&& size >= w.config_view().min_page_size
            },
{
    let m = w.config.min_page_size as nat;
    assert forall|k: int| w.carried() <= k < w.index().len() implies {
        let size = stored_size(pre + w.written(), #[trigger] w.index()[k].file_offset as int);
        &&& size % m == 0
        &&& size >= m
    } by {
        let j = k - w.carried@;
        w.lemma_flushed_page_size(pre, j);
        assert(w.carried@ + j == k);
        let len = min_page_size(w.flushed@[j]);
        crate::config::lemma_round_up(len, m);
        let q = (len + m - 1) as nat / m;
        assert(q >= 1) by (nonlinear_arith)
            requires
                q * m >= len,
                len >= 1,
                m > 0,
        ;
        assert(q * m >= m) by (nonlinear_arith)
            requires
                q >= 1,
        ;
    }
}

/// No data page a writer emits holds more than `max_page_size` bytes
/// before padding; without alignment, or when `max_page_size` is a multiple
/// of the minimum page size, the page size announced in its header is at
/// most `max_page_size` too. `pre` stands for the bytes of the file before
/// `base()`.
pub proof fn lemma_pages_within_max(pre: Seq<u8>, w: SlabWriter)
    requires
        w.wf(),
        pre.len() == w.base(),
    ensures
        forall|j: int|
            0 <= j < w.flushed_pages().len() ==> min_page_size(#[trigger] w.flushed_pages()[j])
                <= w.config_view().max_page_size,
        !w.config_view().page_alignment || (w.config_view().min_page_size > 0
            && w.config_view().max_page_size % w.config_view().min_page_size == 0) ==> forall|k: int|
            w.carried() <= k < w.index().len() ==> stored_size(
                pre + w.written(),
                #[trigger] w.index()[k].file_offset as int,
            ) <= w.config_view().max_page_size,
{
    let c = w.config;
    assert forall|j: int| 0 <= j < w.flushed_pages().len() implies min_page_size(
        #[trigger] w.flushed_pages()[j],
    ) <= c.max_page_size by {
        assert(w.flushed_page_ok(j));
    }
    if !c.page_alignment || (c.min_page_size > 0 && c.max_page_size % c.min_page_size == 0) {
        assert forall|k: int| w.carried() <= k < w.index().len() implies stored_size(
            pre + w.written(),
            #[trigger] w.index()[k].file_offset as int,
        ) <= c.max_page_size by {
            let j = k - w.carried@;
            w.lemma_flushed_page_size(pre, j);
            assert(w.carried@ + j == k);
            assert(w.flushed_page_ok(j));
            let x = min_page_size(w.flushed@[j]);
            if c.page_alignment {
                let m = c.min_page_size as nat;
                let big = c.max_page_size as nat;
                crate::config::lemma_round_up(x, m);
                let r = round_up(x, m);
                if r > big {
                    assert(r >= big + m) by (nonlinear_arith)
                        requires
                            r % m == 0,
                            big % m == 0,
                            r > big,
                            m > 0,
                    {
                        let qa = r / m;
                        let qb = big / m;
                        assert(r == m * qa);
                        assert(big == m * qb);
                        assert(qa > qb);
                    }
                }
            }
        }
    }
}

/// Between calls, the pending page is below the preferred size and within
/// the maximum page size (or empty), and holds fewer records than a footer
/// can count.
pub proof fn lemma_pending_page_bounds(w: SlabWriter)
    requires
        w.wf(),
    ensures
        w.current_records().len() == 0 || min_page_size(w.current_records())
            < w.config_view().preferred_page_size,
        w.current_records().len() == 0 || min_page_size(w.current_records())
            <= w.config_view().max_page_size,
        w.current_records().len() < max_page_records(),
{
}

/// The page that `flush_page` emits reads back: its bytes parse as a data
/// page holding exactly the current records, its header and footer both
/// announce `page_size_now()` (its length, at least the unpadded size), and
/// with alignment on that size is a multiple of the minimum page size.
pub proof fn lemma_page_now_reads_back(w: SlabWriter)
    requires
        w.wf(),
        w.current_records().len() > 0,
        w.page_size_now() <= 0xffff_ffff,
        crate::footer::ordinal_in_range(w.page_start()),
    ensures
        page_parses(w.page_image_now()),
        page_records(w.page_image_now()) == w.current_records(),
        w.page_image_now().len() == w.page_size_now(),
        w.page_size_now() >= min_page_size(w.current_records()),
        decode_footer(tail_footer(w.page_image_now())).page_size == w.page_size_now(),
        decode_footer(tail_footer(w.page_image_now())).record_count == w.current_records().len(),
        decode_footer(tail_footer(w.page_image_now())).start_ordinal == w.page_start(),
        decode_footer(tail_footer(w.page_image_now())).page_type == PageType::Data,
        w.config_view().page_alignment && w.config_view().min_page_size > 0 ==> w.page_size_now()
            % (w.config_view().min_page_size as nat) == 0,
{
    let rs = w.current_records();
    let size = w.page_size_now();
    crate::config::lemma_aligned_within_unit(w.config, min_page_size(rs));
    if w.config.page_alignment && w.config.min_page_size > 0 {
        crate::config::lemma_round_up(min_page_size(rs), w.config.min_page_size as nat);
    }
    crate::page::lemma_page_write_read(rs, w.page_start(), 2, size);
    crate::page::lemma_page_image_len(rs, w.page_start(), 2, size);
    vstd::arithmetic::div_mod::lemma_small_mod(size, 0x1_0000_0000);
    vstd::arithmetic::div_mod::lemma_small_mod(rs.len(), 0x1_0000_0000);
}

/// The records `s` paired with the ordinals `base`, `base + 1`, ...
pub open spec fn numbered_from(s: Seq<Seq<u8>>, base: int) -> Seq<(i64, Seq<u8>)> {
    Seq::new(s.len(), |k: int| ((base + k) as i64, s[k]))
}

/// Numbering each piece from where it begins numbers the concatenation.
pub proof fn lemma_numbered_concat(chunks: Seq<Seq<Seq<u8>>>)
    ensures
        concat(Seq::new(chunks.len(), |i: int| numbered_from(chunks[i], prefix_count(chunks, i) as int)))
            == numbered_from(concat(chunks), 0),
    decreases chunks.len(),
{
    let pieces = Seq::new(chunks.len(), |i: int| numbered_from(chunks[i], prefix_count(chunks, i) as int));
    if chunks.len() > 0 {
        let n = chunks.len() as int;
        let d = chunks.drop_last();
        lemma_numbered_concat(d);
        let dp = Seq::new(d.len(), |i: int| numbered_from(d[i], prefix_count(d, i) as int));
        assert forall|i: int| 0 <= i < d.len() implies #[trigger] prefix_count(d, i) == prefix_count(chunks, i) by {
            assert(d.take(i) =~= chunks.take(i));
        }
        assert(pieces.drop_last() =~= dp);
        assert(d =~= chunks.take(n - 1));
        assert(numbered_from(concat(chunks), 0) =~= numbered_from(concat(d), 0) + numbered_from(
            chunks.last(),
            prefix_count(chunks, n - 1) as int,
        ));
    } else {
        assert(numbered_from(concat(chunks), 0) =~= Seq::<(i64, Seq<u8>)>::empty());
    }
}

/// Numbering each piece from `base` plus where it begins numbers the
/// concatenation from `base`.
pub proof fn lemma_numbered_concat_from(chunks: Seq<Seq<Seq<u8>>>, base: int)
    ensures
        concat(
            Seq::new(
                chunks.len(),
                |i: int| numbered_from(chunks[i], base + prefix_count(chunks, i)),
            ),
        ) == numbered_from(concat(chunks), base),
    decreases chunks.len(),
{
    let pieces = Seq::new(
        chunks.len(),
        |i: int| numbered_from(chunks[i], base + prefix_count(chunks, i)),
    );
    if chunks.len() > 0 {
        let n = chunks.len() as int;
        let d = chunks.drop_last();
        lemma_numbered_concat_from(d, base);
        let dp = Seq::new(d.len(), |i: int| numbered_from(d[i], base + prefix_count(d, i)));
        assert forall|i: int| 0 <= i < d.len() implies #[trigger] prefix_count(d, i) == prefix_count(chunks, i) by {
            assert(d.take(i) =~= chunks.take(i));
        }
        assert(pieces.drop_last() =~= dp);
        assert(d =~= chunks.take(n - 1));
        assert(numbered_from(concat(chunks), base) =~= numbered_from(concat(d), base)
            + numbered_from(chunks.last(), base + prefix_count(chunks, n - 1)));
    } else {
        assert(numbered_from(concat(chunks), base) =~= Seq::<(i64, Seq<u8>)>::empty());
    }
}

/// A file that `append` extended lists, in order, what it listed before and
/// then the appended records numbered from `first()`: every page reads, and
/// `SlabReader::iter`, a batched iteration and `read_all_to_sink` give the
/// old records first, then the new ones. It holds while the ordinals fit
/// the 40-bit footer field.
#[verifier::spinoff_prover]
#[verifier::rlimit(60)]
pub proof fn lemma_appended_file_lists_in_order(pre: Seq<u8>, w: SlabWriter)
    requires
        file_consistent(pre),
        w.wf(),
        w.sealed(),
        w.base() == pre.len(),
        w.carried() == file_entries(pre).len(),
        w.index().take(w.carried()) == file_entries(pre),
        w.first() == end_ordinal_of(pre, file_entries(pre)),
        w.next() <= 0x80_0000_0000,
    ensures
        crate::reader::pages_ok(
            pre + w.written(),
            crate::reader::sort_by_start(file_entries(pre + w.written())),
            file_entries(pre + w.written()).len() as int,
        ),
        crate::reader::first_bad(
            pre + w.written(),
            crate::reader::sort_by_start(file_entries(pre + w.written())),
        ) == file_entries(pre + w.written()).len(),
        crate::reader::listing(
            pre + w.written(),
            crate::reader::sort_by_start(file_entries(pre + w.written())),
        ) == crate::reader::listing(pre, crate::reader::sort_by_start(file_entries(pre)))
            + numbered_from(w.records(), w.first()),
{
    lemma_appended_file_reads_back(pre, w);
    w.lemma_appended_pages(pre);
    let es = file_entries(pre);
    let n0 = es.len() as int;
    let all = w.index();
    let data = pre + w.written@;
    let chunks = w.flushed@;
    let m = chunks.len() as int;
    let first = w.first_ordinal@;
    crate::reader::lemma_sort_sorted(es);
    crate::reader::lemma_sort_sorted(all);
    assert(all.take(n0) =~= es);
    assert forall|k: int| 0 <= k < all.len() implies #[trigger] page_at_ok(data, all[k].file_offset as int) by {
        if k >= n0 {
            assert(all[n0 + (k - n0)] == all[k]);
        }
    }
    crate::reader::lemma_first_bad(data, all);
    let pieces = Seq::new(all.len(), |i: int| crate::reader::page_listing(data, all[i].file_offset as int));
    let old_pieces = Seq::new(es.len(), |i: int| crate::reader::page_listing(pre, es[i].file_offset as int));
    let new_pieces = Seq::new(m as nat, |i: int| numbered_from(chunks[i], first + prefix_count(chunks, i)));
    assert(pieces =~= old_pieces + new_pieces) by {
        assert forall|i: int| 0 <= i < all.len() implies #[trigger] pieces[i] == (old_pieces + new_pieces)[i] by {
            if i < n0 {
                assert(all[i] == es[i]);
                lemma_page_in_prefix(pre, w.written@, es[i].file_offset as int);
            } else {
                let j = i - n0;
                assert(all[n0 + j] == all[i]);
                assert(entry_page_ok(data, all[i]));
                assert(pieces[i] =~= numbered_from(chunks[j], first + prefix_count(chunks, j)));
            }
        }
    }
    crate::page::lemma_concat_append(old_pieces, new_pieces);
    lemma_numbered_concat_from(chunks, first);
    assert(chunks.take(m) =~= chunks);
    assert(w.records() =~= concat(chunks));
}

/// A file written from scratch lists its records in ordinal order: every
/// page reads, `SlabReader::iter` and a batched iteration give record `o`
/// paired with ordinal `o` for each `o` in turn, and `read_all_to_sink`
/// writes the records one after another. It holds while the ordinals fit
/// the 40-bit footer field.
#[verifier::spinoff_prover]
pub proof fn lemma_written_file_lists_in_order(w: SlabWriter)
    requires
        w.wf(),
        w.sealed(),
        w.base() == 0,
        w.first() == 0,
        w.carried() == 0,
        w.next() <= 0x80_0000_0000,
    ensures
        crate::reader::pages_ok(
            w.written(),
            crate::reader::sort_by_start(file_entries(w.written())),
            file_entries(w.written()).len() as int,
        ),
        crate::reader::first_bad(w.written(), crate::reader::sort_by_start(file_entries(w.written())))
            == file_entries(w.written()).len(),
        crate::reader::listing(w.written(), crate::reader::sort_by_start(file_entries(w.written())))
            == numbered_from(w.records(), 0),
        crate::reader::listing_records(
            w.written(),
            crate::reader::sort_by_start(file_entries(w.written())),
        ) == w.records(),
{
    lemma_written_file_reads_back(w);
    let data = w.written@;
    let es = w.index();
    let chunks = w.flushed@;
    let n = chunks.len() as int;
    crate::reader::lemma_sort_sorted(es);
    assert(w.records() =~= concat(chunks));
    assert(chunks.take(n) =~= chunks);
    assert forall|k: int| 0 <= k < n implies page_at_ok(data, #[trigger] es[k].file_offset as int)
        && page_start_at(data, es[k].file_offset as int) == prefix_count(chunks, k)
        && page_records_at(data, es[k].file_offset as int) == chunks[k] by {
        assert(w.flushed_page_ok(k));
        w.lemma_flushed_page_reads(Seq::empty(), k);
        assert(Seq::<u8>::empty() + data =~= data);
    }
    crate::reader::lemma_first_bad(data, es);
    assert(Seq::new(es.len(), |i: int| page_records_at(data, es[i].file_offset as int)) =~= chunks);
    assert(Seq::new(es.len(), |i: int| crate::reader::page_listing(data, es[i].file_offset as int))
        =~= Seq::new(chunks.len(), |i: int| numbered_from(chunks[i], prefix_count(chunks, i) as int)));
    lemma_numbered_concat(chunks);
}

/// A writer made by `append` hands over nothing until it is finished:
/// `append` leaves every emitted byte held, adding and flushing records
/// keep it so (they only add to the held bytes), and `take_output` on such
/// a writer changes nothing. While every emitted byte is held, the
/// existing file has received none, so an append interrupted before
/// `finish` leaves the file as it was, and it opens as before.
pub proof fn lemma_interrupted_append(existing: Seq<u8>, w: SlabWriter)
    requires
        file_opens(existing),
        w.wf(),
        w.pending() == w.written(),
    ensures
        w.taken() == Seq::<u8>::empty(),
        existing + w.taken() == existing,
        file_opens(existing + w.taken()),
{
    assert(w.taken() =~= Seq::<u8>::empty());
    assert(existing + w.taken() =~= existing);
}

} // verus!
