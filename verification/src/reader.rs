//! The slabtastic reader.
//!
//! A reader is opened on the bytes of a slab file. The last 16 bytes are the
//! footer of the pages page; the pages page gives, for each data page, its
//! first ordinal and its file offset. A record is found by binary search over
//! those entries, then by its position within its page.
use vstd::prelude::*;
use vstd::slice::slice_subrange;
use crate::constants::{FOOTER_V1_SIZE, HEADER_SIZE, PageType, page_type_byte};
use crate::encoding::{le_value, lemma_le_value_bound, lemma_pow256_values, read_le};
use crate::error::SlabError;
use crate::footer::{Footer, decode_footer, footer_error, footer_valid};
use crate::page::{Page, page_error, page_parses, page_records, tail_footer};
use crate::pages_page::{PageEntry, PagesPage, entries_of, entries_sorted, entries_wf, is_slot};
use crate::page::concat;

verus! {

/// The pages page size that the last footer of `data` reports.
pub open spec fn index_size(data: Seq<u8>) -> nat {
    decode_footer(tail_footer(data)).page_size as nat
}

/// The bytes of the pages page: the last `index_size` bytes of the file.
pub open spec fn index_bytes(data: Seq<u8>) -> Seq<u8> {
    data.subrange(data.len() - index_size(data), data.len() as int)
}

/// Whether `SlabReader::open` accepts the bytes of a file.
pub open spec fn file_opens(data: Seq<u8>) -> bool {
    &&& data.len() >= 24
    &&& footer_valid(tail_footer(data))
    &&& decode_footer(tail_footer(data)).page_type == PageType::Pages
    &&& index_size(data) <= data.len()
    &&& page_parses(index_bytes(data))
    &&& entries_wf(page_records(index_bytes(data)))
}

/// The index entries of a file that opens.
pub open spec fn file_entries(data: Seq<u8>) -> Seq<PageEntry> {
    entries_of(page_records(index_bytes(data)))
}

/// The error that `SlabReader::open` gives for bytes it rejects.
pub open spec fn open_error(data: Seq<u8>, e: SlabError) -> bool {
    let f = decode_footer(tail_footer(data));
    let rs = page_records(index_bytes(data));
    if data.len() < 24 {
        e == SlabError::TruncatedPage { expected: 24, actual: data.len() as usize }
    } else if !footer_valid(tail_footer(data)) {
        footer_error(tail_footer(data), e)
    } else if f.page_type != PageType::Pages {
        e == SlabError::InvalidPageType(page_type_byte(f.page_type))
    } else if index_size(data) > data.len() {
        e == SlabError::TruncatedPage {
            expected: index_size(data) as usize,
            actual: data.len() as usize,
        }
    } else if !page_parses(index_bytes(data)) {
        page_error(index_bytes(data), e)
    } else {
        exists|i: int|
            0 <= i < rs.len() && rs[i].len() < 16 && (forall|j: int|
                0 <= j < i ==> (#[trigger] rs[j]).len() >= 16) && e == SlabError::TruncatedPage {
                expected: 16,
                actual: rs[i].len() as usize,
            }
    }
}

/// How many bytes of `data` lie at and after `off`.
pub open spec fn available(data: Seq<u8>, off: int) -> nat {
    if 0 <= off <= data.len() {
        (data.len() - off) as nat
    } else {
        0
    }
}

/// The page size that the header at `off` reports.
pub open spec fn stored_size(data: Seq<u8>, off: int) -> nat {
    le_value(data.subrange(off + 4, off + 8))
}

/// The bytes of the page at `off`, as long as its header reports.
pub open spec fn page_bytes_at(data: Seq<u8>, off: int) -> Seq<u8> {
    data.subrange(off, off + stored_size(data, off))
}

/// The header at `off` lies in `data` and so does the page it announces.
pub open spec fn page_span_ok(data: Seq<u8>, off: int) -> bool {
    &&& 0 <= off
    &&& off + 8 <= data.len()
    &&& off + stored_size(data, off) <= data.len()
}

/// A page that `read_page_at_offset` accepts lies at `off`.
pub open spec fn page_at_ok(data: Seq<u8>, off: int) -> bool {
    page_span_ok(data, off) && page_parses(page_bytes_at(data, off))
}

/// The error that reading the page at `off` gives when it fails.
pub open spec fn page_read_error(data: Seq<u8>, off: int, e: SlabError) -> bool {
    if off < 0 || off + 8 > data.len() {
        e == SlabError::TruncatedPage { expected: 8, actual: available(data, off) as usize }
    } else if off + stored_size(data, off) > data.len() {
        e == SlabError::TruncatedPage {
            expected: stored_size(data, off) as usize,
            actual: available(data, off) as usize,
        }
    } else {
        page_error(page_bytes_at(data, off), e)
    }
}

/// The start ordinal of the page at `off`.
pub open spec fn page_start_at(data: Seq<u8>, off: int) -> int {
    decode_footer(tail_footer(page_bytes_at(data, off))).start_ordinal as int
}

/// The records of the page at `off`.
pub open spec fn page_records_at(data: Seq<u8>, off: int) -> Seq<Seq<u8>> {
    page_records(page_bytes_at(data, off))
}

/// Ordinal `o` is record `o - start` of the page that entry `k` indexes.
pub open spec fn found_in(data: Seq<u8>, es: Seq<PageEntry>, o: int, k: int) -> bool {
    let off = es[k].file_offset as int;
    &&& is_slot(es, o, k)
    &&& page_at_ok(data, off)
    &&& page_start_at(data, off) <= o < page_start_at(data, off) + page_records_at(data, off).len()
}

/// The record found for `o` through entry `k`.
pub open spec fn record_in(data: Seq<u8>, es: Seq<PageEntry>, o: int, k: int) -> Seq<u8> {
    let off = es[k].file_offset as int;
    page_records_at(data, off)[o - page_start_at(data, off)]
}

/// The record that ordinal `o` denotes in a file whose entries are sorted,
/// or `None` when the file has none there.
pub open spec fn file_record(data: Seq<u8>, es: Seq<PageEntry>, o: int) -> Option<Seq<u8>> {
    if exists|k: int| found_in(data, es, o, k) {
        Some(record_in(data, es, o, choose|k: int| found_in(data, es, o, k)))
    } else {
        None
    }
}

/// The page that entry `e` points at reads, and begins at the entry's
/// ordinal.
pub open spec fn entry_page_ok(data: Seq<u8>, e: PageEntry) -> bool {
    &&& page_at_ok(data, e.file_offset as int)
    &&& page_start_at(data, e.file_offset as int) == e.start_ordinal
}

/// A well-formed slab file: it opens, its index is sorted by ordinal, and
/// every entry points at a page that reads and begins at the entry's
/// ordinal.
pub open spec fn file_consistent(data: Seq<u8>) -> bool {
    &&& file_opens(data)
    &&& entries_sorted(file_entries(data))
    &&& forall|k: int|
        0 <= k < file_entries(data).len() ==> entry_page_ok(data, #[trigger] file_entries(data)[k])
}

/// The error that `get` gives when entry `k` is where `o` belongs.
pub open spec fn get_error_at(data: Seq<u8>, es: Seq<PageEntry>, o: int, k: int, e: SlabError) -> bool {
    if !page_at_ok(data, es[k].file_offset as int) {
        page_read_error(data, es[k].file_offset as int, e)
    } else {
        e == SlabError::OrdinalNotFound(o as i64)
    }
}

/// Reads slabtastic files held in memory, supporting random access by
/// ordinal, iteration in ordinal order and batched iteration.
pub struct SlabReader {
    data: Vec<u8>,
    pages_page: PagesPage,
}

impl SlabReader {
    /// The reader's bytes open as a file and its index is that file's.
    #[verifier::type_invariant]
    spec fn inv(self) -> bool {
        &&& self.pages_page.wf()
        &&& file_opens(self.data@)
        &&& self.pages_page.entry_view() == file_entries(self.data@)
    }

    /// The bytes of the file.
    pub closed spec fn bytes(&self) -> Seq<u8> {
        self.data@
    }

    /// The index entries, as the pages page lists them.
    pub closed spec fn index_view(&self) -> Seq<PageEntry> {
        self.pages_page.entry_view()
    }

    /// Open a slabtastic file given its bytes.
    ///
    /// Reads the footer in the last 16 bytes, which must be that of a pages
    /// page, then the pages page it announces. A pages page record shorter
    /// than an entry is refused with `TruncatedPage`.
    pub fn open(data: Vec<u8>) -> (r: Result<SlabReader, SlabError>)
        ensures
            match r {
                Ok(reader) => file_opens(data@) && reader.bytes() == data@ && reader.index_view()
                    == file_entries(data@),
                Err(e) => !file_opens(data@) && open_error(data@, e),
            },
    {
        let pages_page = match load_index(data.as_slice()) {
            Ok(p) => p,
            Err(e) => {
                return Err(e);
            },
        };
        Ok(SlabReader { data, pages_page })
    }
}

/// The pages page of a file given its bytes, as `SlabReader::open` reads it.
pub fn load_index(data: &[u8]) -> (r: Result<PagesPage, SlabError>)
    ensures
        match r {
            Ok(p) => file_opens(data@) && p.wf() && p.entry_view() == file_entries(data@)
                && p.page.rec_view() == page_records(index_bytes(data@)),
            Err(e) => !file_opens(data@) && open_error(data@, e),
        },
{
        let len = data.len();
        if len < HEADER_SIZE + FOOTER_V1_SIZE {
            return Err(SlabError::TruncatedPage { expected: HEADER_SIZE + FOOTER_V1_SIZE, actual: len });
        }
        let tail = slice_subrange(data, len - FOOTER_V1_SIZE, len);
        assert(tail@ =~= tail_footer(data@));
        let footer = match Footer::read_from(tail) {
            Ok(f) => f,
            Err(e) => {
                return Err(e);
            },
        };
        if footer.page_type != PageType::Pages {
            return Err(SlabError::InvalidPageType(footer.page_type.to_u8()));
        }
        let ps = footer.page_size as usize;
        if ps > len {
            return Err(SlabError::TruncatedPage { expected: ps, actual: len });
        }
        let bytes = slice_subrange(data, len - ps, len);
        assert(bytes@ =~= index_bytes(data@));
        let pages_page = match PagesPage::deserialize(bytes) {
            Ok(p) => p,
            Err(e) => {
                proof {
                    if page_parses(bytes@) {
                        assert(tail_footer(bytes@) =~= tail_footer(data@));
                    }
                }
                return Err(e);
            },
        };
        let n = pages_page.page.records.len();
        let mut i: usize = 0;
        while i < n
            invariant
                n == pages_page.page.rec_view().len(),
                0 <= i <= n,
                data@.len() >= 24,
                footer_valid(tail_footer(data@)),
                decode_footer(tail_footer(data@)).page_type == PageType::Pages,
                index_size(data@) <= data@.len(),
                page_parses(index_bytes(data@)),
                pages_page.page.rec_view() == page_records(index_bytes(data@)),
                forall|j: int| 0 <= j < i ==> (#[trigger] pages_page.page.rec_view()[j]).len() >= 16,
            decreases n - i,
        {
            let rl = pages_page.page.records[i].len();
            assert(pages_page.page.rec_view()[i as int] == pages_page.page.records@[i as int]@);
            if rl < 16 {
                assert(pages_page.page.rec_view()[i as int].len() < 16);
                return Err(SlabError::TruncatedPage { expected: 16, actual: rl });
            }
            i = i + 1;
        }
        Ok(pages_page)
}

/// In sorted entries an ordinal belongs to at most one entry.
pub proof fn lemma_slot_unique(es: Seq<PageEntry>, o: int, k1: int, k2: int)
    requires
        crate::pages_page::entries_sorted(es),
        is_slot(es, o, k1),
        is_slot(es, o, k2),
    ensures
        k1 == k2,
{
    if k1 < k2 {
        assert(es[k1 + 1].start_ordinal <= es[k2].start_ordinal);
    } else if k2 < k1 {
        assert(es[k2 + 1].start_ordinal <= es[k1].start_ordinal);
    }
}

/// In sorted entries, the record of `o` is the one found through its slot.
pub proof fn lemma_file_record_at(data: Seq<u8>, es: Seq<PageEntry>, o: int, k: int)
    requires
        crate::pages_page::entries_sorted(es),
        is_slot(es, o, k),
    ensures
        file_record(data, es, o) == if found_in(data, es, o, k) {
            Some(record_in(data, es, o, k))
        } else {
            None::<Seq<u8>>
        },
{
    if exists|k2: int| found_in(data, es, o, k2) {
        let k2 = choose|k2: int| found_in(data, es, o, k2);
        lemma_slot_unique(es, o, k, k2);
    }
}

/// Without a slot there is no record.
pub proof fn lemma_file_record_none(data: Seq<u8>, es: Seq<PageEntry>, o: int)
    requires
        forall|k: int| !is_slot(es, o, k),
    ensures
        file_record(data, es, o) is None,
{
}

impl SlabReader {
    /// Read and deserialize the page that starts at byte `offset`, taking
    /// its size from its header.
    pub fn read_page_at_offset(&self, offset: u64) -> (r: Result<Page, SlabError>)
        ensures
            match r {
                Ok(p) => page_at_ok(self.bytes(), offset as int) && p.footer == decode_footer(
                    tail_footer(page_bytes_at(self.bytes(), offset as int)),
                ) && p.rec_view() == page_records_at(self.bytes(), offset as int),
                Err(e) => !page_at_ok(self.bytes(), offset as int) && page_read_error(
                    self.bytes(),
                    offset as int,
                    e,
                ),
            },
    {
        read_page_at(self.data.as_slice(), offset)
    }

    /// Read and deserialize the data page an index entry points at; a
    /// negative offset points at no page.
    pub fn read_data_page(&self, entry: &PageEntry) -> (r: Result<Page, SlabError>)
        ensures
            match r {
                Ok(p) => page_at_ok(self.bytes(), entry.file_offset as int) && p.footer
                    == decode_footer(tail_footer(page_bytes_at(self.bytes(), entry.file_offset as int)))
                    && p.rec_view() == page_records_at(self.bytes(), entry.file_offset as int),
                Err(e) => !page_at_ok(self.bytes(), entry.file_offset as int) && page_read_error(
                    self.bytes(),
                    entry.file_offset as int,
                    e,
                ),
            },
    {
        if entry.file_offset < 0 {
            return Err(SlabError::TruncatedPage { expected: HEADER_SIZE, actual: 0 });
        }
        self.read_page_at_offset(entry.file_offset as u64)
    }

    /// Get a record by its ordinal.
    ///
    /// The entry where the ordinal belongs is found by binary search; the
    /// record is then the ordinal's position within that entry's page. An
    /// ordinal before every entry, or past the end of its page, is refused
    /// with `OrdinalNotFound`. When the entries are sorted (as in every file
    /// the writer produces) the result is exactly `file_record`.
    #[verifier::spinoff_prover]
    #[verifier::rlimit(40)]
    pub fn get(&self, ordinal: i64) -> (r: Result<Vec<u8>, SlabError>)
        ensures
            match r {
                Ok(v) => exists|k: int|
                    found_in(self.bytes(), file_entries(self.bytes()), ordinal as int, k)
                        && v@ == record_in(self.bytes(), file_entries(self.bytes()), ordinal as int, k),
                Err(e) => ((file_entries(self.bytes()).len() == 0
                    || file_entries(self.bytes())[0].start_ordinal > ordinal) && e
                    == SlabError::OrdinalNotFound(ordinal)) || exists|k: int|
                    is_slot(file_entries(self.bytes()), ordinal as int, k) && !found_in(
                        self.bytes(),
                        file_entries(self.bytes()),
                        ordinal as int,
                        k,
                    ) && get_error_at(self.bytes(), file_entries(self.bytes()), ordinal as int, k, e),
            },
            crate::pages_page::entries_sorted(file_entries(self.bytes())) ==> match r {
                Ok(v) => file_record(self.bytes(), file_entries(self.bytes()), ordinal as int)
                    == Some(v@),
                Err(e) => file_record(self.bytes(), file_entries(self.bytes()), ordinal as int)
                    is None && ((forall|k: int|
                    !is_slot(file_entries(self.bytes()), ordinal as int, k)) ==> e
                    == SlabError::OrdinalNotFound(ordinal)) && (forall|k: int|
                    is_slot(file_entries(self.bytes()), ordinal as int, k) ==> get_error_at(
                        self.bytes(),
                        file_entries(self.bytes()),
                        ordinal as int,
                        k,
                        e,
                    )),
            },
    {
        proof {
            use_type_invariant(self);
        }
        let ghost data = self.data@;
        let ghost es = file_entries(data);
        let ghost o = ordinal as int;
        let entry = match self.pages_page.find_page_for_ordinal(ordinal) {
            Some(e) => e,
            None => {
                proof {
                    if crate::pages_page::entries_sorted(es) {
                        assert forall|k: int| !is_slot(es, o, k) by {
                            if is_slot(es, o, k) {
                                if k > 0 {
                                    assert(es[0].start_ordinal <= es[k].start_ordinal);
                                }
                            }
                        }
                        lemma_file_record_none(data, es, o);
                    }
                }
                return Err(SlabError::OrdinalNotFound(ordinal));
            },
        };
        let ghost k = choose|k: int| is_slot(es, o, k) && es[k] == entry;
        proof {
            if crate::pages_page::entries_sorted(es) {
                assert forall|k2: int| is_slot(es, o, k2) implies k2 == k by {
                    lemma_slot_unique(es, o, k, k2);
                }
                lemma_file_record_at(data, es, o, k);
            }
        }
        let page = match self.read_data_page(&entry) {
            Ok(p) => p,
            Err(e) => {
                proof {
                    assert(!found_in(data, es, o, k));
                }
                return Err(e);
            },
        };
        proof {
            lemma_page_start_in_range(page_bytes_at(data, entry.file_offset as int));
        }
        let start = page.start_ordinal();
        let local: i128 = ordinal as i128 - start as i128;
        if local < 0 || local >= page.record_count() as i128 {
            return Err(SlabError::OrdinalNotFound(ordinal));
        }
        let rec = page.get_record(local as usize);
        match rec {
            Some(bytes) => {
                let v = vstd::slice::slice_to_vec(bytes);
                assert(found_in(data, es, o, k));
                Ok(v)
            },
            None => {
                proof {
                    assert(false);
                }
                Err(SlabError::OrdinalNotFound(ordinal))
            },
        }
    }

    /// Whether the file holds a record for `ordinal` (`get` succeeds).
    pub fn contains(&self, ordinal: i64) -> (r: bool)
        ensures
            r ==> exists|k: int| found_in(self.bytes(), file_entries(self.bytes()), ordinal as int, k),
            crate::pages_page::entries_sorted(file_entries(self.bytes())) ==> (r <==> file_record(
                self.bytes(),
                file_entries(self.bytes()),
                ordinal as int,
            ) is Some),
    {
        self.get(ordinal).is_ok()
    }

    /// The number of data pages the index lists.
    pub fn page_count(&self) -> (r: usize)
        ensures
            r == file_entries(self.bytes()).len(),
    {
        proof {
            use_type_invariant(self);
        }
        self.pages_page.entry_count()
    }

    /// The index entries, in the order the pages page lists them.
    pub fn page_entries(&self) -> (r: Vec<PageEntry>)
        ensures
            r@ == file_entries(self.bytes()),
    {
        proof {
            use_type_invariant(self);
        }
        self.pages_page.entries()
    }

    /// The total file length in bytes.
    pub fn file_len(&self) -> (r: u64)
        ensures
            r == self.bytes().len(),
    {
        self.data.len() as u64
    }
}

/// A page that parses starts at an ordinal the 5-byte field can hold and has
/// fewer than 2^24 records.
pub proof fn lemma_page_start_in_range(b: Seq<u8>)
    requires
        page_parses(b),
    ensures
        crate::footer::ordinal_in_range(decode_footer(tail_footer(b)).start_ordinal as int),
        decode_footer(tail_footer(b)).record_count < 0x100_0000,
        page_records(b).len() == decode_footer(tail_footer(b)).record_count,
{
    crate::footer::lemma_footer_read_write(tail_footer(b));
}


/// `s` with `e` inserted after the last entry that starts no later than it.
pub open spec fn insert_by_start(s: Seq<PageEntry>, e: PageEntry) -> Seq<PageEntry>
    decreases s.len(),
{
    if s.len() == 0 {
        seq![e]
    } else if s.last().start_ordinal <= e.start_ordinal {
        s.push(e)
    } else {
        insert_by_start(s.drop_last(), e).push(s.last())
    }
}

/// Entries in stable order of start ordinal (entries that start together
/// keep their order).
pub open spec fn sort_by_start(s: Seq<PageEntry>) -> Seq<PageEntry>
    decreases s.len(),
{
    if s.len() == 0 {
        s
    } else {
        insert_by_start(sort_by_start(s.drop_last()), s.last())
    }
}

/// Sorting entries that are already sorted changes nothing.
pub proof fn lemma_sort_sorted(s: Seq<PageEntry>)
    requires
        entries_sorted(s),
    ensures
        sort_by_start(s) == s,
    decreases s.len(),
{
    if s.len() > 0 {
        let d = s.drop_last();
        assert(entries_sorted(d));
        lemma_sort_sorted(d);
        if d.len() > 0 {
            assert(d.last().start_ordinal <= s.last().start_ordinal);
        }
        assert(d.push(s.last()) =~= s);
    }
}

proof fn lemma_insert_sorted(s: Seq<PageEntry>, e: PageEntry)
    requires
        entries_sorted(s),
    ensures
        entries_sorted(insert_by_start(s, e)),
        insert_by_start(s, e).len() == s.len() + 1,
        forall|x: PageEntry| #[trigger] insert_by_start(s, e).contains(x) <==> (s.contains(x) || x == e),
    decreases s.len(),
{
    if s.len() > 0 && s.last().start_ordinal > e.start_ordinal {
        let d = s.drop_last();
        assert(entries_sorted(d));
        lemma_insert_sorted(d, e);
        let r = insert_by_start(d, e);
        assert forall|x: PageEntry| #[trigger] insert_by_start(s, e).contains(x) <==> (s.contains(x) || x == e) by {
            if s.contains(x) && x != s.last() {
                let i = choose|i: int| 0 <= i < s.len() && s[i] == x;
                assert(d[i] == x);
            }
            if r.contains(x) {
                let i = choose|i: int| 0 <= i < r.len() && r[i] == x;
                assert(insert_by_start(s, e)[i] == x);
            }
            if x == s.last() {
                assert(insert_by_start(s, e)[r.len() as int] == x);
            }
        }
        assert forall|i: int, j: int| 0 <= i < j < insert_by_start(s, e).len() implies
            insert_by_start(s, e)[i].start_ordinal <= insert_by_start(s, e)[j].start_ordinal by {
            if j == r.len() {
                assert(r.contains(r[i]));
                if r[i] != e {
                    let k = choose|k: int| 0 <= k < d.len() && d[k] == r[i];
                    assert(s[k] == d[k]);
                }
            }
        }
    } else if s.len() > 0 {
        assert forall|x: PageEntry| #[trigger] insert_by_start(s, e).contains(x) <==> (s.contains(x) || x == e) by {
            if s.contains(x) {
                let i = choose|i: int| 0 <= i < s.len() && s[i] == x;
                assert(s.push(e)[i] == x);
            }
            assert(s.push(e)[s.len() as int] == e);
        }
    } else {
        assert(seq![e][0] == e);
    }
}

/// Sorting gives entries in order of start ordinal, the same ones.
pub proof fn lemma_sort_by_start(s: Seq<PageEntry>)
    ensures
        entries_sorted(sort_by_start(s)),
        sort_by_start(s).len() == s.len(),
        forall|x: PageEntry| #[trigger] sort_by_start(s).contains(x) <==> s.contains(x),
    decreases s.len(),
{
    if s.len() > 0 {
        let d = s.drop_last();
        lemma_sort_by_start(d);
        lemma_insert_sorted(sort_by_start(d), s.last());
        assert forall|x: PageEntry| #[trigger] sort_by_start(s).contains(x) <==> s.contains(x) by {
            if s.contains(x) && x != s.last() {
                let i = choose|i: int| 0 <= i < s.len() && s[i] == x;
                assert(d[i] == x);
            }
            if d.contains(x) {
                let i = choose|i: int| 0 <= i < d.len() && d[i] == x;
                assert(s[i] == x);
            }
            assert(s[s.len() - 1] == s.last());
        }
    }
}

/// Insert `e` into `s` after the last entry that starts no later than it.
fn insert_entry(s: &mut Vec<PageEntry>, e: PageEntry)
    ensures
        final(s)@ == insert_by_start(old(s)@, e),
{
    let ghost target = insert_by_start(old(s)@, e);
    let mut tmp: Vec<PageEntry> = Vec::new();
    while s.len() > 0 && s[s.len() - 1].start_ordinal > e.start_ordinal
        invariant
            target == insert_by_start(s@, e) + tmp@.reverse(),
        decreases s@.len(),
    {
        let ghost before = s@;
        let x = s.pop().unwrap();
        proof {
            assert(before.drop_last() =~= s@);
            assert(tmp@.push(x).reverse() =~= seq![x] + tmp@.reverse());
        }
        tmp.push(x);
        assert(target =~= insert_by_start(s@, e) + tmp@.reverse());
    }
    assert(insert_by_start(s@, e) =~= s@.push(e));
    s.push(e);
    while tmp.len() > 0
        invariant
            target == s@ + tmp@.reverse(),
        decreases tmp@.len(),
    {
        let ghost before = tmp@;
        let x = tmp.pop().unwrap();
        proof {
            assert(before =~= tmp@.push(x));
            assert(before.reverse() =~= seq![x] + tmp@.reverse());
        }
        s.push(x);
        assert(target =~= s@ + tmp@.reverse());
    }
    assert(tmp@.reverse() =~= Seq::<PageEntry>::empty());
    assert(s@ =~= target);
}

/// Entries sorted (stably) by start ordinal.
pub fn sort_entries(v: &Vec<PageEntry>) -> (r: Vec<PageEntry>)
    ensures
        r@ == sort_by_start(v@),
{
    let mut out: Vec<PageEntry> = Vec::new();
    let mut i: usize = 0;
    while i < v.len()
        invariant
            0 <= i <= v@.len(),
            out@ == sort_by_start(v@.take(i as int)),
        decreases v@.len() - i,
    {
        proof {
            assert(v@.take(i + 1).drop_last() =~= v@.take(i as int));
            assert(v@.take(0) =~= Seq::<PageEntry>::empty());
        }
        insert_entry(&mut out, v[i]);
        i = i + 1;
    }
    assert(v@.take(v@.len() as int) =~= v@);
    out
}

/// The `(ordinal, record)` pairs of the page at `off`.
pub open spec fn page_listing(data: Seq<u8>, off: int) -> Seq<(i64, Seq<u8>)> {
    Seq::new(
        page_records_at(data, off).len(),
        |i: int| ((page_start_at(data, off) + i) as i64, page_records_at(data, off)[i]),
    )
}

/// The pairs of the pages `es` indexes, page after page.
pub open spec fn listing(data: Seq<u8>, es: Seq<PageEntry>) -> Seq<(i64, Seq<u8>)> {
    concat(Seq::new(es.len(), |i: int| page_listing(data, es[i].file_offset as int)))
}

/// The pages of the first `k` entries all read.
pub open spec fn pages_ok(data: Seq<u8>, es: Seq<PageEntry>, k: int) -> bool {
    forall|i: int| 0 <= i < k ==> #[trigger] page_at_ok(data, es[i].file_offset as int)
}

/// The contents of `(ordinal, record)` pairs.
pub open spec fn pairs_view(v: Seq<(i64, Vec<u8>)>) -> Seq<(i64, Seq<u8>)> {
    Seq::new(v.len(), |i: int| (v[i].0, v[i].1@))
}

/// Appends the pairs of a page to `out`.
fn push_page_pairs(out: &mut Vec<(i64, Vec<u8>)>, page: &Page, Ghost(b): Ghost<Seq<u8>>)
    requires
        page_parses(b),
        page.footer == decode_footer(tail_footer(b)),
        page.rec_view() == page_records(b),
    ensures
        pairs_view(final(out)@) == pairs_view(old(out)@) + Seq::new(
            page_records(b).len(),
            |i: int| ((decode_footer(tail_footer(b)).start_ordinal + i) as i64, page_records(b)[i]),
        ),
{
    proof {
        lemma_page_start_in_range(b);
    }
    let ghost add = Seq::new(
        page_records(b).len(),
        |i: int| ((decode_footer(tail_footer(b)).start_ordinal + i) as i64, page_records(b)[i]),
    );
    let n = page.record_count();
    let start = page.start_ordinal();
    let mut i: usize = 0;
    while i < n
        invariant
            n == page.rec_view().len(),
            n < 0x100_0000,
            start == page.footer.start_ordinal,
            crate::footer::ordinal_in_range(start as int),
            page.rec_view() == page_records(b),
            page.footer == decode_footer(tail_footer(b)),
            add == Seq::new(
                page_records(b).len(),
                |i: int| ((decode_footer(tail_footer(b)).start_ordinal + i) as i64, page_records(b)[i]),
            ),
            0 <= i <= n,
            pairs_view(out@) == pairs_view(old(out)@) + add.take(i as int),
        decreases n - i,
    {
        let rec = vstd::slice::slice_to_vec(page.records[i].as_slice());
        assert(rec@ == page.rec_view()[i as int]);
        let ord = start + i as i64;
        let ghost before = out@;
        out.push((ord, rec));
        proof {
            assert(out@ == before.push((ord, rec)));
            assert(pairs_view(out@)[before.len() as int] == add[i as int]);
            assert(pairs_view(out@) =~= pairs_view(before).push(add[i as int]));
            assert(add.take(i + 1) =~= add.take(i as int).push(add[i as int]));
        }
        i = i + 1;
        assert(pairs_view(out@) =~= pairs_view(old(out)@) + add.take(i as int));
    }
    assert(add.take(n as int) =~= add);
}

impl SlabReader {
    /// All records in ordinal order as `(ordinal, record)` pairs: the pages
    /// are taken in stable order of their start ordinals, and each page's
    /// records in turn. A page that cannot be read stops the listing with
    /// its error.
    pub fn iter(&self) -> (r: Result<Vec<(i64, Vec<u8>)>, SlabError>)
        ensures
            match r {
                Ok(v) => pages_ok(
                    self.bytes(),
                    sort_by_start(file_entries(self.bytes())),
                    file_entries(self.bytes()).len() as int,
                ) && pairs_view(v@) == listing(self.bytes(), sort_by_start(file_entries(self.bytes()))),
                Err(e) => exists|k: int|
                    0 <= k < file_entries(self.bytes()).len() && pages_ok(
                        self.bytes(),
                        sort_by_start(file_entries(self.bytes())),
                        k,
                    ) && !page_at_ok(
                        self.bytes(),
                        sort_by_start(file_entries(self.bytes()))[k].file_offset as int,
                    ) && page_read_error(
                        self.bytes(),
                        sort_by_start(file_entries(self.bytes()))[k].file_offset as int,
                        e,
                    ),
            },
    {
        proof {
            use_type_invariant(self);
        }
        let unsorted = self.pages_page.entries();
        let entries = sort_entries(&unsorted);
        proof {
            lemma_sort_by_start(unsorted@);
        }
        let ghost data = self.data@;
        let ghost es = entries@;
        let ghost pieces = Seq::new(es.len(), |i: int| page_listing(data, es[i].file_offset as int));
        let mut result: Vec<(i64, Vec<u8>)> = Vec::new();
        let n = entries.len();
        let mut i: usize = 0;
        proof {
            assert(pieces.take(0) =~= Seq::<Seq<(i64, Seq<u8>)>>::empty());
            assert(pairs_view(result@) =~= concat(pieces.take(0)));
        }
        while i < n
            invariant
                n == es.len(),
                es == entries@,
                es == sort_by_start(file_entries(self.bytes())),
                es.len() == file_entries(self.bytes()).len(),
                data == self.data@,
                pieces == Seq::new(es.len(), |i: int| page_listing(data, es[i].file_offset as int)),
                0 <= i <= n,
                pages_ok(data, es, i as int),
                pairs_view(result@) == concat(pieces.take(i as int)),
            decreases n - i,
        {
            let page = match self.read_data_page(&entries[i]) {
                Ok(p) => p,
                Err(e) => {
                    return Err(e);
                },
            };
            let ghost before = result@;
            push_page_pairs(&mut result, &page, Ghost(page_bytes_at(data, entries@[i as int].file_offset as int)));
            proof {
                crate::page::lemma_concat_step(pieces, i as int);
                assert(pieces[i as int] =~= Seq::new(
                    page_records(page_bytes_at(data, es[i as int].file_offset as int)).len(),
                    |j: int| ((decode_footer(tail_footer(page_bytes_at(data, es[i as int].file_offset as int))).start_ordinal + j) as i64,
                        page_records(page_bytes_at(data, es[i as int].file_offset as int))[j]),
                ));
            }
            i = i + 1;
        }
        assert(pieces.take(n as int) =~= pieces);
        Ok(result)
    }
}


/// The pairs of each page `es` indexes.
pub open spec fn listing_pieces(data: Seq<u8>, es: Seq<PageEntry>) -> Seq<Seq<(i64, Seq<u8>)>> {
    Seq::new(es.len(), |i: int| page_listing(data, es[i].file_offset as int))
}

/// The index of the first entry at or after `i` whose page cannot be read,
/// or `es.len()` when there is none.
pub open spec fn first_bad_from(data: Seq<u8>, es: Seq<PageEntry>, i: int) -> int
    decreases es.len() - i,
{
    if i >= es.len() {
        es.len() as int
    } else if page_at_ok(data, es[i].file_offset as int) {
        first_bad_from(data, es, i + 1)
    } else {
        i
    }
}

/// The first unreadable page, or `es.len()`.
pub open spec fn first_bad(data: Seq<u8>, es: Seq<PageEntry>) -> int {
    first_bad_from(data, es, 0)
}

proof fn lemma_first_bad_from(data: Seq<u8>, es: Seq<PageEntry>, i: int)
    requires
        0 <= i <= es.len(),
    ensures
        i <= first_bad_from(data, es, i) <= es.len(),
        forall|j: int| i <= j < first_bad_from(data, es, i) ==> #[trigger] page_at_ok(
            data,
            es[j].file_offset as int,
        ),
        first_bad_from(data, es, i) < es.len() ==> !page_at_ok(
            data,
            es[first_bad_from(data, es, i)].file_offset as int,
        ),
    decreases es.len() - i,
{
    if i < es.len() && page_at_ok(data, es[i].file_offset as int) {
        lemma_first_bad_from(data, es, i + 1);
    }
}

/// The first unreadable page bounds the readable prefix.
pub proof fn lemma_first_bad(data: Seq<u8>, es: Seq<PageEntry>)
    ensures
        0 <= first_bad(data, es) <= es.len(),
        pages_ok(data, es, first_bad(data, es)),
        first_bad(data, es) < es.len() ==> !page_at_ok(data, es[first_bad(data, es)].file_offset as int),
{
    lemma_first_bad_from(data, es, 0);
}

/// Batched iterator over all records in a slabtastic file, in the order of
/// `SlabReader::iter`.
pub struct SlabBatchIter {
    data: Vec<u8>,
    entries: Vec<PageEntry>,
    batch_size: usize,
    page_idx: usize,
    record_idx: usize,
    current_page: Option<Page>,
}

impl SlabBatchIter {
    /// The pairs of the readable pages before the first unreadable one.
    pub closed spec fn stream(&self) -> Seq<(i64, Seq<u8>)> {
        concat(listing_pieces(self.data@, self.entries@).take(first_bad(self.data@, self.entries@)))
    }

    /// How many pairs of the stream have been handed out.
    pub closed spec fn position(&self) -> int {
        crate::writer::prefix_count(listing_pieces(self.data@, self.entries@), self.page_idx as int)
            + if self.current_page is Some {
            self.record_idx as int
        } else {
            0
        }
    }

    /// The requested batch size.
    pub closed spec fn batch_size_view(&self) -> nat {
        self.batch_size as nat
    }

    /// Some page cannot be read; the stream stops before it.
    pub closed spec fn broken(&self) -> bool {
        first_bad(self.data@, self.entries@) < self.entries@.len()
    }

    /// The error that reading the first unreadable page gives.
    pub closed spec fn break_error(&self, e: SlabError) -> bool {
        page_read_error(
            self.data@,
            self.entries@[first_bad(self.data@, self.entries@)].file_offset as int,
            e,
        )
    }

    /// The iterator's invariant.
    pub closed spec fn wf(&self) -> bool {
        let data = self.data@;
        let es = self.entries@;
        let fb = first_bad(data, es);
        &&& self.page_idx <= fb
        &&& (self.current_page matches Some(p) ==> {
            &&& self.page_idx < fb
            &&& p.footer == decode_footer(
                tail_footer(page_bytes_at(data, es[self.page_idx as int].file_offset as int)),
            )
            &&& p.rec_view() == page_records_at(data, es[self.page_idx as int].file_offset as int)
            &&& self.record_idx <= p.rec_view().len()
        })
    }

    /// The next batch: the next `batch_size` pairs of the stream, or all
    /// that are left when fewer remain. A batch that needs the page that
    /// cannot be read fails with that page's error instead; the pairs
    /// before that page then count as handed out. An empty batch means
    /// the stream is exhausted.
    #[verifier::spinoff_prover]
    #[verifier::rlimit(80)]
    pub fn next_batch(&mut self) -> (r: Result<Vec<(i64, Vec<u8>)>, SlabError>)
        requires
            old(self).wf(),
        ensures
            final(self).wf(),
            final(self).stream() == old(self).stream(),
            final(self).batch_size_view() == old(self).batch_size_view(),
            final(self).broken() == old(self).broken(),
            forall|e: SlabError| final(self).break_error(e) == old(self).break_error(e),
            0 <= old(self).position() <= old(self).stream().len(),
            match r {
                Ok(b) => if old(self).position() + old(self).batch_size_view() <= old(
                    self,
                ).stream().len() {
                    pairs_view(b@) == old(self).stream().subrange(
                        old(self).position(),
                        old(self).position() + old(self).batch_size_view(),
                    ) && final(self).position() == old(self).position() + old(
                        self,
                    ).batch_size_view()
                } else {
                    !old(self).broken() && pairs_view(b@) == old(self).stream().subrange(
                        old(self).position(),
                        old(self).stream().len() as int,
                    ) && final(self).position() == old(self).stream().len()
                },
                Err(e) => old(self).position() + old(self).batch_size_view() > old(
                    self,
                ).stream().len() && old(self).broken() && old(self).break_error(e)
                    && final(self).position() == old(self).stream().len(),
            },
    {
        let ghost data = self.data@;
        let ghost es = self.entries@;
        let ghost fb = first_bad(data, es);
        let ghost pieces = listing_pieces(data, es);
        let ghost stream = concat(pieces.take(fb));
        let ghost c0 = self.position();
        proof {
            lemma_first_bad(data, es);
            self.lemma_position_bounds();
        }
        let bs = self.batch_size;
        let mut batch: Vec<(i64, Vec<u8>)> = Vec::new();
        while batch.len() < bs
            invariant
                self.wf(),
                data == self.data@,
                es == self.entries@,
                data == old(self).data@,
                es == old(self).entries@,
                self.batch_size == old(self).batch_size,
                fb == first_bad(data, es),
                pieces == listing_pieces(data, es),
                stream == concat(pieces.take(fb)),
                bs == self.batch_size,
                c0 <= self.position() <= stream.len(),
                pairs_view(batch@) == stream.subrange(c0, self.position()),
                batch@.len() == self.position() - c0,
                batch@.len() <= bs,
                c0 == old(self).position(),
                stream == old(self).stream(),
                0 <= c0,
                self.stream() == stream,
            ensures
                self.wf(),
                data == self.data@,
                es == self.entries@,
                c0 <= self.position() <= stream.len(),
                pairs_view(batch@) == stream.subrange(c0, self.position()),
                batch@.len() == self.position() - c0,
                batch@.len() < bs ==> self.page_idx >= es.len() && self.current_page is None,
                batch@.len() >= bs ==> batch@.len() == bs,
            decreases bs - batch@.len(), es.len() - self.page_idx, if self.current_page is None {
                1int
            } else {
                0int
            },
        {
            if self.current_page.is_none() {
                if self.page_idx >= self.entries.len() {
                    break;
                }
                match self.load_current() {
                    Ok(()) => {},
                    Err(e) => {
                        return Err(e);
                    },
                }
            }
            if self.current_exhausted() {
                self.step_page();
                continue;
            }
            let ghost before = batch@;
            let ghost p0 = self.position();
            let pair = self.take_pair();
            assert(p0 < stream.len());
            assert(stream[p0] == (pair.0, pair.1@));
            batch.push(pair);
            proof {
                assert(pairs_view(batch@) =~= pairs_view(before).push((pair.0, pair.1@)));
                assert(stream.subrange(c0, p0 + 1) =~= stream.subrange(c0, p0).push(stream[p0]));
            }
        }
        proof {
            self.lemma_position_bounds();
            if batch@.len() < bs {
                // the loop stopped at the end of the entries
                assert(pieces.take(fb) =~= pieces.take(self.page_idx as int));
            }
        }
        Ok(batch)
    }

    /// Load the page the iterator stands at.
    fn load_current(&mut self) -> (r: Result<(), SlabError>)
        requires
            old(self).wf(),
            old(self).current_page is None,
            old(self).page_idx < old(self).entries@.len(),
        ensures
            final(self).data@ == old(self).data@,
            final(self).entries@ == old(self).entries@,
            final(self).batch_size == old(self).batch_size,
            final(self).page_idx == old(self).page_idx,
            match r {
                Ok(()) => final(self).wf() && final(self).current_page is Some
                    && final(self).position() == old(self).position(),
                Err(e) => *final(self) == *old(self) && old(self).page_idx == first_bad(
                    old(self).data@,
                    old(self).entries@,
                ) && old(self).break_error(e) && old(self).position() == old(self).stream().len(),
            },
    {
        let entry = self.entries[self.page_idx];
        proof {
            lemma_first_bad(self.data@, self.entries@);
        }
        match read_page_of(self.data.as_slice(), &entry) {
            Ok(p) => {
                self.current_page = Some(p);
                self.record_idx = 0;
                Ok(())
            },
            Err(e) => {
                proof {
                    self.lemma_position_bounds();
                }
                Err(e)
            },
        }
    }

    /// Whether every record of the loaded page has been handed out.
    fn current_exhausted(&self) -> (r: bool)
        requires
            self.wf(),
            self.current_page is Some,
        ensures
            r == (self.record_idx >= self.current_page->0.rec_view().len()),
    {
        match &self.current_page {
            Some(p) => self.record_idx >= p.record_count(),
            None => false,
        }
    }

    /// Move past the loaded, exhausted page.
    fn step_page(&mut self)
        requires
            old(self).wf(),
            old(self).current_page matches Some(p) && old(self).record_idx >= p.rec_view().len(),
        ensures
            final(self).wf(),
            final(self).data@ == old(self).data@,
            final(self).entries@ == old(self).entries@,
            final(self).batch_size == old(self).batch_size,
            final(self).position() == old(self).position(),
            final(self).current_page is None,
            final(self).page_idx == old(self).page_idx + 1,
            final(self).page_idx <= final(self).entries@.len(),
    {
        proof {
            self.lemma_step_page();
            lemma_first_bad(self.data@, self.entries@);
        }
        let el = self.entries.len();
        assert(self.page_idx < el);
        self.current_page = None;
        self.page_idx = self.page_idx + 1;
    }

    /// Hand out the next record of the loaded page.
    fn take_pair(&mut self) -> (r: (i64, Vec<u8>))
        requires
            old(self).wf(),
            old(self).current_page matches Some(p) && old(self).record_idx < p.rec_view().len(),
        ensures
            final(self).wf(),
            final(self).data@ == old(self).data@,
            final(self).entries@ == old(self).entries@,
            final(self).batch_size == old(self).batch_size,
            final(self).page_idx == old(self).page_idx,
            final(self).current_page is Some,
            final(self).position() == old(self).position() + 1,
            old(self).position() < old(self).stream().len(),
            old(self).stream()[old(self).position()] == (r.0, r.1@),
    {
        proof {
            lemma_first_bad(self.data@, self.entries@);
            assert(page_at_ok(self.data@, self.entries@[self.page_idx as int].file_offset as int));
            lemma_page_start_in_range(
                page_bytes_at(self.data@, self.entries@[self.page_idx as int].file_offset as int),
            );
        }
        let pair = match &self.current_page {
            Some(p) => {
                let rec = vstd::slice::slice_to_vec(p.records[self.record_idx].as_slice());
                assert(rec@ == p.rec_view()[self.record_idx as int]);
                (p.start_ordinal() + self.record_idx as i64, rec)
            },
            None => (0, Vec::new()),
        };
        proof {
            self.lemma_next_pair(pair.0, pair.1@);
        }
        self.record_idx = self.record_idx + 1;
        pair
    }

    proof fn lemma_position_bounds(&self)
        requires
            self.wf(),
        ensures
            0 <= self.position() <= self.stream().len(),
            self.current_page is None && self.page_idx as int == first_bad(self.data@, self.entries@)
                ==> self.position() == self.stream().len(),
    {
        let data = self.data@;
        let es = self.entries@;
        let fb = first_bad(data, es);
        let pieces = listing_pieces(data, es);
        lemma_first_bad(data, es);
        assert(pieces.take(fb).take(self.page_idx as int) =~= pieces.take(self.page_idx as int));
        crate::page::lemma_concat_prefix_len(pieces.take(fb), self.page_idx as int);
        if let Some(p) = self.current_page {
            assert(pieces.take(fb).take(self.page_idx + 1) =~= pieces.take(self.page_idx + 1));
            crate::page::lemma_concat_prefix_len(pieces.take(fb), self.page_idx + 1);
            crate::page::lemma_concat_step(pieces, self.page_idx as int);
        }
        assert(pieces.take(fb).take(fb) =~= pieces.take(fb));
    }

    proof fn lemma_step_page(&self)
        requires
            self.wf(),
            self.current_page matches Some(p) && self.record_idx >= p.rec_view().len(),
        ensures
            crate::writer::prefix_count(listing_pieces(self.data@, self.entries@), self.page_idx + 1)
                == self.position(),
    {
        let pieces = listing_pieces(self.data@, self.entries@);
        lemma_first_bad(self.data@, self.entries@);
        crate::page::lemma_concat_step(pieces, self.page_idx as int);
    }

    proof fn lemma_next_pair(&self, o: i64, v: Seq<u8>)
        requires
            self.wf(),
            self.current_page matches Some(p) && self.record_idx < p.rec_view().len() && o
                == p.footer.start_ordinal + self.record_idx && v == p.rec_view()[self.record_idx as int],
        ensures
            self.position() < self.stream().len(),
            self.stream()[self.position()] == (o, v),
    {
        let data = self.data@;
        let es = self.entries@;
        let fb = first_bad(data, es);
        let pieces = listing_pieces(data, es);
        let k = self.page_idx as int;
        lemma_first_bad(data, es);
        crate::page::lemma_concat_step(pieces, k);
        assert(pieces.take(fb).take(k) =~= pieces.take(k));
        assert(pieces.take(fb).take(k + 1) =~= pieces.take(k + 1));
        assert(pieces.take(fb)[k] == pieces[k]);
        crate::writer::lemma_concat_at(pieces.take(fb), k, self.position());
    }
}

/// Reads the data page an entry points at in `data` (negative offsets point
/// at no page).
fn read_page_of(data: &[u8], entry: &PageEntry) -> (r: Result<Page, SlabError>)
    ensures
        match r {
            Ok(p) => page_at_ok(data@, entry.file_offset as int) && p.footer == decode_footer(
                tail_footer(page_bytes_at(data@, entry.file_offset as int)),
            ) && p.rec_view() == page_records_at(data@, entry.file_offset as int),
            Err(e) => !page_at_ok(data@, entry.file_offset as int) && page_read_error(
                data@,
                entry.file_offset as int,
                e,
            ),
        },
{
    if entry.file_offset < 0 {
        return Err(SlabError::TruncatedPage { expected: HEADER_SIZE, actual: 0 });
    }
    read_page_at(data, entry.file_offset as u64)
}

/// Reads and deserializes the page that starts at byte `offset` of `data`,
/// taking its size from its header.
pub fn read_page_at(data: &[u8], offset: u64) -> (r: Result<Page, SlabError>)
    ensures
        match r {
            Ok(p) => page_at_ok(data@, offset as int) && p.footer == decode_footer(
                tail_footer(page_bytes_at(data@, offset as int)),
            ) && p.rec_view() == page_records_at(data@, offset as int),
            Err(e) => !page_at_ok(data@, offset as int) && page_read_error(data@, offset as int, e),
        },
{
    let len = data.len();
    if offset > len as u64 {
        return Err(SlabError::TruncatedPage { expected: HEADER_SIZE, actual: 0 });
    }
    let off = offset as usize;
    if len - off < HEADER_SIZE {
        return Err(SlabError::TruncatedPage { expected: HEADER_SIZE, actual: len - off });
    }
    proof {
        lemma_le_value_bound(data@.subrange(off + 4, off + 8));
        lemma_pow256_values();
    }
    let size = read_le(data, off + 4, 4) as usize;
    if size > len - off {
        return Err(SlabError::TruncatedPage { expected: size, actual: len - off });
    }
    let bytes = slice_subrange(data, off, off + size);
    assert(bytes@ =~= page_bytes_at(data@, off as int));
    Page::deserialize(bytes)
}

impl SlabReader {
    /// Consume this reader and return an iterator that yields the records
    /// of `iter` in batches of up to `batch_size`.
    pub fn batch_iter(self, batch_size: usize) -> (r: SlabBatchIter)
        ensures
            r.wf(),
            r.position() == 0,
            r.batch_size_view() == batch_size,
            r.stream() == concat(
                listing_pieces(self.bytes(), sort_by_start(file_entries(self.bytes()))).take(
                    first_bad(self.bytes(), sort_by_start(file_entries(self.bytes()))),
                ),
            ),
            r.broken() == (first_bad(self.bytes(), sort_by_start(file_entries(self.bytes())))
                < file_entries(self.bytes()).len()),
    {
        proof {
            use_type_invariant(&self);
        }
        let unsorted = self.pages_page.entries();
        let entries = sort_entries(&unsorted);
        proof {
            lemma_sort_by_start(unsorted@);
            lemma_first_bad(self.data@, entries@);
            assert(listing_pieces(self.data@, entries@).take(0) =~= Seq::<Seq<(i64, Seq<u8>)>>::empty());
        }
        SlabBatchIter {
            data: self.data,
            entries,
            batch_size,
            page_idx: 0,
            record_idx: 0,
            current_page: None,
        }
    }
}


/// The records of the pages `es` indexes, page after page.
pub open spec fn listing_records(data: Seq<u8>, es: Seq<PageEntry>) -> Seq<Seq<u8>> {
    concat(Seq::new(es.len(), |i: int| page_records_at(data, es[i].file_offset as int)))
}

/// The records of `(ordinal, record)` pairs, in order.
pub open spec fn pair_records(v: Seq<(i64, Seq<u8>)>) -> Seq<Seq<u8>> {
    Seq::new(v.len(), |i: int| v[i].1)
}

/// What `read_all_to_sink` writes is what `iter` lists, without the
/// ordinals: the records of the listing are the records of the pages, page
/// after page, so the sink receives the concatenation of the records that
/// `iter` gives, in the same order.
pub proof fn lemma_sink_is_listing(data: Seq<u8>, es: Seq<PageEntry>)
    ensures
        pair_records(listing(data, es)) == listing_records(data, es),
        concat(pair_records(listing(data, es))) == concat(listing_records(data, es)),
    decreases es.len(),
{
    let pieces = Seq::new(es.len(), |i: int| page_listing(data, es[i].file_offset as int));
    let rpieces = Seq::new(es.len(), |i: int| page_records_at(data, es[i].file_offset as int));
    if es.len() > 0 {
        let d = es.drop_last();
        lemma_sink_is_listing(data, d);
        assert(pieces.drop_last() =~= Seq::new(d.len(), |i: int| page_listing(data, d[i].file_offset as int)));
        assert(rpieces.drop_last() =~= Seq::new(d.len(), |i: int| page_records_at(data, d[i].file_offset as int)));
        let a = concat(pieces.drop_last());
        let b = pieces.last();
        assert(concat(pieces) == a + b);
        assert(pair_records(a + b) =~= pair_records(a) + pair_records(b));
        assert(pair_records(b) =~= rpieces.last());
        assert(concat(rpieces) == concat(rpieces.drop_last()) + rpieces.last());
    } else {
        assert(pair_records(listing(data, es)) =~= Seq::<Seq<u8>>::empty());
    }
}

/// The pages the index lists hold disjoint ordinal ranges: each one ends
/// at or before the start of every later one.
pub open spec fn pages_disjoint(data: Seq<u8>, es: Seq<PageEntry>) -> bool {
    forall|i: int, j: int|
        0 <= i < j < es.len() ==> #[trigger] page_start_at(data, es[i].file_offset as int)
            + page_records_at(data, es[i].file_offset as int).len() <= #[trigger] page_start_at(
            data,
            es[j].file_offset as int,
        )
}

/// Where a position of the listing of a well-formed file lies: page `k`,
/// record `t` of it.
proof fn lemma_listing_at(data: Seq<u8>, p: int) -> (kt: (int, int))
    requires
        file_consistent(data),
        0 <= p < listing(data, file_entries(data)).len(),
    ensures
        0 <= kt.0 < file_entries(data).len(),
        0 <= kt.1 < page_records_at(data, file_entries(data)[kt.0].file_offset as int).len(),
        crate::writer::prefix_count(listing_pieces(data, file_entries(data)), kt.0) + kt.1 == p,
        listing(data, file_entries(data))[p] == (
            (page_start_at(data, file_entries(data)[kt.0].file_offset as int) + kt.1) as i64,
            page_records_at(data, file_entries(data)[kt.0].file_offset as int)[kt.1],
        ),
{
    let es = file_entries(data);
    let pieces = listing_pieces(data, es);
    crate::writer::lemma_locate(pieces, p);
    let k = choose|j: int|
        0 <= j < pieces.len() && #[trigger] crate::writer::prefix_count(pieces, j) <= p
            < crate::writer::prefix_count(pieces, j + 1);
    crate::writer::lemma_concat_at(pieces, k, p);
    crate::page::lemma_concat_step(pieces, k);
    (k, p - crate::writer::prefix_count(pieces, k))
}

proof fn lemma_listing_pair_found(data: Seq<u8>, p: int)
    requires
        file_consistent(data),
        pages_disjoint(data, file_entries(data)),
        0 <= p < listing(data, file_entries(data)).len(),
    ensures
        file_record(data, file_entries(data), listing(data, file_entries(data))[p].0 as int)
            == Some(listing(data, file_entries(data))[p].1),
{
    let es = file_entries(data);
    let v = listing(data, es);
    let (k, t) = lemma_listing_at(data, p);
    let off = es[k].file_offset as int;
    assert(entry_page_ok(data, es[k]));
    lemma_page_start_in_range(page_bytes_at(data, off));
    let o = page_start_at(data, off) + t;
    assert(v[p].0 as int == o);
    assert(is_slot(es, o, k)) by {
        if k + 1 < es.len() {
            assert(entry_page_ok(data, es[k + 1]));
        }
    }
    assert(found_in(data, es, o, k));
    lemma_file_record_at(data, es, o, k);
}

proof fn lemma_listing_increasing(data: Seq<u8>, p: int, q: int)
    requires
        file_consistent(data),
        pages_disjoint(data, file_entries(data)),
        0 <= p < q < listing(data, file_entries(data)).len(),
    ensures
        listing(data, file_entries(data))[p].0 < listing(data, file_entries(data))[q].0,
{
    let es = file_entries(data);
    let pieces = listing_pieces(data, es);
    let (a, ta) = lemma_listing_at(data, p);
    let (b, tb) = lemma_listing_at(data, q);
    lemma_page_start_in_range(page_bytes_at(data, es[a].file_offset as int));
    lemma_page_start_in_range(page_bytes_at(data, es[b].file_offset as int));
    if a > b {
        crate::writer::lemma_prefix_count_mono(pieces, b + 1, a);
        crate::page::lemma_concat_step(pieces, b);
    }
}

proof fn lemma_lookup_listed(data: Seq<u8>, o: int)
    requires
        file_consistent(data),
        file_record(data, file_entries(data), o) is Some,
    ensures
        exists|p: int|
            0 <= p < listing(data, file_entries(data)).len() && listing(data, file_entries(data))[p].0
                == o,
{
    let es = file_entries(data);
    let v = listing(data, es);
    let pieces = listing_pieces(data, es);
    assert(v == concat(pieces));
    let k = choose|k: int| found_in(data, es, o, k);
    let off = es[k].file_offset as int;
    let t = o - page_start_at(data, off);
    crate::page::lemma_concat_step(pieces, k);
    let p = crate::writer::prefix_count(pieces, k) + t;
    crate::writer::lemma_concat_at(pieces, k, p);
    lemma_page_start_in_range(page_bytes_at(data, off));
    assert(v[p].0 == o);
}

/// In a well-formed file whose pages hold disjoint ordinal ranges, the
/// listing that `iter` gives and the records that `get` finds agree: the
/// ordinals of the listing strictly increase, each pair of the listing is
/// what its ordinal denotes, and every ordinal that denotes a record is in
/// the listing.
pub proof fn lemma_listing_agrees_with_lookup(data: Seq<u8>)
    requires
        file_consistent(data),
        pages_disjoint(data, file_entries(data)),
    ensures
        sort_by_start(file_entries(data)) == file_entries(data),
        forall|p: int|
            0 <= p < listing(data, file_entries(data)).len() ==> file_record(
                data,
                file_entries(data),
                #[trigger] listing(data, file_entries(data))[p].0 as int,
            ) == Some(listing(data, file_entries(data))[p].1),
        forall|p: int, q: int|
            0 <= p < q < listing(data, file_entries(data)).len() ==> #[trigger] listing(
                data,
                file_entries(data),
            )[p].0 < #[trigger] listing(data, file_entries(data))[q].0,
        forall|o: int|
            #[trigger] file_record(data, file_entries(data), o) is Some ==> exists|p: int|
                0 <= p < listing(data, file_entries(data)).len() && listing(data, file_entries(data))[p].0
                    == o,
{
    let es = file_entries(data);
    let v = listing(data, es);
    lemma_sort_sorted(es);
    assert forall|p: int| 0 <= p < v.len() implies file_record(data, es, #[trigger] v[p].0 as int)
        == Some(v[p].1) by {
        lemma_listing_pair_found(data, p);
    }
    assert forall|p: int, q: int| 0 <= p < q < v.len() implies #[trigger] v[p].0 < #[trigger] v[q].0 by {
        lemma_listing_increasing(data, p, q);
    }
    assert forall|o: int| #[trigger] file_record(data, es, o) is Some implies exists|p: int|
        0 <= p < v.len() && v[p].0 == o by {
        lemma_lookup_listed(data, o);
    }
}

/// A file that opens indexes fewer than 2^24 pages.
pub proof fn lemma_entries_bound(data: Seq<u8>)
    requires
        file_opens(data),
    ensures
        file_entries(data).len() < 0x100_0000,
{
    lemma_page_start_in_range(index_bytes(data));
}

/// Appends the records of a page to `sink`, with no framing.
fn sink_page(sink: &mut Vec<u8>, page: &Page)
    ensures
        final(sink)@ == old(sink)@ + concat(page.rec_view()),
{
    let m = page.record_count();
    let ghost recs = page.rec_view();
    let mut j: usize = 0;
    while j < m
        invariant
            m == recs.len(),
            recs == page.rec_view(),
            0 <= j <= m,
            sink@ == old(sink)@ + concat(recs.take(j as int)),
        decreases m - j,
    {
        proof {
            crate::page::lemma_concat_step(recs, j as int);
            assert(recs.take(0) =~= Seq::<Seq<u8>>::empty());
        }
        assert(page.records@[j as int]@ == recs[j as int]);
        crate::page::push_bytes(sink, page.records[j].as_slice());
        j = j + 1;
        assert(sink@ =~= old(sink)@ + concat(recs.take(j as int)));
    }
    proof {
        assert(recs.take(0) =~= Seq::<Seq<u8>>::empty());
        assert(recs.take(m as int) =~= recs);
    }
}

impl SlabReader {
    /// Write all records, in the order of `iter`, to `sink` with no framing
    /// and return how many were written. A page that cannot be read stops
    /// the writing with its error; the records of the pages before it have
    /// been written by then.
    pub fn read_all_to_sink(&self, sink: &mut Vec<u8>) -> (r: Result<u64, SlabError>)
        ensures
            match r {
                Ok(n) => pages_ok(
                    self.bytes(),
                    sort_by_start(file_entries(self.bytes())),
                    file_entries(self.bytes()).len() as int,
                ) && final(sink)@ == old(sink)@ + concat(
                    listing_records(self.bytes(), sort_by_start(file_entries(self.bytes()))),
                ) && n == listing_records(self.bytes(), sort_by_start(file_entries(self.bytes()))).len(),
                Err(e) => exists|k: int|
                    0 <= k < file_entries(self.bytes()).len() && pages_ok(
                        self.bytes(),
                        sort_by_start(file_entries(self.bytes())),
                        k,
                    ) && !page_at_ok(
                        self.bytes(),
                        sort_by_start(file_entries(self.bytes()))[k].file_offset as int,
                    ) && page_read_error(
                        self.bytes(),
                        sort_by_start(file_entries(self.bytes()))[k].file_offset as int,
                        e,
                    ) && final(sink)@ == old(sink)@ + concat(
                        listing_records(self.bytes(), sort_by_start(file_entries(self.bytes())).take(k)),
                    ),
            },
    {
        proof {
            use_type_invariant(self);
            lemma_entries_bound(self.data@);
        }
        let unsorted = self.pages_page.entries();
        let entries = sort_entries(&unsorted);
        proof {
            lemma_sort_by_start(unsorted@);
        }
        let ghost data = self.data@;
        let ghost es = entries@;
        let ghost pieces = Seq::new(es.len(), |i: int| page_records_at(data, es[i].file_offset as int));
        let n = entries.len();
        let mut count: u64 = 0;
        let mut i: usize = 0;
        proof {
            assert(pieces.take(0) =~= Seq::<Seq<Seq<u8>>>::empty());
            assert(sink@ =~= old(sink)@ + concat(concat(pieces.take(0))));
        }
        while i < n
            invariant
                n == es.len(),
                n < 0x100_0000,
                es == entries@,
                es == sort_by_start(file_entries(self.bytes())),
                es.len() == file_entries(self.bytes()).len(),
                data == self.data@,
                pieces == Seq::new(es.len(), |i: int| page_records_at(data, es[i].file_offset as int)),
                0 <= i <= n,
                pages_ok(data, es, i as int),
                sink@ == old(sink)@ + concat(concat(pieces.take(i as int))),
                count == concat(pieces.take(i as int)).len(),
                count <= i * 0x100_0000,
            decreases n - i,
        {
            let page = match self.read_data_page(&entries[i]) {
                Ok(p) => p,
                Err(e) => {
                    proof {
                        assert(es.take(i as int) =~= es.take(i as int));
                        assert(Seq::new(
                            es.take(i as int).len(),
                            |j: int| page_records_at(data, es.take(i as int)[j].file_offset as int),
                        ) =~= pieces.take(i as int));
                    }
                    return Err(e);
                },
            };
            proof {
                lemma_page_start_in_range(page_bytes_at(data, es[i as int].file_offset as int));
            }
            let m = page.record_count();
            let ghost recs = page.rec_view();
            sink_page(sink, &page);
            proof {
                crate::page::lemma_concat_step(pieces, i as int);
                assert(pieces[i as int] == recs);
                crate::page::lemma_concat_append(concat(pieces.take(i as int)), recs);
            }
            count = count + m as u64;
            i = i + 1;
        }
        proof {
            assert(pieces.take(n as int) =~= pieces);
        }
        Ok(count)
    }
}

} // verus!
