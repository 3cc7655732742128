//! The pages page: the file-level index of a slabtastic file.
//!
//! The pages page is always the last page in the file. Its records are
//! `PageEntry` tuples `(start_ordinal:8, file_offset:8)`, sorted by ordinal so
//! that the page holding an ordinal is found by binary search.
use vstd::prelude::*;
use vstd::arithmetic::div_mod::lemma_fundamental_div_mod_converse;
use crate::constants::{PageType, page_type_byte};
use crate::encoding::{
    le_bytes, le_value, lemma_bytes_of_le_value, lemma_le_bytes_len, lemma_le_value_bound,
    lemma_le_value_of_bytes, lemma_pow256_values, pow256, read_le, write_le_at,
};
use crate::error::SlabError;
use crate::footer::decode_footer;
use crate::page::{Page, min_page_size, page_error, page_parses, page_records, tail_footer};

verus! {

/// 2^64.
pub open spec fn word_modulus() -> int {
    0x1_0000_0000_0000_0000
}

/// The 64-bit two's-complement field that stores an `i64`.
pub open spec fn i64_field(x: int) -> nat {
    (x % word_modulus()) as nat
}

/// The `i64` that a 64-bit field denotes.
pub open spec fn i64_of_field(v: nat) -> int {
    if v >= 0x8000_0000_0000_0000 {
        v - word_modulus()
    } else {
        v as int
    }
}

/// An entry in the pages page mapping a starting ordinal to a file offset.
///
/// Wire format: `[start_ordinal:8][file_offset:8]` (16 bytes, little-endian).
#[derive(Debug, Clone, Copy, PartialEq, Eq, Structural)]
pub struct PageEntry {
    /// The starting ordinal of the referenced data page.
    pub start_ordinal: i64,
    /// The byte offset of the data page within the slabtastic file.
    pub file_offset: i64,
}

/// The 16 bytes of an entry.
pub open spec fn entry_bytes(e: PageEntry) -> Seq<u8> {
    le_bytes(i64_field(e.start_ordinal as int), 8) + le_bytes(i64_field(e.file_offset as int), 8)
}

/// The entry that the first 16 bytes of `b` denote.
pub open spec fn decode_entry(b: Seq<u8>) -> PageEntry {
    PageEntry {
        start_ordinal: i64_of_field(le_value(b.subrange(0, 8))) as i64,
        file_offset: i64_of_field(le_value(b.subrange(8, 16))) as i64,
    }
}

/// The entries that a pages page's records denote.
pub open spec fn entries_of(rs: Seq<Seq<u8>>) -> Seq<PageEntry> {
    Seq::new(rs.len(), |i: int| decode_entry(rs[i]))
}

/// Every record is long enough to hold an entry.
pub open spec fn entries_wf(rs: Seq<Seq<u8>>) -> bool {
    forall|i: int| 0 <= i < rs.len() ==> (#[trigger] rs[i]).len() >= 16
}

/// Entries sorted by start ordinal.
pub open spec fn entries_sorted(es: Seq<PageEntry>) -> bool {
    forall|i: int, j: int| 0 <= i < j < es.len() ==> es[i].start_ordinal <= es[j].start_ordinal
}

/// The 64-bit field of an `i64`.
fn i64_to_field(x: i64) -> (r: u64)
    ensures
        r as int == i64_field(x as int),
{
    if x >= 0 {
        proof {
            lemma_fundamental_div_mod_converse(x as int, word_modulus(), 0, x as int);
        }
        x as u64
    } else {
        let w: i128 = x as i128 + 0x1_0000_0000_0000_0000i128;
        proof {
            lemma_fundamental_div_mod_converse(x as int, word_modulus(), -1, w as int);
        }
        w as u64
    }
}

/// The `i64` that a 64-bit field denotes.
fn i64_from_field(v: u64) -> (r: i64)
    ensures
        r as int == i64_of_field(v as nat),
{
    if v >= 0x8000_0000_0000_0000 {
        (v as i128 - 0x1_0000_0000_0000_0000i128) as i64
    } else {
        v as i64
    }
}

proof fn lemma_i64_field_roundtrip(x: int)
    requires
        i64::MIN <= x <= i64::MAX,
    ensures
        i64_field(x) < word_modulus(),
        i64_of_field(i64_field(x)) == x,
{
    if x < 0 {
        lemma_fundamental_div_mod_converse(x, word_modulus(), -1, x + word_modulus());
    } else {
        lemma_fundamental_div_mod_converse(x, word_modulus(), 0, x);
    }
}

proof fn lemma_field_i64_roundtrip(v: nat)
    requires
        v < word_modulus(),
    ensures
        i64_field(i64_of_field(v)) == v,
        i64::MIN <= i64_of_field(v) <= i64::MAX,
{
    let x = i64_of_field(v);
    if v >= 0x8000_0000_0000_0000 {
        lemma_fundamental_div_mod_converse(x, word_modulus(), -1, v as int);
    } else {
        lemma_fundamental_div_mod_converse(x, word_modulus(), 0, v as int);
    }
}

impl PageEntry {
    /// Serialize this entry to 16 bytes (little-endian).
    pub fn to_bytes(&self) -> (r: [u8; 16])
        ensures
            r@ == entry_bytes(*self),
    {
        let mut buf = [0u8; 16];
        assert(buf@.len() == 16);
        let a = i64_to_field(self.start_ordinal);
        let b = i64_to_field(self.file_offset);
        write_le_at(&mut buf, 0, a, 8);
        write_le_at(&mut buf, 8, b, 8);
        proof {
            lemma_le_bytes_len(a as nat, 8);
            lemma_le_bytes_len(b as nat, 8);
            assert(buf@ =~= entry_bytes(*self));
        }
        buf
    }

    /// Deserialize an entry from the first 16 bytes of `buf`.
    pub fn from_bytes(buf: &[u8]) -> (r: PageEntry)
        requires
            buf@.len() >= 16,
        ensures
            r == decode_entry(buf@),
    {
        let start_ordinal = i64_from_field(read_le(buf, 0, 8));
        let file_offset = i64_from_field(read_le(buf, 8, 8));
        PageEntry { start_ordinal, file_offset }
    }
}

/// Reading the bytes of an entry gives back the entry, whatever follows them.
pub proof fn lemma_entry_write_read(e: PageEntry, rest: Seq<u8>)
    ensures
        decode_entry(entry_bytes(e) + rest) == e,
        entry_bytes(e).len() == 16,
{
    let b = entry_bytes(e) + rest;
    let s = i64_field(e.start_ordinal as int);
    let o = i64_field(e.file_offset as int);
    lemma_i64_field_roundtrip(e.start_ordinal as int);
    lemma_i64_field_roundtrip(e.file_offset as int);
    lemma_le_bytes_len(s, 8);
    lemma_le_bytes_len(o, 8);
    assert(b.subrange(0, 8) =~= le_bytes(s, 8));
    assert(b.subrange(8, 16) =~= le_bytes(o, 8));
    lemma_le_value_of_bytes(s, 8);
    lemma_le_value_of_bytes(o, 8);
    lemma_pow256_values();
    vstd::arithmetic::div_mod::lemma_small_mod(s, pow256(8));
    vstd::arithmetic::div_mod::lemma_small_mod(o, pow256(8));
}

/// Writing a decoded entry reproduces its 16 bytes.
pub proof fn lemma_entry_read_write(b: Seq<u8>)
    requires
        b.len() >= 16,
    ensures
        entry_bytes(decode_entry(b)) == b.subrange(0, 16),
{
    lemma_pow256_values();
    lemma_le_value_bound(b.subrange(0, 8));
    lemma_le_value_bound(b.subrange(8, 16));
    lemma_field_i64_roundtrip(le_value(b.subrange(0, 8)));
    lemma_field_i64_roundtrip(le_value(b.subrange(8, 16)));
    lemma_bytes_of_le_value(b.subrange(0, 8));
    lemma_bytes_of_le_value(b.subrange(8, 16));
    assert(entry_bytes(decode_entry(b)) =~= b.subrange(0, 16));
}

/// A pages page (index page): a page of type `Pages` whose records are
/// entries.
#[derive(Debug, Clone)]
pub struct PagesPage {
    /// The underlying page.
    pub page: Page,
}

impl PagesPage {
    /// The entries this pages page holds.
    pub open spec fn entry_view(&self) -> Seq<PageEntry> {
        entries_of(self.page.rec_view())
    }

    /// Every record holds an entry.
    pub open spec fn wf(&self) -> bool {
        entries_wf(self.page.rec_view())
    }

    /// Create a new empty pages page.
    pub fn new() -> (r: PagesPage)
        ensures
            r.page.rec_view() == Seq::<Seq<u8>>::empty(),
            r.entry_view() == Seq::<PageEntry>::empty(),
            r.wf(),
            r.page.footer.start_ordinal == 0,
            r.page.footer.page_type == PageType::Pages,
            r.page.footer.version == 1,
            r.page.footer.footer_length == 16,
    {
        let r = PagesPage { page: Page::new(0, PageType::Pages) };
        assert(r.entry_view() =~= Seq::<PageEntry>::empty());
        r
    }

    /// Add an entry mapping a start ordinal to a file offset.
    pub fn add_entry(&mut self, start_ordinal: i64, file_offset: i64)
        ensures
            final(self).page.rec_view() == old(self).page.rec_view().push(
                entry_bytes(PageEntry { start_ordinal, file_offset }),
            ),
            final(self).entry_view() == old(self).entry_view().push(
                PageEntry { start_ordinal, file_offset },
            ),
            old(self).wf() ==> final(self).wf(),
            final(self).page.footer.start_ordinal == old(self).page.footer.start_ordinal,
            final(self).page.footer.page_type == old(self).page.footer.page_type,
            final(self).page.footer.version == old(self).page.footer.version,
            final(self).page.footer.footer_length == old(self).page.footer.footer_length,
    {
        let entry = PageEntry { start_ordinal, file_offset };
        let bytes = entry.to_bytes();
        self.page.add_record(bytes.as_slice());
        proof {
            lemma_entry_write_read(entry, Seq::<u8>::empty());
            assert(entry_bytes(entry) + Seq::<u8>::empty() =~= entry_bytes(entry));
            assert(self.entry_view() =~= old(self).entry_view().push(entry));
        }
    }

    /// Parse all entries from this pages page.
    pub fn entries(&self) -> (r: Vec<PageEntry>)
        requires
            self.wf(),
        ensures
            r@ == self.entry_view(),
    {
        let n = self.page.records.len();
        let mut out: Vec<PageEntry> = Vec::new();
        let mut i: usize = 0;
        while i < n
            invariant
                n == self.page.records@.len(),
                self.wf(),
                0 <= i <= n,
                out@ == self.entry_view().take(i as int),
            decreases n - i,
        {
            assert(self.page.rec_view()[i as int] == self.page.records@[i as int]@);
            let e = PageEntry::from_bytes(self.page.records[i].as_slice());
            out.push(e);
            i = i + 1;
            assert(out@ =~= self.entry_view().take(i as int));
        }
        assert(self.entry_view().take(n as int) =~= self.entry_view());
        out
    }

    /// Binary search for the page entry containing the given ordinal.
    ///
    /// Returns an entry with `start_ordinal <= ordinal`; when the entries
    /// are sorted by start ordinal it is one with the greatest such start
    /// ordinal, and `None` means that every entry starts after `ordinal`.
    pub fn find_page_for_ordinal(&self, ordinal: i64) -> (r: Option<PageEntry>)
        requires
            self.wf(),
        ensures
            r is Some ==> self.entry_view().contains(r->0) && r->0.start_ordinal <= ordinal,
            r is Some ==> exists|k: int| is_slot(self.entry_view(), ordinal as int, k) && self.entry_view()[k] == r->0,
            r is None ==> self.entry_view().len() == 0 || self.entry_view()[0].start_ordinal > ordinal,
            entries_sorted(self.entry_view()) ==> (r is None <==> forall|i: int|
                0 <= i < self.entry_view().len() ==> #[trigger] self.entry_view()[i].start_ordinal
                    > ordinal),
            entries_sorted(self.entry_view()) && r is Some ==> forall|i: int|
                0 <= i < self.entry_view().len() && #[trigger] self.entry_view()[i].start_ordinal
                    <= ordinal ==> self.entry_view()[i].start_ordinal <= r->0.start_ordinal,
    {
        let entries = self.entries();
        find_in_entries(&entries, ordinal)
    }

    /// Serialize this pages page to bytes.
    pub fn serialize(&self) -> (r: Vec<u8>)
        requires
            min_page_size(self.page.rec_view()) <= usize::MAX,
        ensures
            r@ == crate::page::page_image(
                self.page.rec_view(),
                self.page.footer.start_ordinal as int,
                page_type_byte(self.page.footer.page_type),
                self.page.footer.version,
                self.page.footer.footer_length as nat,
                min_page_size(self.page.rec_view()),
            ),
    {
        self.page.serialize()
    }

    /// Deserialize a pages page from exactly its bytes; a page of any other
    /// type is rejected with `InvalidPageType`.
    pub fn deserialize(buf: &[u8]) -> (r: Result<PagesPage, SlabError>)
        ensures
            match r {
                Ok(p) => page_parses(buf@) && decode_footer(tail_footer(buf@)).page_type
                    == PageType::Pages && p.page.footer == decode_footer(tail_footer(buf@))
                    && p.page.rec_view() == page_records(buf@),
                Err(e) => (page_parses(buf@) && decode_footer(tail_footer(buf@)).page_type
                    != PageType::Pages && e == SlabError::InvalidPageType(
                    page_type_byte(decode_footer(tail_footer(buf@)).page_type),
                )) || (!page_parses(buf@) && page_error(buf@, e)),
            },
    {
        let page = match Page::deserialize(buf) {
            Ok(p) => p,
            Err(e) => {
                return Err(e);
            },
        };
        if page.footer.page_type != PageType::Pages {
            return Err(SlabError::InvalidPageType(page.footer.page_type.to_u8()));
        }
        Ok(PagesPage { page })
    }

    /// Return the number of page entries.
    pub fn entry_count(&self) -> (r: usize)
        ensures
            r == self.page.records@.len(),
            r == self.entry_view().len(),
    {
        self.page.record_count()
    }
}

impl Default for PagesPage {
    /// An empty pages page.
    fn default() -> (r: PagesPage)
        ensures
            r.page.rec_view() == Seq::<Seq<u8>>::empty(),
            r.entry_view() == Seq::<PageEntry>::empty(),
            r.wf(),
            r.page.footer.start_ordinal == 0,
            r.page.footer.page_type == PageType::Pages,
            r.page.footer.version == 1,
            r.page.footer.footer_length == 16,
    {
        PagesPage::new()
    }
}

/// Entry `k` starts at or before `o` and the next one, if any, after it:
/// the page of entry `k` is where ordinal `o` belongs.
pub open spec fn is_slot(es: Seq<PageEntry>, o: int, k: int) -> bool {
    &&& 0 <= k < es.len()
    &&& es[k].start_ordinal <= o
    &&& (k + 1 == es.len() || es[k + 1].start_ordinal > o)
}

/// The last entry with `start_ordinal <= ordinal`, found by binary search.
pub fn find_in_entries(entries: &Vec<PageEntry>, ordinal: i64) -> (r: Option<PageEntry>)
    ensures
        r is Some ==> entries@.contains(r->0) && r->0.start_ordinal <= ordinal,
        r is Some ==> exists|k: int| is_slot(entries@, ordinal as int, k) && entries@[k] == r->0,
        r is None ==> entries@.len() == 0 || entries@[0].start_ordinal > ordinal,
        entries_sorted(entries@) ==> (r is None <==> forall|i: int|
            0 <= i < entries@.len() ==> #[trigger] entries@[i].start_ordinal > ordinal),
        entries_sorted(entries@) && r is Some ==> forall|i: int|
            0 <= i < entries@.len() && #[trigger] entries@[i].start_ordinal <= ordinal
                ==> entries@[i].start_ordinal <= r->0.start_ordinal,
{
    let n = entries.len();
    let mut lo: usize = 0;
    let mut hi: usize = n;
    while lo < hi
        invariant
            n == entries@.len(),
            0 <= lo <= hi <= n,
            lo > 0 ==> entries@[lo - 1].start_ordinal <= ordinal,
            hi < n ==> entries@[hi as int].start_ordinal > ordinal,
            entries_sorted(entries@) ==> forall|i: int|
                0 <= i < lo ==> #[trigger] entries@[i].start_ordinal <= ordinal,
            entries_sorted(entries@) ==> forall|i: int|
                hi <= i < n ==> #[trigger] entries@[i].start_ordinal > ordinal,
        decreases hi - lo,
    {
        let mid = lo + (hi - lo) / 2;
        if entries[mid].start_ordinal <= ordinal {
            lo = mid + 1;
        } else {
            hi = mid;
        }
    }
    if lo == 0 {
        None
    } else {
        let e = entries[lo - 1];
        assert(entries@[lo - 1] == e);
        assert(is_slot(entries@, ordinal as int, lo - 1));
        proof {
            if entries_sorted(entries@) {
                assert forall|i: int|
                    0 <= i < entries@.len() && #[trigger] entries@[i].start_ordinal <= ordinal
                        implies entries@[i].start_ordinal <= e.start_ordinal by {
                    if i >= lo {
                        assert(entries@[i].start_ordinal > ordinal);
                    } else if i < lo - 1 {
                        assert(entries@[i].start_ordinal <= entries@[lo - 1].start_ordinal);
                    }
                }
            }
        }
        Some(e)
    }
}

} // verus!
