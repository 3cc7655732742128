//! The page: the unit in which records are stored.
//!
//! ```text
//! [magic:4 "SLAB"][page_size:4][records...][padding][offsets:(n+1)*4][footer:16]
//! ```
//!
//! Each offset is counted from the beginning of the page; offset `i` is where
//! record `i` starts and offset `i + 1` where it ends.
use vstd::prelude::*;
use vstd::slice::{slice_subrange, slice_to_vec};
use crate::constants::{FOOTER_V1_SIZE, HEADER_SIZE, MAGIC, PageType, magic_seq, page_type_byte};
use crate::encoding::{
    le_bytes, le_value, lemma_le_bytes_len, lemma_le_value_bound, lemma_pow256_values, push_le,
    read_le,
};
use crate::error::SlabError;
use crate::footer::{
    Footer, decode_footer, footer_error, footer_image, footer_valid, ordinal_to_field,
};

verus! {

/// The byte contents of a sequence of records.
pub open spec fn records_view(recs: Seq<Vec<u8>>) -> Seq<Seq<u8>> {
    Seq::new(recs.len(), |i: int| recs[i]@)
}

/// The concatenation of a sequence of byte strings.
pub open spec fn concat<A>(rs: Seq<Seq<A>>) -> Seq<A>
    decreases rs.len(),
{
    if rs.len() == 0 {
        Seq::empty()
    } else {
        concat(rs.drop_last()) + rs.last()
    }
}

/// Where record `i` begins within its page.
pub open spec fn record_offset(rs: Seq<Seq<u8>>, i: int) -> nat {
    8 + concat(rs.take(i)).len()
}

/// The smallest page that holds `rs`: header, data, offsets and footer.
pub open spec fn min_page_size(rs: Seq<Seq<u8>>) -> nat {
    8 + concat(rs).len() + 4 * (rs.len() + 1) + 16
}

/// The offset array of a page holding `rs`.
pub open spec fn offsets_image(rs: Seq<Seq<u8>>) -> Seq<u8> {
    concat(Seq::new(rs.len() + 1, |i: int| le_bytes(record_offset(rs, i), 4)))
}

/// `n` zero bytes.
pub open spec fn zeros(n: nat) -> Seq<u8> {
    Seq::new(n, |i: int| 0u8)
}

/// The bytes of a page of `size >= min_page_size(rs)` bytes holding `rs`:
/// the padding of `size - min_page_size(rs)` zero bytes lies between the
/// data and the offsets. The size field keeps its low four bytes and the
/// record count its low three.
pub open spec fn page_image(
    rs: Seq<Seq<u8>>,
    start: int,
    ptype: u8,
    version: u8,
    flen: nat,
    size: nat,
) -> Seq<u8> {
    magic_seq() + le_bytes(size, 4) + concat(rs) + zeros((size - min_page_size(rs)) as nat)
        + offsets_image(rs) + footer_image(start, rs.len(), size, ptype, version, flen)
}

/// The last 16 bytes of a page, where its footer sits.
pub open spec fn tail_footer(b: Seq<u8>) -> Seq<u8> {
    b.subrange(b.len() - 16, b.len() as int)
}

/// Where the offset array of a page of `b.len()` bytes begins.
pub open spec fn offsets_start(b: Seq<u8>, f: Footer) -> int {
    b.len() - f.footer_length - 4 * (f.record_count + 1)
}

/// The `i`-th offset stored in a page.
pub open spec fn stored_offset(b: Seq<u8>, os: int, i: int) -> nat {
    le_value(b.subrange(os + 4 * i, os + 4 * i + 4))
}

/// The stored offsets start after the header, never decrease and end before
/// the offset array.
pub open spec fn offsets_ok(b: Seq<u8>, os: int, n: nat) -> bool {
    &&& stored_offset(b, os, 0) >= 8
    &&& stored_offset(b, os, n as int) <= os
    &&& forall|i: int| 0 <= i < n ==> stored_offset(b, os, i) <= #[trigger] stored_offset(b, os, i + 1)
}

/// The records that a page's offsets delimit.
pub open spec fn parsed_records(b: Seq<u8>, os: int, n: nat) -> Seq<Seq<u8>> {
    Seq::new(n, |i: int| b.subrange(stored_offset(b, os, i) as int, stored_offset(b, os, i + 1) as int))
}

/// The text of the error for offsets that do not delimit records.
pub open spec fn bad_offsets_text() -> Seq<char> {
    "record offsets out of bounds"@
}

/// Whether `page_deserialize` accepts `b`.
pub open spec fn page_parses(b: Seq<u8>) -> bool {
    let f = decode_footer(tail_footer(b));
    &&& b.len() >= 24
    &&& b.subrange(0, 4) == magic_seq()
    &&& footer_valid(tail_footer(b))
    &&& le_value(b.subrange(4, 8)) == f.page_size
    &&& f.page_size == b.len()
    &&& 8 + f.footer_length + 4 * (f.record_count + 1) <= b.len()
    &&& offsets_ok(b, offsets_start(b, f), f.record_count as nat)
}

/// The records of a page that `page_parses` accepts.
pub open spec fn page_records(b: Seq<u8>) -> Seq<Seq<u8>> {
    let f = decode_footer(tail_footer(b));
    parsed_records(b, offsets_start(b, f), f.record_count as nat)
}

/// The error that `Page::deserialize` gives for bytes it rejects: the first
/// failing check, in the order of `page_parses`.
pub open spec fn page_error(b: Seq<u8>, e: SlabError) -> bool {
    let f = decode_footer(tail_footer(b));
    let need = 8 + f.footer_length + 4 * (f.record_count + 1);
    if b.len() < 24 {
        e == SlabError::TruncatedPage { expected: 24, actual: b.len() as usize }
    } else if b.subrange(0, 4) != magic_seq() {
        e == SlabError::InvalidMagic
    } else if !footer_valid(tail_footer(b)) {
        footer_error(tail_footer(b), e)
    } else if le_value(b.subrange(4, 8)) != f.page_size {
        e == SlabError::PageSizeMismatch {
            header: le_value(b.subrange(4, 8)) as u32,
            footer: f.page_size,
        }
    } else if f.page_size != b.len() {
        e == SlabError::TruncatedPage { expected: f.page_size as usize, actual: b.len() as usize }
    } else if need > b.len() {
        e == SlabError::TruncatedPage { expected: need as usize, actual: b.len() as usize }
    } else {
        e matches SlabError::InvalidFooter(m) && m@ == bad_offsets_text()
    }
}

/// A page: its footer and its records.
#[derive(Debug, Clone)]
pub struct Page {
    /// The page footer.
    pub footer: Footer,
    /// The records, in order.
    pub records: Vec<Vec<u8>>,
}

pub proof fn lemma_concat_step<A>(rs: Seq<Seq<A>>, i: int)
    requires
        0 <= i < rs.len(),
    ensures
        concat(rs.take(i + 1)) == concat(rs.take(i)) + rs[i],
{
    assert(rs.take(i + 1).drop_last() =~= rs.take(i));
}

/// Concatenation distributes over appending sequences.
pub proof fn lemma_concat_append<A>(a: Seq<Seq<A>>, b: Seq<Seq<A>>)
    ensures
        concat(a + b) == concat(a) + concat(b),
    decreases b.len(),
{
    if b.len() == 0 {
        assert(a + b =~= a);
        assert(concat(a) + concat(b) =~= concat(a));
    } else {
        lemma_concat_append(a, b.drop_last());
        assert((a + b).drop_last() =~= a + b.drop_last());
        assert(concat(a + b) =~= concat(a) + concat(b));
    }
}

/// Record `i` sits in the concatenation between offsets `i` and `i + 1`.
pub proof fn lemma_concat_index<A>(rs: Seq<Seq<A>>, i: int)
    requires
        0 <= i < rs.len(),
    ensures
        concat(rs.take(i)).len() + rs[i].len() <= concat(rs).len(),
        concat(rs).subrange(
            concat(rs.take(i)).len() as int,
            (concat(rs.take(i)).len() + rs[i].len()) as int,
        ) == rs[i],
{
    lemma_concat_step(rs, i);
    assert(rs =~= rs.take(i + 1) + rs.skip(i + 1));
    lemma_concat_append(rs.take(i + 1), rs.skip(i + 1));
    let p = concat(rs.take(i));
    assert(concat(rs).subrange(p.len() as int, (p.len() + rs[i].len()) as int) =~= rs[i]);
}

/// A prefix concatenation is no longer than the whole.
pub proof fn lemma_concat_prefix_len<A>(rs: Seq<Seq<A>>, i: int)
    requires
        0 <= i <= rs.len(),
    ensures
        concat(rs.take(i)).len() <= concat(rs).len(),
        concat(rs).subrange(0, concat(rs.take(i)).len() as int) == concat(rs.take(i)),
{
    assert(rs =~= rs.take(i) + rs.skip(i));
    lemma_concat_append(rs.take(i), rs.skip(i));
    assert(concat(rs).subrange(0, concat(rs.take(i)).len() as int) =~= concat(rs.take(i)));
}

/// Concatenating chunks of a fixed width `w`.
pub proof fn lemma_concat_uniform<A>(cs: Seq<Seq<A>>, w: nat, i: int)
    requires
        forall|j: int| 0 <= j < cs.len() ==> (#[trigger] cs[j]).len() == w,
        0 <= i <= cs.len(),
    ensures
        concat(cs.take(i)).len() == w * i,
    decreases i,
{
    if i == 0 {
        assert(cs.take(0) =~= Seq::<Seq<A>>::empty());
    } else {
        lemma_concat_uniform(cs, w, i - 1);
        lemma_concat_step(cs, i - 1);
        assert(cs[i - 1].len() == w);
        assert(w * i == w * (i - 1) + w) by (nonlinear_arith);
    }
}

/// Offsets grow by the length of each record.
pub proof fn lemma_record_offset_step(rs: Seq<Seq<u8>>, i: int)
    requires
        0 <= i < rs.len(),
    ensures
        record_offset(rs, i + 1) == record_offset(rs, i) + rs[i].len(),
{
    lemma_concat_step(rs, i);
}

/// The last offset marks the end of the data.
pub proof fn lemma_record_offset_end(rs: Seq<Seq<u8>>)
    ensures
        record_offset(rs, rs.len() as int) == 8 + concat(rs).len(),
{
    assert(rs.take(rs.len() as int) =~= rs);
}

/// Appends the bytes of `src` to `out`.
pub fn push_bytes(out: &mut Vec<u8>, src: &[u8])
    ensures
        final(out)@ == old(out)@ + src@,
{
    let mut i: usize = 0;
    while i < src.len()
        invariant
            0 <= i <= src@.len(),
            out@ == old(out)@ + src@.subrange(0, i as int),
        decreases src@.len() - i,
    {
        out.push(src[i]);
        i = i + 1;
        assert(out@ =~= old(out)@ + src@.subrange(0, i as int));
    }
    assert(src@.subrange(0, i as int) =~= src@);
}

impl Page {
    /// The byte contents of the records.
    pub open spec fn rec_view(&self) -> Seq<Seq<u8>> {
        records_view(self.records@)
    }

    /// Create an empty page with the given start ordinal and page type.
    pub fn new(start_ordinal: i64, page_type: PageType) -> (r: Page)
        ensures
            r.rec_view() == Seq::<Seq<u8>>::empty(),
            r.footer == (Footer {
                start_ordinal,
                record_count: 0,
                page_size: 28,
                page_type,
                version: 1,
                footer_length: 16,
            }),
    {
        Page { footer: Footer::new(start_ordinal, 0, 28, page_type), records: Vec::new() }
    }

    /// Append a record.
    ///
    /// The footer's record count grows by one and its page size by the
    /// record's length plus four bytes of offset, both modulo 2^32.
    pub fn add_record(&mut self, data: &[u8])
        ensures
            final(self).rec_view() == old(self).rec_view().push(data@),
            final(self).footer == (Footer {
                record_count: ((old(self).footer.record_count + 1) % 0x1_0000_0000) as u32,
                page_size: ((old(self).footer.page_size + data@.len() + 4) % 0x1_0000_0000) as u32,
                ..old(self).footer
            }),
    {
        let m: u64 = 0x1_0000_0000;
        let grown: u64 = (self.footer.page_size as u64 + 4 + (data.len() as u64 % m)) % m;
        let count: u64 = (self.footer.record_count as u64 + 1) % m;
        proof {
            assert(grown as int == (old(self).footer.page_size + data@.len() + 4) % 0x1_0000_0000)
                by {
                vstd::arithmetic::div_mod::lemma_add_mod_noop_right(
                    (old(self).footer.page_size + 4) as int,
                    data@.len() as int,
                    0x1_0000_0000,
                );
            }
        }
        self.footer.page_size = grown as u32;
        self.footer.record_count = count as u32;
        self.records.push(slice_to_vec(data));
        assert(self.rec_view() =~= old(self).rec_view().push(data@));
    }

    /// The number of records in this page.
    pub fn record_count(&self) -> (r: usize)
        ensures
            r == self.records@.len(),
    {
        self.records.len()
    }

    /// The starting ordinal of this page.
    pub fn start_ordinal(&self) -> (r: i64)
        ensures
            r == self.footer.start_ordinal,
    {
        self.footer.start_ordinal
    }

    /// The record at `index`, or `None` past the last record.
    pub fn get_record(&self, index: usize) -> (r: Option<&[u8]>)
        ensures
            index < self.records@.len() ==> r is Some && r->0@ == self.rec_view()[index as int],
            index >= self.records@.len() ==> r is None,
    {
        if index < self.records.len() {
            Some(self.records[index].as_slice())
        } else {
            None
        }
    }

    /// The size of this page when serialized without padding.
    pub fn serialized_size(&self) -> (r: usize)
        requires
            min_page_size(self.rec_view()) <= usize::MAX,
        ensures
            r == min_page_size(self.rec_view()),
    {
        let n = self.records.len();
        let ghost rs = self.rec_view();
        let mut total: usize = 0;
        let mut i: usize = 0;
        while i < n
            invariant
                rs == self.rec_view(),
                n == rs.len(),
                0 <= i <= n,
                total == concat(rs.take(i as int)).len(),
                min_page_size(rs) <= usize::MAX,
            decreases n - i,
        {
            proof {
                lemma_concat_step(rs, i as int);
                lemma_concat_prefix_len(rs, i + 1);
            }
            total = total + self.records[i].len();
            i = i + 1;
        }
        assert(rs.take(n as int) =~= rs);
        total + HEADER_SIZE + 4 * (n + 1) + FOOTER_V1_SIZE
    }

    /// Serialize this page to bytes, without padding.
    ///
    /// The page size and record count come from the records; the start
    /// ordinal, page type, version and footer length from the footer.
    pub fn serialize(&self) -> (r: Vec<u8>)
        requires
            min_page_size(self.rec_view()) <= usize::MAX,
        ensures
            r@ == page_image(
                self.rec_view(),
                self.footer.start_ordinal as int,
                page_type_byte(self.footer.page_type),
                self.footer.version,
                self.footer.footer_length as nat,
                min_page_size(self.rec_view()),
            ),
    {
        let size = self.serialized_size();
        self.serialize_with_size(size)
    }

    /// Serialize this page padded to `size` bytes: zeros fill the space
    /// between the data and the offsets, and both size fields hold `size`.
    pub fn serialize_with_size(&self, size: usize) -> (r: Vec<u8>)
        requires
            min_page_size(self.rec_view()) <= size,
        ensures
            r@ == page_image(
                self.rec_view(),
                self.footer.start_ordinal as int,
                page_type_byte(self.footer.page_type),
                self.footer.version,
                self.footer.footer_length as nat,
                size as nat,
            ),
    {
        let ghost rs = self.rec_view();
        let n = self.records.len();
        let mut out: Vec<u8> = Vec::new();
        out.push(MAGIC[0]);
        out.push(MAGIC[1]);
        out.push(MAGIC[2]);
        out.push(MAGIC[3]);
        push_le(&mut out, size as u64, 4);
        let ghost head = out@;
        assert(head =~= magic_seq() + le_bytes(size as nat, 4));
        let mut i: usize = 0;
        while i < n
            invariant
                rs == self.rec_view(),
                n == rs.len(),
                0 <= i <= n,
                out@ == head + concat(rs.take(i as int)),
            decreases n - i,
        {
            proof {
                lemma_concat_step(rs, i as int);
            }
            push_bytes(&mut out, self.records[i].as_slice());
            i = i + 1;
            assert(out@ =~= head + concat(rs.take(i as int)));
        }
        assert(rs.take(n as int) =~= rs);
        let ghost with_data = out@;
        let data_end = out.len();
        // padding: size - min_page_size(rs) zero bytes
        proof {
            lemma_le_bytes_len(size as nat, 4);
        }
        let pad_end = size - 4 * (n + 1) - FOOTER_V1_SIZE;
        while out.len() < pad_end
            invariant
                data_end <= pad_end,
                with_data.len() == data_end,
                data_end <= out@.len() <= pad_end,
                out@ == with_data + zeros((out@.len() - data_end) as nat),
            decreases pad_end - out@.len(),
        {
            out.push(0u8);
            assert(out@ =~= with_data + zeros((out@.len() - data_end) as nat));
        }
        let ghost with_pad = out@;
        // offsets
        let ghost chunks = Seq::new((n + 1) as nat, |j: int| le_bytes(record_offset(rs, j), 4));
        let mut off: u64 = 8;
        let mut k: usize = 0;
        proof {
            assert(rs.take(0) =~= Seq::<Seq<u8>>::empty());
            assert(chunks.take(0) =~= Seq::<Seq<u8>>::empty());
        }
        while k <= n
            invariant
                rs == self.rec_view(),
                n == rs.len(),
                0 <= k <= n + 1,
                n < usize::MAX,
                chunks == Seq::new((n + 1) as nat, |j: int| le_bytes(record_offset(rs, j), 4)),
                k <= n ==> off == record_offset(rs, k as int),
                record_offset(rs, n as int) == 8 + concat(rs).len(),
                8 + concat(rs).len() <= size,
                out@ == with_pad + concat(chunks.take(k as int)),
            decreases n + 1 - k,
        {
            proof {
                lemma_concat_step(chunks, k as int);
                if k < n {
                    lemma_record_offset_step(rs, k as int);
                    lemma_concat_step(rs, k as int);
                    lemma_concat_prefix_len(rs, k + 1);
                }
            }
            push_le(&mut out, off, 4);
            if k < n {
                off = off + self.records[k].len() as u64;
            }
            k = k + 1;
            assert(out@ =~= with_pad + concat(chunks.take(k as int)));
        }
        proof {
            lemma_record_offset_end(rs);
            assert(chunks.take((n + 1) as int) =~= chunks);
        }
        let ghost with_offsets = out@;
        push_le(&mut out, ordinal_to_field(self.footer.start_ordinal), 5);
        push_le(&mut out, n as u64, 3);
        push_le(&mut out, size as u64, 4);
        out.push(self.footer.page_type.to_u8());
        out.push(self.footer.version);
        push_le(&mut out, self.footer.footer_length as u64, 2);
        assert(out@ =~= page_image(
            rs,
            self.footer.start_ordinal as int,
            page_type_byte(self.footer.page_type),
            self.footer.version,
            self.footer.footer_length as nat,
            size as nat,
        ));
        out
    }
}


/// Stored offsets that never decrease between neighbours never decrease at all.
pub proof fn lemma_offsets_chain(b: Seq<u8>, os: int, n: nat, a: int, c: int)
    requires
        forall|i: int| 0 <= i < n ==> stored_offset(b, os, i) <= #[trigger] stored_offset(b, os, i + 1),
        0 <= a <= c <= n,
    ensures
        stored_offset(b, os, a) <= stored_offset(b, os, c),
    decreases c - a,
{
    if a < c {
        lemma_offsets_chain(b, os, n, a + 1, c);
        assert(stored_offset(b, os, a) <= stored_offset(b, os, a + 1));
    }
}

impl Page {
    /// Deserialize a page from exactly its bytes.
    ///
    /// Checks, in order: at least 24 bytes, the magic, the footer in the
    /// last 16 bytes, header and footer page sizes equal, the page size
    /// equal to the buffer's length, room for the offsets, and offsets that
    /// start after the header, never decrease and end before the offsets.
    pub fn deserialize(buf: &[u8]) -> (r: Result<Page, SlabError>)
        ensures
            match r {
                Ok(p) => page_parses(buf@) && p.footer == decode_footer(tail_footer(buf@))
                    && p.rec_view() == page_records(buf@),
                Err(e) => !page_parses(buf@) && page_error(buf@, e),
            },
    {
        let len = buf.len();
        if len < HEADER_SIZE + FOOTER_V1_SIZE {
            return Err(SlabError::TruncatedPage { expected: HEADER_SIZE + FOOTER_V1_SIZE, actual: len });
        }
        if buf[0] != MAGIC[0] || buf[1] != MAGIC[1] || buf[2] != MAGIC[2] || buf[3] != MAGIC[3] {
            proof {
                if buf@.subrange(0, 4) == magic_seq() {
                    assert(buf@[0] == buf@.subrange(0, 4)[0]);
                    assert(buf@[1] == buf@.subrange(0, 4)[1]);
                    assert(buf@[2] == buf@.subrange(0, 4)[2]);
                    assert(buf@[3] == buf@.subrange(0, 4)[3]);
                }
            }
            return Err(SlabError::InvalidMagic);
        }
        assert(buf@.subrange(0, 4) =~= magic_seq());
        let tail = slice_subrange(buf, len - FOOTER_V1_SIZE, len);
        assert(tail@ =~= tail_footer(buf@));
        let footer = match Footer::read_from(tail) {
            Ok(f) => f,
            Err(e) => {
                return Err(e);
            },
        };
        proof {
            lemma_le_value_bound(buf@.subrange(4, 8));
            lemma_le_value_bound(tail@.subrange(5, 8));
            lemma_pow256_values();
            assert(footer.record_count < 0x100_0000);
        }
        let header_size = read_le(buf, 4, 4) as u32;
        if header_size != footer.page_size {
            return Err(SlabError::PageSizeMismatch { header: header_size, footer: footer.page_size });
        }
        if footer.page_size as usize != len {
            return Err(SlabError::TruncatedPage { expected: footer.page_size as usize, actual: len });
        }
        let n = footer.record_count as usize;
        let flen = footer.footer_length as usize;
        let need = HEADER_SIZE + flen + 4 * (n + 1);
        if need > len {
            return Err(SlabError::TruncatedPage { expected: need, actual: len });
        }
        let os = len - flen - 4 * (n + 1);
        let ghost b = buf@;
        let ghost gos = os as int;
        proof {
            lemma_le_value_bound(b.subrange(gos, gos + 4));
        }
        let mut prev = read_le(buf, os, 4) as usize;
        if prev < HEADER_SIZE {
            return Err(SlabError::InvalidFooter("record offsets out of bounds".to_owned()));
        }
        let mut records: Vec<Vec<u8>> = Vec::new();
        let mut i: usize = 0;
        while i < n
            invariant
                b == buf@,
                gos == os,
                len == b.len(),
                os + 4 * (n + 1) <= len,
                footer == decode_footer(tail_footer(b)),
                n == footer.record_count,
                b.len() >= 24,
                b.subrange(0, 4) == magic_seq(),
                footer_valid(tail_footer(b)),
                le_value(b.subrange(4, 8)) == footer.page_size,
                footer.page_size == len,
                8 + footer.footer_length + 4 * (footer.record_count + 1) <= len,
                gos == offsets_start(b, footer),
                0 <= i <= n,
                prev == stored_offset(b, gos, i as int),
                stored_offset(b, gos, 0) >= 8,
                prev <= os || i == 0,
                forall|j: int| 0 <= j < i ==> stored_offset(b, gos, j) <= #[trigger] stored_offset(b, gos, j + 1),
                forall|j: int| 1 <= j <= i ==> #[trigger] stored_offset(b, gos, j) <= os,
                records_view(records@) == parsed_records(b, gos, n as nat).take(i as int),
            decreases n - i,
        {
            let at = os + 4 * (i + 1);
            proof {
                lemma_le_value_bound(b.subrange(at as int, at + 4));
                lemma_pow256_values();
            }
            let next = read_le(buf, at, 4) as usize;
            assert(next == stored_offset(b, gos, i + 1));
            if next < prev || next > os {
                proof {
                    if offsets_ok(b, gos, n as nat) {
                        assert(stored_offset(b, gos, i as int) <= stored_offset(b, gos, i + 1));
                        lemma_offsets_chain(b, gos, n as nat, i + 1, n as int);
                    }
                }
                return Err(SlabError::InvalidFooter("record offsets out of bounds".to_owned()));
            }
            let rec = slice_to_vec(slice_subrange(buf, prev, next));
            assert(rec@ == parsed_records(b, gos, n as nat)[i as int]);
            let ghost old_view = records_view(records@);
            records.push(rec);
            assert(records_view(records@) =~= old_view.push(rec@));
            prev = next;
            i = i + 1;
            assert(records_view(records@) =~= parsed_records(b, gos, n as nat).take(i as int));
        }
        if prev > os {
            return Err(SlabError::InvalidFooter("record offsets out of bounds".to_owned()));
        }
        assert(parsed_records(b, gos, n as nat).take(n as int) =~= parsed_records(b, gos, n as nat));
        Ok(Page { footer, records })
    }
}

/// The footer of a page image, as a value.
pub open spec fn image_footer(rs: Seq<Seq<u8>>, start: int, ptype: u8, size: nat) -> Footer {
    Footer {
        start_ordinal: start as i64,
        record_count: rs.len() as u32,
        page_size: size as u32,
        page_type: crate::footer::page_type_of(ptype),
        version: 1,
        footer_length: 16,
    }
}

pub proof fn lemma_page_image_len(rs: Seq<Seq<u8>>, start: int, ptype: u8, size: nat)
    requires
        min_page_size(rs) <= size,
    ensures
        page_image(rs, start, ptype, 1, 16, size).len() == size,
        offsets_image(rs).len() == 4 * (rs.len() + 1),
{
    let chunks = Seq::new((rs.len() + 1) as nat, |j: int| le_bytes(record_offset(rs, j), 4));
    assert forall|j: int| 0 <= j < chunks.len() implies (#[trigger] chunks[j]).len() == 4 by {
        lemma_le_bytes_len(record_offset(rs, j), 4);
    }
    lemma_concat_uniform(chunks, 4, chunks.len() as int);
    assert(chunks.take(chunks.len() as int) =~= chunks);
    lemma_le_bytes_len(size, 4);
    lemma_le_bytes_len(crate::footer::ordinal_field(start), 5);
    lemma_le_bytes_len(rs.len(), 3);
    lemma_le_bytes_len(16, 2);
}

proof fn lemma_image_offsets(rs: Seq<Seq<u8>>, start: int, ptype: u8, size: nat, i: int)
    requires
        min_page_size(rs) <= size <= 0xffff_ffff,
        0 <= i <= rs.len(),
    ensures
        stored_offset(
            page_image(rs, start, ptype, 1, 16, size),
            (size - 16 - 4 * (rs.len() + 1)) as int,
            i,
        ) == record_offset(rs, i),
{
    let b = page_image(rs, start, ptype, 1, 16, size);
    let n = rs.len();
    let data = concat(rs);
    let os = size - 16 - 4 * (n + 1);
    lemma_page_image_len(rs, start, ptype, size);
    lemma_le_bytes_len(size, 4);
    let chunks = Seq::new((n + 1) as nat, |j: int| le_bytes(record_offset(rs, j), 4));
    assert forall|j: int| 0 <= j < chunks.len() implies (#[trigger] chunks[j]).len() == 4 by {
        lemma_le_bytes_len(record_offset(rs, j), 4);
    }
    assert(8 + data.len() + (size - min_page_size(rs)) == os);
    assert(b.subrange(os as int, (os + 4 * (n + 1)) as int) =~= offsets_image(rs));
    lemma_concat_uniform(chunks, 4, i);
    lemma_concat_index(chunks, i);
    assert(b.subrange(os + 4 * i, os + 4 * i + 4) =~= offsets_image(rs).subrange(4 * i, 4 * i + 4));
    lemma_concat_prefix_len(rs, i);
    lemma_record_offset_end(rs);
    crate::encoding::lemma_le_value_of_bytes(record_offset(rs, i), 4);
    lemma_pow256_values();
    vstd::arithmetic::div_mod::lemma_small_mod(record_offset(rs, i), 0x1_0000_0000);
}

proof fn lemma_image_record(rs: Seq<Seq<u8>>, start: int, ptype: u8, size: nat, i: int)
    requires
        min_page_size(rs) <= size,
        0 <= i < rs.len(),
    ensures
        page_image(rs, start, ptype, 1, 16, size).subrange(
            record_offset(rs, i) as int,
            record_offset(rs, i + 1) as int,
        ) == rs[i],
{
    let b = page_image(rs, start, ptype, 1, 16, size);
    let data = concat(rs);
    lemma_le_bytes_len(size, 4);
    lemma_record_offset_step(rs, i);
    lemma_concat_index(rs, i);
    let lo = record_offset(rs, i) as int;
    assert(b.subrange(lo, lo + rs[i].len()) =~= data.subrange(lo - 8, lo - 8 + rs[i].len()));
}

/// Reading a serialized page gives back its records and footer, for every
/// page whose fields the v1 layout can hold, padded or not.
pub proof fn lemma_page_write_read(rs: Seq<Seq<u8>>, start: int, ptype: u8, size: nat)
    requires
        crate::footer::ordinal_in_range(start),
        ptype == 1 || ptype == 2,
        rs.len() < 0x100_0000,
        min_page_size(rs) <= size <= 0xffff_ffff,
    ensures
        page_parses(page_image(rs, start, ptype, 1, 16, size)),
        page_records(page_image(rs, start, ptype, 1, 16, size)) == rs,
        decode_footer(tail_footer(page_image(rs, start, ptype, 1, 16, size))) == image_footer(
            rs,
            start,
            ptype,
            size,
        ),
{
    let b = page_image(rs, start, ptype, 1, 16, size);
    let n = rs.len();
    let f = image_footer(rs, start, ptype, size);
    lemma_page_image_len(rs, start, ptype, size);
    lemma_pow256_values();
    lemma_le_bytes_len(size, 4);
    let os = (size - 16 - 4 * (n + 1)) as int;
    // the footer
    assert(crate::footer::footer_bytes(f) =~= footer_image(start, n, size, ptype, 1, 16)) by {
        assert(crate::constants::page_type_byte(crate::footer::page_type_of(ptype)) == ptype);
    }
    assert(tail_footer(b) =~= crate::footer::footer_bytes(f) + Seq::<u8>::empty());
    crate::footer::lemma_footer_write_read(f, Seq::<u8>::empty());
    // the header
    assert(b.subrange(0, 4) =~= magic_seq());
    assert(b.subrange(4, 8) =~= le_bytes(size, 4));
    crate::encoding::lemma_le_value_of_bytes(size, 4);
    vstd::arithmetic::div_mod::lemma_small_mod(size, 0x1_0000_0000);
    assert(offsets_start(b, f) == os);
    // the offsets
    assert forall|i: int| 0 <= i <= n implies stored_offset(b, os, i) == #[trigger] record_offset(rs, i) by {
        lemma_image_offsets(rs, start, ptype, size, i);
    }
    assert(rs.take(0) =~= Seq::<Seq<u8>>::empty());
    lemma_record_offset_end(rs);
    assert(stored_offset(b, os, 0) == record_offset(rs, 0));
    assert(stored_offset(b, os, n as int) == record_offset(rs, n as int));
    assert forall|i: int| 0 <= i < n implies stored_offset(b, os, i) <= #[trigger] stored_offset(b, os, i + 1) by {
        lemma_record_offset_step(rs, i);
        assert(stored_offset(b, os, i) == record_offset(rs, i));
        assert(stored_offset(b, os, i + 1) == record_offset(rs, i + 1));
    }
    assert(offsets_ok(b, os, n));
    // the records
    assert forall|i: int| 0 <= i < n implies #[trigger] parsed_records(b, os, n)[i] == rs[i] by {
        assert(stored_offset(b, os, i) == record_offset(rs, i));
        assert(stored_offset(b, os, i + 1) == record_offset(rs, i + 1));
        lemma_image_record(rs, start, ptype, size, i);
    }
    assert(parsed_records(b, os, n) =~= rs);
}

} // verus!
