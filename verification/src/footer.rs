//! Page footer serialization and deserialization.
//!
//! Every slabtastic page ends with a 16-byte v1 footer:
//!
//! ```text
//! Byte   Field            Width   Encoding
//! 0-4    start_ordinal    5       signed LE (sign-extended on read)
//! 5-7    record_count     3       unsigned LE
//! 8-11   page_size        4       unsigned LE
//! 12     page_type        1       0=Invalid, 1=Pages, 2=Data
//! 13     version          1       must be 1
//! 14-15  footer_length    2       unsigned LE, a multiple of 16, at least 16
//! ```
use vstd::prelude::*;
use vstd::arithmetic::div_mod::{lemma_fundamental_div_mod, lemma_fundamental_div_mod_converse};
use crate::constants::{FOOTER_V1_SIZE, VERSION_1, PageType, page_type_byte};
use crate::encoding::{le_bytes, le_value, pow256, lemma_le_bytes_len, lemma_le_value_bound, lemma_pow256_values, lemma_le_value_of_bytes, lemma_bytes_of_le_value, read_le, write_le_at};
use crate::error::SlabError;
use crate::text::{decimal, push_decimal};
use vstd::string::StringExecFns;

verus! {

/// 2^40: the range of the 5-byte ordinal field.
pub open spec fn ordinal_modulus() -> int {
    0x100_0000_0000
}

/// The 40-bit two's-complement field that stores an ordinal.
pub open spec fn ordinal_field(x: int) -> nat {
    (x % ordinal_modulus()) as nat
}

/// The ordinal that a 40-bit field denotes (bit 39 is the sign).
pub open spec fn ordinal_of_field(v: nat) -> int {
    if v >= 0x80_0000_0000 {
        v - ordinal_modulus()
    } else {
        v as int
    }
}

/// Whether an ordinal fits the 5-byte signed field: -2^39 <= x < 2^39.
pub open spec fn ordinal_in_range(x: int) -> bool {
    -0x80_0000_0000 <= x < 0x80_0000_0000
}

/// The page type that a footer byte denotes (bytes above 2 denote nothing
/// valid and are rejected before this is used).
pub open spec fn page_type_of(b: u8) -> PageType {
    if b == 1 {
        PageType::Pages
    } else if b == 2 {
        PageType::Data
    } else {
        PageType::Invalid
    }
}

/// The 16 footer bytes for the given field values.
pub open spec fn footer_image(
    start: int,
    count: nat,
    size: nat,
    ptype: u8,
    version: u8,
    flen: nat,
) -> Seq<u8> {
    le_bytes(ordinal_field(start), 5) + le_bytes(count, 3) + le_bytes(size, 4) + seq![ptype, version]
        + le_bytes(flen, 2)
}

/// A 16-byte page footer (v1 layout, little-endian).
#[derive(Debug, Clone, Copy, PartialEq, Eq, Structural)]
pub struct Footer {
    /// Starting ordinal for this page (5-byte signed, range +-2^39).
    pub start_ordinal: i64,
    /// Number of records in this page (3-byte unsigned, max 2^24-1).
    pub record_count: u32,
    /// Total page size in bytes.
    pub page_size: u32,
    /// Discriminator for the page type.
    pub page_type: PageType,
    /// Format version (must be 1 for v1).
    pub version: u8,
    /// Length of the footer in bytes (>= 16, multiple of 16).
    pub footer_length: u16,
}

/// The bytes that `write_to` produces for a footer.
pub open spec fn footer_bytes(f: Footer) -> Seq<u8> {
    footer_image(
        f.start_ordinal as int,
        f.record_count as nat,
        f.page_size as nat,
        page_type_byte(f.page_type),
        f.version,
        f.footer_length as nat,
    )
}

/// Whether the first 16 bytes of `b` hold a footer that `read_from` accepts.
pub open spec fn footer_valid(b: Seq<u8>) -> bool {
    &&& b.len() >= 16
    &&& (b[12] == 1 || b[12] == 2)
    &&& b[13] == 1
    &&& le_value(b.subrange(14, 16)) >= 16
    &&& le_value(b.subrange(14, 16)) % 16 == 0
}

/// The footer that the first 16 bytes of `b` denote.
pub open spec fn decode_footer(b: Seq<u8>) -> Footer {
    Footer {
        start_ordinal: ordinal_of_field(le_value(b.subrange(0, 5))) as i64,
        record_count: le_value(b.subrange(5, 8)) as u32,
        page_size: le_value(b.subrange(8, 12)) as u32,
        page_type: page_type_of(b[12]),
        version: b[13],
        footer_length: le_value(b.subrange(14, 16)) as u16,
    }
}

/// The message of the error for a footer buffer of `len` bytes.
pub open spec fn footer_short_text(len: nat) -> Seq<char> {
    "buffer too small: "@ + decimal(len) + " < 16"@
}

/// The message of the error for a footer length field of `len` below 16.
pub open spec fn footer_length_text(len: nat) -> Seq<char> {
    "footer_length "@ + decimal(len) + " < 16"@
}

/// The message of the error for a footer length field of `len` that is not
/// a multiple of 16.
pub open spec fn footer_multiple_text(len: nat) -> Seq<char> {
    "footer_length "@ + decimal(len) + " is not a multiple of 16"@
}

/// The error that `read_from` gives for bytes that hold no valid footer:
/// the first failing check, in the order length, page type, version,
/// footer length at least 16, footer length a multiple of 16.
pub open spec fn footer_error(b: Seq<u8>, e: SlabError) -> bool {
    if b.len() < 16 {
        e matches SlabError::InvalidFooter(m) && m@ == footer_short_text(b.len())
    } else if !(b[12] == 1 || b[12] == 2) {
        e == SlabError::InvalidPageType(b[12])
    } else if b[13] != 1 {
        e == SlabError::InvalidVersion(b[13])
    } else if le_value(b.subrange(14, 16)) < 16 {
        e matches SlabError::InvalidFooter(m) && m@ == footer_length_text(
            le_value(b.subrange(14, 16)),
        )
    } else {
        e matches SlabError::InvalidFooter(m) && m@ == footer_multiple_text(
            le_value(b.subrange(14, 16)),
        )
    }
}

/// The message for a footer buffer that is too short.
fn footer_short_message(len: usize) -> (m: String)
    ensures
        m@ == footer_short_text(len as nat),
{
    let mut m = String::from_str("buffer too small: ");
    push_decimal(&mut m, len as u64);
    m.append(" < 16");
    m
}

/// The message for a footer length below the minimum.
fn footer_length_message(len: u16) -> (m: String)
    ensures
        m@ == footer_length_text(len as nat),
{
    let mut m = String::from_str("footer_length ");
    push_decimal(&mut m, len as u64);
    m.append(" < 16");
    m
}

/// The message for a footer length that is not a multiple of 16.
fn footer_multiple_message(len: u16) -> (m: String)
    ensures
        m@ == footer_multiple_text(len as nat),
{
    let mut m = String::from_str("footer_length ");
    push_decimal(&mut m, len as u64);
    m.append(" is not a multiple of 16");
    m
}

/// The 40-bit field of an ordinal (its low five bytes in two's complement).
pub fn ordinal_to_field(x: i64) -> (r: u64)
    ensures
        r as int == ordinal_field(x as int),
        r < 0x100_0000_0000,
{
    let m: u64 = 0x100_0000_0000;
    if x >= 0 {
        (x as u64) % m
    } else {
        let p: u64 = (-(x + 1)) as u64;
        let r = p % m;
        proof {
            let q = p as int / m as int;
            lemma_fundamental_div_mod(p as int, m as int);
            assert(x as int == (-(q + 1)) * (m as int) + (m - 1 - r)) by (nonlinear_arith)
                requires
                    p as int == (m as int) * q + r,
                    x as int == -(p + 1),
            ;
            lemma_fundamental_div_mod_converse(x as int, m as int, -(q + 1), (m - 1 - r) as int);
        }
        0xff_ffff_ffff - r
    }
}

impl Footer {
    /// Create a new v1 footer with the given parameters.
    pub fn new(start_ordinal: i64, record_count: u32, page_size: u32, page_type: PageType) -> (r:
        Footer)
        ensures
            r == (Footer {
                start_ordinal,
                record_count,
                page_size,
                page_type,
                version: 1,
                footer_length: 16,
            }),
    {
        Footer {
            start_ordinal,
            record_count,
            page_size,
            page_type,
            version: VERSION_1,
            footer_length: 16,
        }
    }

    /// Serialize this footer into the first 16 bytes of `buf`.
    ///
    /// The ordinal keeps its low five bytes and the record count its low
    /// three; the rest of `buf` is left as it was.
    pub fn write_to(&self, buf: &mut [u8])
        requires
            old(buf)@.len() >= 16,
        ensures
            final(buf)@ == footer_bytes(*self) + old(buf)@.subrange(16, old(buf)@.len() as int),
    {
        let ghost b0 = buf@;
        let field = ordinal_to_field(self.start_ordinal);
        write_le_at(buf, 0, field, 5);
        write_le_at(buf, 5, self.record_count as u64, 3);
        write_le_at(buf, 8, self.page_size as u64, 4);
        buf[12] = self.page_type.to_u8();
        buf[13] = self.version;
        write_le_at(buf, 14, self.footer_length as u64, 2);
        proof {
            lemma_le_bytes_len(field as nat, 5);
            lemma_le_bytes_len(self.record_count as nat, 3);
            lemma_le_bytes_len(self.page_size as nat, 4);
            lemma_le_bytes_len(self.footer_length as nat, 2);
            assert(buf@ =~= footer_bytes(*self) + b0.subrange(16, b0.len() as int));
        }
    }

    /// Deserialize a footer from the first 16 bytes of `buf`.
    ///
    /// Fails on a buffer shorter than 16 bytes, a page type other than
    /// Pages or Data, a version other than 1, or a footer length below 16 or
    /// not a multiple of 16.
    pub fn read_from(buf: &[u8]) -> (r: Result<Footer, SlabError>)
        ensures
            match r {
                Ok(f) => footer_valid(buf@) && f == decode_footer(buf@),
                Err(e) => !footer_valid(buf@) && footer_error(buf@, e),
            },
    {
        if buf.len() < FOOTER_V1_SIZE {
            return Err(SlabError::InvalidFooter(footer_short_message(buf.len())));
        }
        let ord_raw = read_le(buf, 0, 5);
        proof {
            lemma_le_value_bound(buf@.subrange(0, 5));
            lemma_le_value_bound(buf@.subrange(5, 8));
            lemma_le_value_bound(buf@.subrange(8, 12));
            lemma_le_value_bound(buf@.subrange(14, 16));
            lemma_pow256_values();
        }
        let start_ordinal: i64 = if ord_raw >= 0x80_0000_0000 {
            ord_raw as i64 - 0x100_0000_0000
        } else {
            ord_raw as i64
        };
        let record_count = read_le(buf, 5, 3) as u32;
        let page_size = read_le(buf, 8, 4) as u32;
        let page_type_raw = buf[12];
        let page_type = match PageType::from_u8(page_type_raw) {
            Some(t) => t,
            None => {
                return Err(SlabError::InvalidPageType(page_type_raw));
            },
        };
        if page_type == PageType::Invalid {
            return Err(SlabError::InvalidPageType(page_type_raw));
        }
        let version = buf[13];
        if version != VERSION_1 {
            return Err(SlabError::InvalidVersion(version));
        }
        let footer_length = read_le(buf, 14, 2) as u16;
        if footer_length < 16 {
            return Err(SlabError::InvalidFooter(footer_length_message(footer_length)));
        }
        if footer_length % 16 != 0 {
            return Err(SlabError::InvalidFooter(footer_multiple_message(footer_length)));
        }
        Ok(Footer { start_ordinal, record_count, page_size, page_type, version, footer_length })
    }
}

/// Whether a footer's fields can be represented exactly in the v1 layout and
/// are accepted when read back.
pub open spec fn footer_fields_valid(f: Footer) -> bool {
    &&& ordinal_in_range(f.start_ordinal as int)
    &&& f.record_count < 0x100_0000
    &&& f.page_type != PageType::Invalid
    &&& f.version == 1
    &&& f.footer_length >= 16
    &&& f.footer_length % 16 == 0
}

proof fn lemma_ordinal_field_roundtrip(x: int)
    requires
        ordinal_in_range(x),
    ensures
        ordinal_field(x) < ordinal_modulus(),
        ordinal_of_field(ordinal_field(x)) == x,
{
    if x < 0 {
        lemma_fundamental_div_mod_converse(x, ordinal_modulus(), -1, x + ordinal_modulus());
    } else {
        lemma_fundamental_div_mod_converse(x, ordinal_modulus(), 0, x);
    }
}

proof fn lemma_field_ordinal_roundtrip(v: nat)
    requires
        v < ordinal_modulus(),
    ensures
        ordinal_field(ordinal_of_field(v)) == v,
        ordinal_in_range(ordinal_of_field(v)),
{
    let x = ordinal_of_field(v);
    if v >= 0x80_0000_0000 {
        lemma_fundamental_div_mod_converse(x, ordinal_modulus(), -1, v as int);
    } else {
        lemma_fundamental_div_mod_converse(x, ordinal_modulus(), 0, v as int);
    }
}

/// Reading what `write_to` wrote gives back the same footer, for every footer
/// whose fields the v1 layout can hold, whatever bytes follow it.
pub proof fn lemma_footer_write_read(f: Footer, rest: Seq<u8>)
    requires
        footer_fields_valid(f),
    ensures
        footer_valid(footer_bytes(f) + rest),
        decode_footer(footer_bytes(f) + rest) == f,
{
    let b = footer_bytes(f) + rest;
    let s = f.start_ordinal as int;
    lemma_ordinal_field_roundtrip(s);
    lemma_le_bytes_len(ordinal_field(s), 5);
    lemma_le_bytes_len(f.record_count as nat, 3);
    lemma_le_bytes_len(f.page_size as nat, 4);
    lemma_le_bytes_len(f.footer_length as nat, 2);
    lemma_pow256_values();
    assert(b.subrange(0, 5) =~= le_bytes(ordinal_field(s), 5));
    assert(b.subrange(5, 8) =~= le_bytes(f.record_count as nat, 3));
    assert(b.subrange(8, 12) =~= le_bytes(f.page_size as nat, 4));
    assert(b.subrange(14, 16) =~= le_bytes(f.footer_length as nat, 2));
    lemma_le_value_of_bytes(ordinal_field(s), 5);
    lemma_le_value_of_bytes(f.record_count as nat, 3);
    lemma_le_value_of_bytes(f.page_size as nat, 4);
    lemma_le_value_of_bytes(f.footer_length as nat, 2);
    vstd::arithmetic::div_mod::lemma_small_mod(ordinal_field(s), pow256(5));
    vstd::arithmetic::div_mod::lemma_small_mod(f.record_count as nat, pow256(3));
    vstd::arithmetic::div_mod::lemma_small_mod(f.page_size as nat, pow256(4));
    vstd::arithmetic::div_mod::lemma_small_mod(f.footer_length as nat, pow256(2));
    assert(b[12] == page_type_byte(f.page_type));
    assert(b[13] == f.version);
    assert(decode_footer(b) =~= f);
}

/// Writing a footer that `read_from` accepted reproduces its 16 bytes.
pub proof fn lemma_footer_read_write(b: Seq<u8>)
    requires
        footer_valid(b),
    ensures
        footer_bytes(decode_footer(b)) == b.subrange(0, 16),
        footer_fields_valid(decode_footer(b)),
{
    let f = decode_footer(b);
    lemma_pow256_values();
    lemma_le_value_bound(b.subrange(0, 5));
    lemma_le_value_bound(b.subrange(5, 8));
    lemma_le_value_bound(b.subrange(8, 12));
    lemma_le_value_bound(b.subrange(14, 16));
    lemma_field_ordinal_roundtrip(le_value(b.subrange(0, 5)));
    lemma_bytes_of_le_value(b.subrange(0, 5));
    lemma_bytes_of_le_value(b.subrange(5, 8));
    lemma_bytes_of_le_value(b.subrange(8, 12));
    lemma_bytes_of_le_value(b.subrange(14, 16));
    assert(footer_bytes(f) =~= b.subrange(0, 16));
}

} // verus!
