//! Format constants for the slabtastic wire format.
use vstd::prelude::*;

verus! {

/// Magic bytes identifying a slabtastic page: ASCII "SLAB".
pub const MAGIC: [u8; 4] = [0x53u8, 0x4cu8, 0x41u8, 0x42u8];

/// Size of the page header in bytes (4 magic + 4 page_size).
pub const HEADER_SIZE: usize = 8;

/// Minimum allowed page size in bytes (2^9).
pub const MIN_PAGE_SIZE: u32 = 512;

/// Maximum allowed page size in bytes (2^32 - 1).
pub const MAX_PAGE_SIZE: u32 = 0xffff_ffffu32;

/// Size of the v1 page footer in bytes.
pub const FOOTER_V1_SIZE: usize = 16;

/// Version number for the v1 format.
pub const VERSION_1: u8 = 1;

/// Conventional file extension for slabtastic files, with its leading dot.
pub const SLAB_EXTENSION: &'static str = ".slab";

/// Page type discriminator (1-byte enum in the footer).
///
/// Its wire values are 0 (`Invalid`), 1 (`Pages`) and 2 (`Data`), the
/// declaration order of the variants.
#[derive(Debug, Clone, Copy, PartialEq, Eq, Structural)]
pub enum PageType {
    /// Invalid / uninitialized page (value 0); always rejected when read.
    Invalid,
    /// Pages page, the file-level index (value 1).
    Pages,
    /// Data page holding user records (value 2).
    Data,
}

/// The wire byte of a page type.
pub open spec fn page_type_byte(t: PageType) -> u8 {
    match t {
        PageType::Invalid => 0,
        PageType::Pages => 1,
        PageType::Data => 2,
    }
}

/// The magic bytes as a sequence.
pub open spec fn magic_seq() -> Seq<u8> {
    seq![0x53u8, 0x4cu8, 0x41u8, 0x42u8]
}

impl PageType {
    /// Convert a raw byte to a `PageType`: 0, 1 and 2 map to their
    /// variants, every other byte to `None`.
    pub fn from_u8(value: u8) -> (r: Option<PageType>)
        ensures
            value <= 2 ==> r is Some && page_type_byte(r->0) == value,
            value > 2 ==> r is None,
    {
        match value {
            0 => Some(PageType::Invalid),
            1 => Some(PageType::Pages),
            2 => Some(PageType::Data),
            _ => None,
        }
    }

    /// The wire byte of this page type.
    pub fn to_u8(self) -> (r: u8)
        ensures
            r == page_type_byte(self),
    {
        match self {
            PageType::Invalid => 0,
            PageType::Pages => 1,
            PageType::Data => 2,
        }
    }
}

/// Reading back the byte of a page type gives the same page type.
pub proof fn lemma_page_type_byte_injective(a: PageType, b: PageType)
    ensures
        page_type_byte(a) == page_type_byte(b) ==> a == b,
        page_type_byte(a) <= 2,
{
}

} // verus!
