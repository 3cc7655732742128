//! Writer configuration: page size thresholds and alignment.
use vstd::prelude::*;
use crate::constants::{MAX_PAGE_SIZE, MIN_PAGE_SIZE};
use crate::error::SlabError;

verus! {

/// Page size settings for a writer.
///
/// A valid configuration has `512 <= min_page_size <= preferred_page_size
/// <= max_page_size`. Pages are flushed once they reach the preferred size;
/// a single record must fit a page of the maximum size; with alignment on,
/// every data page is padded to a multiple of the minimum size.
#[derive(Debug, Clone, Copy, PartialEq, Eq, Structural)]
pub struct WriterConfig {
    /// Minimum page size in bytes (at least 512); the alignment unit.
    pub min_page_size: u32,
    /// Page size at which the writer flushes the current page.
    pub preferred_page_size: u32,
    /// Largest page a single record may need.
    pub max_page_size: u32,
    /// Pad data pages to multiples of `min_page_size`.
    pub page_alignment: bool,
}

/// `len` rounded up to a multiple of `m`.
pub open spec fn round_up(len: nat, m: nat) -> nat {
    if m == 0 {
        len
    } else {
        (((len + m - 1) as nat / m) * m) as nat
    }
}

/// What `WriterConfig::new` returns for the given sizes.
pub open spec fn config_new_result(
    min_page_size: u32,
    preferred_page_size: u32,
    max_page_size: u32,
    page_alignment: bool,
    r: Result<WriterConfig, SlabError>,
) -> bool {
    match r {
        Ok(c) => c == (WriterConfig {
            min_page_size,
            preferred_page_size,
            max_page_size,
            page_alignment,
        }) && c.valid(),
        Err(e) => if min_page_size < 512 {
            e == SlabError::PageTooSmall(min_page_size)
        } else if preferred_page_size < min_page_size {
            e == SlabError::PageTooSmall(preferred_page_size)
        } else {
            preferred_page_size > max_page_size && e == SlabError::PageTooLarge(
                preferred_page_size as u64,
            )
        },
    }
}

impl WriterConfig {
    /// Whether the sizes are ordered and above the absolute minimum.
    pub open spec fn valid(&self) -> bool {
        &&& 512 <= self.min_page_size
        &&& self.min_page_size <= self.preferred_page_size
        &&& self.preferred_page_size <= self.max_page_size
    }

    /// The size a page of `len` bytes is padded to.
    pub open spec fn aligned(&self, len: nat) -> nat {
        if self.page_alignment {
            round_up(len, self.min_page_size as nat)
        } else {
            len
        }
    }

    /// Create a configuration, checking its sizes.
    ///
    /// A minimum below 512 is rejected as `PageTooSmall(min)`, a preferred
    /// size below the minimum as `PageTooSmall(preferred)`, and a preferred
    /// size above the maximum as `PageTooLarge(preferred)`.
    pub fn new(
        min_page_size: u32,
        preferred_page_size: u32,
        max_page_size: u32,
        page_alignment: bool,
    ) -> (r: Result<WriterConfig, SlabError>)
        ensures
            config_new_result(min_page_size, preferred_page_size, max_page_size, page_alignment, r),
    {
        if min_page_size < MIN_PAGE_SIZE {
            return Err(SlabError::PageTooSmall(min_page_size));
        }
        if preferred_page_size < min_page_size {
            return Err(SlabError::PageTooSmall(preferred_page_size));
        }
        if preferred_page_size > max_page_size {
            return Err(SlabError::PageTooLarge(preferred_page_size as u64));
        }
        Ok(WriterConfig { min_page_size, preferred_page_size, max_page_size, page_alignment })
    }

    /// The size a page of `len` bytes is padded to: `len` itself without
    /// alignment, else `len` rounded up to a multiple of `min_page_size`.
    pub fn aligned_size(&self, len: usize) -> (r: usize)
        requires
            self.aligned(len as nat) <= usize::MAX,
        ensures
            r == self.aligned(len as nat),
    {
        let a = self.aligned_len(len as u64);
        a as usize
    }

    /// `aligned_size` on 64-bit lengths.
    pub fn aligned_len(&self, len: u64) -> (r: u64)
        requires
            self.aligned(len as nat) <= u64::MAX,
        ensures
            r == self.aligned(len as nat),
            self.aligned(len as nat) >= len,
            self.aligned(len as nat) < len + 0x1_0000_0000,
            self.page_alignment && self.min_page_size > 0 ==> self.aligned(len as nat)
                % (self.min_page_size as nat) == 0,
    {
        if self.page_alignment && self.min_page_size > 0 {
            let m = self.min_page_size as u64;
            proof {
                lemma_round_up(len as nat, m as nat);
                lemma_round_up_split(len as nat, m as nat);
            }
            let q = len / m;
            if len % m == 0 {
                q * m
            } else {
                proof {
                    assert((q + 1) * m == q * m + m) by (nonlinear_arith);
                    assert(q * m <= len) by {
                        vstd::arithmetic::div_mod::lemma_fundamental_div_mod(len as int, m as int);
                    }
                }
                (q + 1) * m
            }
        } else {
            proof {
                if self.page_alignment {
                    assert(round_up(len as nat, 0) == len);
                }
            }
            len
        }
    }
}

/// Rounding up is the quotient, plus one unless the division is exact,
/// times the unit.
pub proof fn lemma_round_up_split(len: nat, m: nat)
    requires
        m > 0,
    ensures
        round_up(len, m) == if len % m == 0 {
            (len / m) * m
        } else {
            (len / m + 1) * m
        },
{
    let q = len / m;
    let r = len % m;
    vstd::arithmetic::div_mod::lemma_fundamental_div_mod(len as int, m as int);
    vstd::arithmetic::div_mod::lemma_mod_pos_bound(len as int, m as int);
    if r == 0 {
        vstd::arithmetic::div_mod::lemma_fundamental_div_mod_converse(
            (len + m - 1) as int,
            m as int,
            q as int,
            (m - 1) as int,
        );
    } else {
        assert((len + m - 1) as int == (q + 1) * m + (r - 1)) by (nonlinear_arith)
            requires
                len == m * q + r,
        ;
        vstd::arithmetic::div_mod::lemma_fundamental_div_mod_converse(
            (len + m - 1) as int,
            m as int,
            (q + 1) as int,
            (r - 1) as int,
        );
    }
}

/// Rounding up stays within one unit and lands on a multiple.
pub proof fn lemma_round_up(len: nat, m: nat)
    requires
        m > 0,
    ensures
        len <= round_up(len, m) < len + m,
        round_up(len, m) % m == 0,
        round_up(len, m) == ((len + m - 1) as nat / m) * m,
{
    let q = (len + m - 1) as nat / m;
    vstd::arithmetic::div_mod::lemma_fundamental_div_mod((len + m - 1) as int, m as int);
    let r = (len + m - 1) as int % m as int;
    assert(0 <= r < m) by {
        vstd::arithmetic::div_mod::lemma_mod_pos_bound((len + m - 1) as int, m as int);
    }
    assert(q * m == len + m - 1 - r) by (nonlinear_arith)
        requires
            len + m - 1 == m * q + r,
    ;
    vstd::arithmetic::div_mod::lemma_mod_multiples_basic(q as int, m as int);
}

/// Padding keeps a page at least as large and adds less than 2^32 bytes.
pub proof fn lemma_aligned_bounds(c: WriterConfig, len: nat)
    ensures
        len <= c.aligned(len) < len + 0x1_0000_0000,
{
    if c.page_alignment && c.min_page_size > 0 {
        lemma_round_up(len, c.min_page_size as nat);
    }
}

/// Padding adds at most one minimum page size.
pub proof fn lemma_aligned_within_unit(c: WriterConfig, len: nat)
    ensures
        len <= c.aligned(len) <= len + c.min_page_size,
{
    if c.page_alignment && c.min_page_size > 0 {
        lemma_round_up(len, c.min_page_size as nat);
    }
}

impl Default for WriterConfig {
    /// Defaults: 512-byte minimum, 64 KiB preferred, 2^32 - 1 maximum, no
    /// alignment.
    fn default() -> (r: WriterConfig)
        ensures
            r == (WriterConfig {
                min_page_size: 512,
                preferred_page_size: 65536,
                max_page_size: 0xffff_ffff,
                page_alignment: false,
            }),
            r.valid(),
    {
        WriterConfig {
            min_page_size: MIN_PAGE_SIZE,
            preferred_page_size: 65536,
            max_page_size: MAX_PAGE_SIZE,
            page_alignment: false,
        }
    }
}

} // verus!
