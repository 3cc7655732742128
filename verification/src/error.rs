//! Error type for slabtastic operations.
use vstd::prelude::*;
use vstd::string::StringExecFns;
use crate::text::{decimal, push_decimal, push_signed_decimal, signed_decimal};

verus! {

/// Declares `std::io::Error` so that a slab error can carry one.
#[verifier::external_type_specification]
#[verifier::external_body]
pub struct ExIoError(std::io::Error);

/// Errors produced by slabtastic operations.
#[derive(Debug)]
pub enum SlabError {
    /// The magic bytes do not match "SLAB".
    InvalidMagic,
    /// The page version is not recognized.
    InvalidVersion(u8),
    /// The page type byte is not a valid variant.
    InvalidPageType(u8),
    /// The page size in the header does not match the footer.
    PageSizeMismatch { header: u32, footer: u32 },
    /// The page size is below the minimum (512 bytes).
    PageTooSmall(u32),
    /// The page size exceeds the maximum.
    PageTooLarge(u64),
    /// A single record exceeds the capacity of a page.
    RecordTooLarge { record_size: usize, max_size: usize },
    /// The requested ordinal is not present in the file.
    OrdinalNotFound(i64),
    /// The footer data is malformed.
    InvalidFooter(String),
    /// The page data is truncated or incomplete.
    TruncatedPage { expected: usize, actual: usize },
    /// An underlying I/O error.
    Io(std::io::Error),
}

impl From<std::io::Error> for SlabError {
    /// Wrap an I/O error.
    fn from(err: std::io::Error) -> (r: SlabError) {
        SlabError::Io(err)
    }
}

impl vstd::std_specs::convert::FromSpecImpl<std::io::Error> for SlabError {
    open spec fn obeys_from_spec() -> bool {
        true
    }

    open spec fn from_spec(v: std::io::Error) -> SlabError {
        SlabError::Io(v)
    }
}

/// The message of an error other than `Io`; for `Io` it is the prefix of
/// the message, which goes on with the I/O error's own text.
pub open spec fn slab_error_text(e: SlabError) -> Seq<char> {
    match e {
        SlabError::InvalidMagic => "invalid magic bytes (expected SLAB)"@,
        SlabError::InvalidVersion(v) => "invalid page version: "@ + decimal(v as nat),
        SlabError::InvalidPageType(t) => "invalid page type: "@ + decimal(t as nat),
        SlabError::PageSizeMismatch { header, footer } => "page size mismatch: header="@
            + decimal(header as nat) + ", footer="@ + decimal(footer as nat),
        SlabError::PageTooSmall(s) => "page size "@ + decimal(s as nat) + " below minimum 512"@,
        SlabError::PageTooLarge(s) => "page size "@ + decimal(s as nat) + " exceeds maximum"@,
        SlabError::RecordTooLarge { record_size, max_size } => "record size "@ + decimal(
            record_size as nat,
        ) + " exceeds max page capacity "@ + decimal(max_size as nat),
        SlabError::OrdinalNotFound(o) => "ordinal "@ + signed_decimal(o as int) + " not found"@,
        SlabError::InvalidFooter(m) => "invalid footer: "@ + m@,
        SlabError::TruncatedPage { expected, actual } => "truncated page: expected "@ + decimal(
            expected as nat,
        ) + " bytes, got "@ + decimal(actual as nat),
        SlabError::Io(_) => "I/O error: "@,
    }
}

impl SlabError {
    /// The error's message. For `Io` it is "I/O error: " followed by the
    /// I/O error's own text, which std's `Display` for `std::io::Error`
    /// provides and which is not stated here.
    pub fn message(&self) -> (m: String)
        ensures
            !(self is Io) ==> m@ == slab_error_text(*self),
            self is Io ==> slab_error_text(*self).is_prefix_of(m@),
    {
        match self {
            SlabError::InvalidMagic => String::from_str("invalid magic bytes (expected SLAB)"),
            SlabError::InvalidVersion(v) => {
                let mut m = String::from_str("invalid page version: ");
                push_decimal(&mut m, *v as u64);
                m
            },
            SlabError::InvalidPageType(t) => {
                let mut m = String::from_str("invalid page type: ");
                push_decimal(&mut m, *t as u64);
                m
            },
            SlabError::PageSizeMismatch { header, footer } => {
                let mut m = String::from_str("page size mismatch: header=");
                push_decimal(&mut m, *header as u64);
                m.append(", footer=");
                push_decimal(&mut m, *footer as u64);
                m
            },
            SlabError::PageTooSmall(s) => {
                let mut m = String::from_str("page size ");
                push_decimal(&mut m, *s as u64);
                m.append(" below minimum 512");
                m
            },
            SlabError::PageTooLarge(s) => {
                let mut m = String::from_str("page size ");
                push_decimal(&mut m, *s);
                m.append(" exceeds maximum");
                m
            },
            SlabError::RecordTooLarge { record_size, max_size } => {
                let mut m = String::from_str("record size ");
                push_decimal(&mut m, *record_size as u64);
                m.append(" exceeds max page capacity ");
                push_decimal(&mut m, *max_size as u64);
                m
            },
            SlabError::OrdinalNotFound(o) => {
                let mut m = String::from_str("ordinal ");
                push_signed_decimal(&mut m, *o);
                m.append(" not found");
                m
            },
            SlabError::InvalidFooter(msg) => {
                let mut m = String::from_str("invalid footer: ");
                m.append(msg.as_str());
                m
            },
            SlabError::TruncatedPage { expected, actual } => {
                let mut m = String::from_str("truncated page: expected ");
                push_decimal(&mut m, *expected as u64);
                m.append(" bytes, got ");
                push_decimal(&mut m, *actual as u64);
                m
            },
            SlabError::Io(e) => {
                let mut m = String::from_str("I/O error: ");
                let text = e.to_string();
                m.append(text.as_str());
                m
            },
        }
    }
}

} // verus!
