//! Slabtastic: a streamable, random-accessible, appendable data layout for
//! non-uniform records addressed by ordinal.
//!
//! The library holds the wire format (footers, pages, the pages page), the
//! writer that packs records into pages, and the reader that finds a record
//! by ordinal. A slab file is handled here as its bytes; moving those bytes
//! to and from disk is left to the caller.

pub mod config;
pub mod constants;
pub mod encoding;
pub mod error;
pub mod maintenance;
pub mod footer;
pub mod page;
pub mod pages_page;
pub mod reader;
pub mod report;
pub mod text;
pub mod writer;

pub use constants::PageType;
pub use error::SlabError;
pub use footer::Footer;
pub use page::Page;
pub use pages_page::{PageEntry, PagesPage};
pub use config::WriterConfig;
pub use writer::SlabWriter;
pub use reader::{SlabBatchIter, SlabReader};
