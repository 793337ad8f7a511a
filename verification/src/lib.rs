//! A minimal persistent row store: one fixed-schema table backed by a flat
//! file of fixed-size pages.
//!
//! The storage core lives here, fully verified: the fixed-width record codec,
//! the in-memory page, the pager that resolves page numbers to resident
//! pages, and the table with its insert and point-lookup operations.  File
//! I/O itself stays outside the library; callers hand in the bytes a page
//! occupies on disk and receive the bytes a page must be written back as.

pub mod row;
pub mod codec;
pub mod page;
pub mod pager;
pub mod table;
pub mod input;
