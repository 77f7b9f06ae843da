//! A verified directory-tree text transformer.
//!
//! Files are decoded as UTF-8 when possible and as little-endian UTF-16
//! otherwise, an ordered list of literal find/replace pairs is applied to the
//! decoded text, and the result is written back in the encoding the file was
//! read with.  A work-list walker mirrors a source directory tree under a
//! destination root while every file passes through that pipeline.

pub mod codec;
pub mod replist;
pub mod subst;
pub mod text;
pub mod walk;
