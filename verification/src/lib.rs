//! Reading of bibliography databases in the BibTeX exchange format.
//!
//! The text of a database is turned into macros and entries whose names and
//! values are spans of the buffer they were read from, so that every value can
//! still say where in the source it stands.

pub mod bcf;
pub mod bibtex;
