//! Extraction of a register-map model from IP-XACT documents.
//!
//! An XML document is held as a flat sequence of elements in document order,
//! each with its nesting level ([`xml`]). Address-space segments are gathered
//! from every document first ([`segments`]); memory maps are then resolved
//! against that segment table and assembled into register blocks ([`blocks`]).
//!
//! Documents are read with roxmltree ([`parse`]); keyed collections are
//! [`table::Table`]s; [`model`] holds the entities and the update semantics
//! that both passes share, and [`laws`] the properties proved of them.

pub mod blocks;
pub mod laws;
pub mod model;
pub mod parse;
pub mod segments;
pub mod table;
pub mod text;
pub mod xml;
