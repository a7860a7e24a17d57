//! Encoder for the HDT (Header, Dictionary, Triples) binary RDF format.
//!
//! The crate turns a list of RDF triples into the bytes of an HDTv1
//! container: a header in N-Triples, a dictionary in four front-coded
//! sections, and bitmap triples in subject-predicate-object order, each part
//! opened by a control block and guarded by checksums.
//!
//! `builder` puts the container together. `dictionary` and `term_set` part
//! the terms and number them, `log_sequence` front-codes a section,
//! `bitmap_triples` encodes the triples, `common` stores arrays and bit
//! sequences, and `reading` states what a reader finds in the result.

pub mod bitmap_triples;
pub mod builder;
pub mod checksum;
pub mod common;
pub mod control_info;
pub mod dictionary;
pub mod header;
pub mod log_sequence;
pub mod rdf_reader;
pub mod reading;
pub mod term_set;
pub mod text;
pub mod vbyte;
pub mod vocab;
