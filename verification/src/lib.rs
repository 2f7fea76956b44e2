//! Bencode: decoding of the compact, self-delimiting binary encoding used by
//! peer-to-peer metadata formats into a tagged value tree, and encoding of
//! such a tree back to its canonical wire form.
//!
//! The decoder is a verified recursive-descent parser over a byte buffer; the
//! encoder is a verified emitter that sorts dictionary keys into canonical
//! byte-lexicographic order.
//!
//! - `value` holds the tagged tree `BDecodedChunk`, the error kinds, and the
//!   mathematical model every contract speaks of.
//! - `grammar` defines the decoder's exact behaviour as total spec functions.
//! - `decode` implements the decoder against those spec functions: `bdecode`,
//!   the typed entry points, and the per-kind routines.
//! - `encode` implements the canonical encoder and the wire-form traits.
//! - `laws` proves the round-trip laws: integers and byte strings decode back
//!   from their encodings, every decoded tree is well-formed, and
//!   decode-encode-decode is the identity after the first pass.

pub mod decode;
pub mod encode;
pub mod grammar;
pub mod laws;
pub mod value;
