//! A columnar "shredding" store for nested, JSON-like records.
//!
//! A [`datum::Datum`] is one semi-structured value (scalar, array or keyed
//! object, with an explicit distinction between `null` and a missing key).
//! A [`columnar::Stripe`] decomposes each incoming datum into one flat
//! [`columnar::column::Column`] per distinct path, keeping enough positional
//! metadata (per-depth index buffers and a null bitmap) to reconstruct the
//! original row and array structure.  Every column discovers its concrete
//! type incrementally: it only ever widens, falling back to a tagged union
//! when no single scalar type fits all rows at its path.
//!
//! Floating-point payloads are carried as their IEEE-754 bit patterns
//! (`u64`); [`fbits`] holds the verified conversion from the narrow integer
//! types into that representation.

pub mod bits;
pub mod codec;
pub mod columnar;
pub mod datum;
pub mod fbits;
pub mod laws;
pub mod text;
