//! Univariate polynomials kept as two index-aligned sequences: signed integer
//! degrees and opaque 64-bit coefficient payloads. Construction validates the
//! lengths and stable-sorts the terms by ascending degree; differentiation and
//! evaluation do the term bookkeeping, with the coefficient arithmetic
//! supplied by the caller.

pub mod poly;
pub mod sorting;
pub mod text;
