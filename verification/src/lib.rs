//! Beads: a compact, typed, columnar binary format for sequences of scalar values.
//!
//! The modules, leaves first:
//! - `error`: why an operation failed;
//! - `vlq`, `endian`: variable-length and fixed-width integers on the wire;
//! - `bead_type`: the catalog of scalar encodings, their fit tests and
//!   payloads, and type sets;
//! - `layout`: the wire format of a tagged sequence as a mathematical
//!   function, and what a decoder reads from a region;
//! - `container`: the wire formats of indexed, fixed-size and dedup beads;
//! - `builder`: the encoders;
//! - `reference`, `iterator`, `sequence`: the decoders;
//! - `csv`, `converters`: readers of comma-separated text and conversions
//!   between containers;
//! - `roundtrip`, `symmetric`, `truncation`, `container_roundtrip`: what is
//!   proved of encoders and decoders together.
pub mod bead_type;
pub mod builder;
pub mod container;
pub mod container_roundtrip;
pub mod converters;
pub mod csv;
pub mod endian;
pub mod error;
pub mod iterator;
pub mod layout;
pub mod reference;
pub mod roundtrip;
pub mod sequence;
pub mod symmetric;
pub mod truncation;
pub mod vlq;
