//! Byte-level decoding cores for an asset-inspection tool.
//!
//! The crate holds two independent, purely in-memory decoders:
//!
//! - a chunk-tree scanner for a legacy hierarchical model container format,
//!   which locates a geometry record and reads its vertex count
//!   ([`chunk`]), and
//! - a layered raster-image decoder for a proprietary image-editor container
//!   format, which recovers dimensions and compressed pixel runs
//!   heuristically and composites the layers into one RGBA bitmap
//!   ([`pdn`]).
//!
//! Both decoders take a byte buffer that the caller has already read from
//! disk and return plain values; neither performs any I/O of its own.
//! A few string helpers used by the surrounding application to recognise
//! model files handed over on the command line live in [`paths`].
pub mod bytes;
pub mod b64;
pub mod chunk;
pub mod inflate;
pub mod paths;
pub mod pdn;
pub mod pdn_dims;
pub mod pdn_compose;
pub mod pdn_layers;
