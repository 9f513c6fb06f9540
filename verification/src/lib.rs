//! A lossless compressor for JSON-shaped values.
//!
//! A `Packer` turns a tree of JSON values into a more compact encoding that is
//! itself a JSON value; an `Unpacker` turns it back. Repeated scalars are
//! replaced by small integer indices into a bounded dictionary that both
//! peers rebuild in lock-step from the traffic alone.

pub mod laws;
pub mod packer;
pub mod text;
pub mod unpacker;
pub mod value;
