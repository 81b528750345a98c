//! Engine for a chunked binary container format: variable-length, id-tagged
//! records are packed into fixed-size, zero-padded chunks, together with a
//! companion plain-text id-to-name table. The packing algorithm, the exact
//! byte-level codec, and the table codec are verified.

pub mod be;
pub mod codec;
pub mod dgc;
pub mod editor;
pub mod extract;
pub mod ngc;
pub mod plugin;
pub mod util;
