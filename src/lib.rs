//! Container-format detection and codecs for NBT documents: the whole-file
//! variants, the per-chunk compression variants, the binary and text codecs,
//! the compression envelopes and the file-path identity of an open document.
pub mod format;
pub mod nbt;
pub mod binary;
pub mod envelope;
pub mod path;
pub mod region;
pub mod snbt;
pub mod document;
pub mod tab;
