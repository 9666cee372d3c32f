//! Relocation of a GPT primary header inside a raw block image.
//!
//! The image's last block holds the header. [`relocate::relocate`] rewrites the
//! two fields of the header that say where it and its partition-entry array
//! lie, and renews the header's checksum. Every other byte keeps its value.
//!
//! * [`endian`]: little-endian integers as bytes.
//! * [`checksum`]: the CRC-32 of a header.
//! * [`header`]: the header's layout and the operations on its fields.
//! * [`relocate`]: the relocation of a whole image.

pub mod endian;
pub mod checksum;
pub mod header;
pub mod relocate;
