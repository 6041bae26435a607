//! Receiver side of a file transfer carried by a sequence of optical codes.
//!
//! Each decoded code is a frame `[tag][body][digest]`. The decoder collects the
//! transfer metadata, the content segments and the whole-file checksum, and the
//! reassembler turns what was collected into the file or into a report of what
//! went wrong.

pub mod cursor;
pub mod primitives;
pub mod frame;
pub mod metadata;
pub mod decoder;
pub mod reassembly;
