//! Duplicate-file discovery core: content digests, a digest-to-paths index,
//! progress arithmetic, the duplicate grouping pass, and the JSON report codec.
//!
//! Paths are modelled as byte strings (the UTF-8 bytes of the path text);
//! callers convert at the boundary and hand in plain `Vec<u8>` values.

pub mod digest;
pub mod pathkit;
pub mod index;
pub mod progress;
pub mod grouping;
pub mod report;
