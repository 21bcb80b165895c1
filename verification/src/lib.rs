//! Codecs and round-trip tooling for a game's MVGL archive container and its
//! MBE structured-record files, together with the dialogue pipeline that
//! exports text rows to a tabular file and rebuilds the binaries with every
//! offset relocated after text of a different byte length is substituted.

pub mod bytes;
pub mod cursor;
pub mod errors;
pub mod lang;
pub mod mvgl;
pub mod mbe;
pub mod edits;
pub mod extract;
pub mod repack;
pub mod table;
