//! Intel HEX record codec and sparse memory engine.
//!
//! The crate parses Intel HEX text into a sparse, block-structured memory
//! image, supports point/range reads and updates, relocation and merging,
//! emits Intel HEX text or flat binary images, and searches the image for
//! byte patterns, ASCII literals or regular expressions.

pub mod error;
pub mod intelhex;
pub mod laws;
pub mod record;
pub mod search;
pub mod session;

pub use error::IntelHexError;
pub use error::IntelHexErrorKind;
pub use intelhex::IntelHex;
pub use record::Record;
pub use record::RecordType;
pub use search::search;
pub use search::search_bytes;
pub use search::search_regex;
pub use search::SearchType;
