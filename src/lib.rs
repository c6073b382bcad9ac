//! Byte-stream sanitising: non-printable bytes become mnemonics, hex escapes
//! or nothing, with an optional global limit on the number of input bytes.
pub mod exclude;
pub mod stream;
pub mod table;

pub use exclude::{parse_exclude, ExcludeError};
pub use stream::wants_input;
pub use table::{map_suppress, map_to_escape, map_to_mnemonic, AsciiMapping, ConversionMode};
