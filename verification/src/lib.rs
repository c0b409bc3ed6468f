//! Parsing and validation of passport records.
//!
//! A batch input is a sequence of text lines; blank lines separate records.
//! Each non-blank line holds whitespace-separated `key:value` fields drawn
//! from a fixed catalog of eight keys. Records can be checked against the
//! catalog's rules in a presence-only mode or a full format/range mode.

pub mod reader;
pub mod record;
pub mod text;
pub mod validate;

pub use reader::read_from_file;
pub use reader::ReadState;
pub use record::Passport;
pub use record::PassportField;
pub use record::PassportProcessError;
pub use text::u32_to_string;
pub use validate::PassportInvalid;
