//! A small JSON parser: a textual document goes in, a tree of values or a
//! structured diagnostic comes out.  The parser works without a classic
//! lexer: composite values are recognised by splitting their interior on
//! separators that stand outside every quoted span and at bracket-nesting
//! depth zero.
pub mod laws;
pub mod parse;
pub mod scan;
pub mod text;
pub mod value;

pub use parse::parse;
pub use parse::parse_array;
pub use parse::parse_bool;
pub use parse::parse_null;
pub use parse::parse_number;
pub use parse::parse_object;
pub use parse::parse_string;
pub use parse::parser;
pub use parse::ParseError;
pub use scan::split_by_outer_separator;
pub use scan::trim_whitespaces_except_quoted;
pub use text::chars_of;
pub use value::JsonObjectKey;
pub use value::JsonValue;
