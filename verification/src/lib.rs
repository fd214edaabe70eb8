//! A small JSON library: a tokenizer that turns raw bytes into lexical
//! tokens, a recursive-descent parser that builds a value tree from those
//! tokens, and a serializer that renders a tree back to indented text.
//!
//! Every operation is total: malformed input yields a typed error value,
//! never a panic. Each executable function is proved equal to a
//! mathematical description of the same pass, and a round-trip theorem
//! shows that parsing a serialized tree gives the tree back.

pub mod parser;
pub mod round_trip;
pub mod serial;
pub mod token;
pub mod value;

pub use parser::{
    parse_array, parse_json, parse_number, parse_object, parse_string, parse_value, JsonError,
    ParseError,
};
pub use serial::serialize;
pub use token::{tokenize, TokenizeError};
pub use value::{Json, JsonValue};
