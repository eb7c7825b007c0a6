//! A streaming parser for a self-describing hierarchical text format
//! (objects, arrays, strings, numbers, booleans and null).
//!
//! Bytes come from a [`ByteReader`]; the [`Tokenizer`] turns them into
//! tokens and checks each against the adjacency table of
//! [`TokenTypeRelationShips`]; the [`Parser`] folds the tokens into a
//! [`JsonValue`] with an explicit stack of open containers.
//!
//! Every function states its behaviour in a contract over a model:
//! `lexical` gives the tokens that a byte sequence holds, `parser` the
//! state machine that folds them, and `laws` and `round_trip` what holds of
//! them together.
pub mod byte_reader;
pub mod error;
pub mod laws;
pub mod lexical;
pub mod parser;
pub mod refill;
pub mod relationships;
pub mod round_trip;
pub mod scan;
pub mod source;
pub mod string_reader;
pub mod token;
pub mod token_type;
pub mod tokenizer;
pub mod value;

pub use byte_reader::{ByteReader, EndOfInput};
pub use error::{ErrorKind, ParseError};
pub use parser::{parse, Parser, ParserState};
pub use refill::RefillBuffer;
pub use relationships::TokenTypeRelationShips;
pub use source::{choose_source, Source, SourceError};
pub use string_reader::BufferedStringReader;
pub use token::{Token, TokenValue};
pub use text::{to_json_text, to_pretty_json_text};
pub use token_type::TokenType;
pub use tokenizer::Tokenizer;
pub use value::{JValue, JsonValue};
pub mod text;
