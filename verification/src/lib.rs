//! A small JSON-like document reader.
//!
//! A raw text buffer is turned into a tree of typed values in three stages:
//! a scanner walks the characters once and emits a flat token sequence, a
//! validator counts structural tokens to reject clearly malformed input, and
//! a tree builder repeatedly reduces the innermost unresolved container of
//! the flat sequence until a single root value remains.

pub mod builder;
pub mod chars;
pub mod scan;
pub mod token;
pub mod tokenizer;
pub mod validate;

pub use builder::from_json_string;
pub use builder::json_tokens_to_json_object;
pub use token::InvalidJson;
pub use token::InvalidJsonUnwrap;
pub use token::JsonMap;
pub use token::JsonToken;
pub use token::TokenModel;
pub use tokenizer::tokenize_json_string;
pub use validate::check_is_valid_json;
