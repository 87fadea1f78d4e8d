//! YAML reading and writing: a lexer that turns text into tokens, a parser that
//! reads values from the tokens, and an emitter that writes values as text.
pub mod ast;
pub mod emitter;
pub mod error;
pub mod laws;
pub mod lexer;
pub mod parser;
pub mod scalar;
pub mod text;

pub use ast::YamlValue;
pub use emitter::serializer::serialize;
pub use error::YamlError;
pub use parser::{parse, parse_all};
