pub mod error;
pub mod layout;
pub mod lexer;
pub mod message;
pub mod parser;

pub use error::{LexerError, LexerErrorKind, NumberError, ParserError, StringError};
pub use lexer::{Lexer, Token};
pub use parser::{Parser, Value};
