//! A verified interpreter for a small, line-oriented sequence-diagram
//! language.
//!
//! The pipeline has three stages, each usable on its own:
//!
//! * [`decode::decode`] reverses percent-encoding of a fixed set of
//!   reserved characters in raw input text;
//! * [`scanner::Scanner`] turns diagram source text into an ordered
//!   sequence of typed, line-numbered [`token::Token`]s;
//! * [`diagram::parse_diagram`] turns diagram source text into a
//!   [`diagram::Diagram`]: a title and an ordered list of flows.
//!
//! Every stage is total: malformed input is reported as data (error
//! tokens, skipped statements), never as a panic.

pub mod chars;
pub mod decode;
pub mod diagram;
pub mod scanner;
pub mod token;

pub use diagram::parse_diagram;
pub use diagram::Diagram;
pub use diagram::FlowType;
pub use scanner::Scanner;
pub use token::Token;
pub use token::TokenType;
