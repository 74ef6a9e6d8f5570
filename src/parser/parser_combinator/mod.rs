pub mod basic_parser;
pub mod boxed_parser;
pub mod combinator;
pub mod traits;

pub use basic_parser::{atom, single_token, Atom, SingleToken};
pub use boxed_parser::BoxedParser;
pub use combinator::{and_then, either, judge, zero_or_more};
pub use traits::{Parser, ParserResult};
