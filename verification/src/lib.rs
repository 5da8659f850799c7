//! Markdown as data: a literal document tree, or a nested key-value tree in
//! which headings are keys.

pub mod ast;
pub mod convert;
pub mod events;
pub mod parse;
pub mod parse_minified;
pub mod reading;
pub mod sanitizers;
pub mod text;

pub use ast::{MinifiedNode, Node, NodeOrString};
pub use convert::{convert, convert_str, ConvertError, OutputFormat, ParsingMode};
pub use events::{tokenize, Block, BlockEnd, Fence, Level, Token};
pub use parse::{build_document, parse_markdown, ParseError};
pub use parse_minified::{build_config, parse_markdown_minified};
pub use sanitizers::{sanitize_keys, sanitize_xml_tag};
