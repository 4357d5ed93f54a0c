//! HTMLisp: a Lisp-flavoured markup that is compiled to HTML.
//!
//! A source text is cut into tokens (`lexer`), the tokens are read into a tree of
//! nodes (`parser`, `model`), and the tree is written out as HTML, either compact
//! or indented (`render`). `compile` does the three in one step and decides what
//! a directory watch does about an event. `source` states which trees a source
//! text can stand for and that reading inverts writing; `text` holds the helpers
//! that turn strings into characters and back.
pub mod compile;
pub mod lexer;
pub mod model;
pub mod parser;
pub mod render;
pub mod source;
pub mod text;
