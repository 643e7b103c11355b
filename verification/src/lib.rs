//! Verified core of the Orchid language front end: character classes,
//! literal decoding, tokenization, the token-level parser, the declarations
//! of protocols and type tags, and the decisions of the scheduler and the
//! event loop.

pub mod chars;
pub mod numeric;
pub mod text;
pub mod string;
pub mod lexer;
pub mod lex;
pub mod errors;
pub mod frag;
pub mod name;
pub mod parsed;
pub mod multiname;
pub mod sourcefile;
pub mod facade;
pub mod template;
pub mod stdlib;
pub mod context;
pub mod scheduler;
pub mod asynch;
pub mod str_lib;
pub mod custom_line;
pub mod protocol;
