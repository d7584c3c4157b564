pub mod ast_parser;
pub mod builtin;
pub mod interpreter;
pub mod repl;
pub mod semantics;
pub mod source;
pub mod str_ext;
pub mod tokenizer;
