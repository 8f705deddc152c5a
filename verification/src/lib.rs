pub mod text;
pub mod decl_table;
pub mod resolver;
pub mod lex_parser;
