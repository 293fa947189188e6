pub mod arena;
pub mod error;
pub mod expr;
pub mod parser;
pub mod reduce;
pub mod strutil;
