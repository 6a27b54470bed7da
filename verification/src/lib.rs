//! A small verified arithmetic expression evaluator: infix text is scanned,
//! rewritten to prefix notation, tokenized, and reduced to one integer.

pub mod enum_types;
pub mod infix_to_prefix;
pub mod properties;
pub mod scanner;
pub mod solver;
