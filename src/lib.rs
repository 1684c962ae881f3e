//! FIRST and FOLLOW sets of context-free grammars: reading a grammar
//! description, validating it into a table of symbols and rules, and
//! computing the sets as least fixed points.

pub mod alphabet;
pub mod grammer;
pub mod parser;
pub mod sets;
