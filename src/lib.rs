//! Generation and mutation of structured JSON-like test inputs: a grammar
//! engine with a conservative JSON grammar, and a structural mutator over
//! tree values with a complexity score and a mapping to and from the
//! consumer's native tree value.
pub mod entropy;
pub mod grammar;
pub mod json;
pub mod mutator;
pub mod value;

pub use json::json_grammar_mutator;
pub use mutator::json_value_mutator;
