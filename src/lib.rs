//! A lint rule that finds keys given more than once in one object literal.
//!
//! Each property of a literal is reduced to a canonical key (or to none, for
//! computed keys, shorthands, assignment patterns and spreads); the keys that
//! occur more than once among a literal's own entries are reported once each,
//! in key order, at the literal's span.
pub mod duplicates;
pub mod laws;
pub mod order;
pub mod rule;
pub mod syntax;

pub use duplicates::find_duplicates;
pub use order::key_less;
pub use rule::{duplicate_message, Diagnostic, NoDupeKeys, NoDupeKeysVisitor};
pub use syntax::{ObjectLit, Prop, PropName, PropOrSpread, Span};
