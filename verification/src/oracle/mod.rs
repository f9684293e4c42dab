//! Oracle rules: domain invariants judged over recorded sessions.

pub mod compose;
pub mod engine;
pub mod reporter;
pub mod rule;
pub mod rules;
