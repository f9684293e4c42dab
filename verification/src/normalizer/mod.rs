//! Value abstraction and scenario folding.

pub mod abstraction;
pub mod config;
pub mod fold;
