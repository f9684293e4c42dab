//! Verified core of a behavioural-trace toolkit.

pub mod alignment;
pub mod analysis;
pub mod event;
pub mod graph;
pub mod ids;
pub mod json;
pub mod normalizer;
pub mod oracle;
pub mod outcome;
pub mod policy;
pub mod replay;
pub mod scenario;
pub mod session;
pub mod similarity;
pub mod text;
