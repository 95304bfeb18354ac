//! The editor window's decisions, and what its bars say.

pub mod bars;
pub mod window;
