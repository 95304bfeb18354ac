//! What is kept between runs: the session file, the autosave schedule and the
//! per-document store.

pub mod autosave;
pub mod index;
pub mod store;
