//! Keeps a queryable table of per-path document metadata in step with the
//! history of a content-addressed repository.
pub mod history;
pub mod delta;
pub mod full;
pub mod maintain;
pub mod laws;
pub mod extract;
pub mod auth;
pub mod grep;
pub mod files;
pub mod notes;
