//! What the commands report: CSV documents and summaries.

pub mod components;
pub mod document;
pub mod entrypoints;
pub mod laws;
pub mod ownership;
pub mod paths;
