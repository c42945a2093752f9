//! Rewrites a Moodle codebase so that its path references no longer rely on `$CFG->dirroot` and
//! `$CFG->libdir`.

pub mod apply;
pub mod decide;
pub mod laws;
pub mod output;
pub mod patches;
pub mod process;
pub mod splice;

pub use process::RewriteOutcome;
