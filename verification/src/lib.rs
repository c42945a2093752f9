//! Inspection of a Moodle codebase: the internal paths its PHP files refer to, the components it is
//! made of, the order in which its files bootstrap, and its split into Composer packages.

pub mod collections;
pub mod extract_packages;
pub mod moodle;
pub mod path_finder;
pub mod progress;
pub mod report;
pub mod rewrite;
pub mod text;
