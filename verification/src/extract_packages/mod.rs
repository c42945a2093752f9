//! Splits a rewritten Moodle codebase into self-contained Composer packages, one per component plus
//! a `moodle-root` catch-all, each with its own git history and a `composer.json` carrying the
//! metadata a loader would need, plus one more package, `moodle-standard`, a metapackage requiring
//! every one of them.

pub mod composer_json;
pub mod copy;
pub mod git;
pub mod json;
pub mod laws;
pub mod process;
