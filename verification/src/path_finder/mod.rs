//! Finds the paths in a Moodle file that refer to another file in the codebase, and gives them in a
//! standard notation relative to the repository root.

pub mod expression;
pub mod finder;
pub mod laws;
pub mod literal;
pub mod notation;
pub mod reading_laws;
pub mod reference_laws;
pub mod result;
pub mod syntax;

pub use expression::same_text;
pub use finder::find_paths;
pub use finder::is_well_nested;
pub use finder::parse;
pub use finder::paths_in;
pub use finder::references;
pub use finder::source_of;
pub use notation::PathNotation;
pub use result::PathKind;
pub use result::PathResult;
pub use result::PathView;
pub use result::path_views;
pub use result::text_of;
