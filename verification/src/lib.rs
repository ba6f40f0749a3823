//! Line-counting library: classifies the lines of source files as code,
//! comments, or blank, and aggregates the counts per language.

pub mod classify;
pub mod lang;
pub mod stats;

pub use classify::LineKind;
pub use classify::classify;
pub use lang::get_language_name;
pub use lang::is_hidden;
pub use stats::FileInfo;
pub use stats::Files;
