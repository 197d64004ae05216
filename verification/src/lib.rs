//! Splitting a requirements manifest into logical lines and stripping the
//! trivia (comments and `--hash` extras) from each of them.

pub mod laws;
pub mod lines;
pub mod requirements;
pub mod scan;
pub mod text;
pub mod trivia;
pub mod whitespace;

pub use lines::RequirementsIterator;
pub use requirements::Requirements;
pub use scan::find_newline;
pub use trivia::RequirementLine;
