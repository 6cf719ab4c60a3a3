//! The core of a project-context collector: a parser and reverse-scan window for
//! extended shell-history lines, a detector that samples a project's marker and source
//! files from directory listings, and a reader of the keys a dotenv file declares.

pub mod env_keys;
pub mod history;
pub mod project;
pub mod records;
pub mod text;
