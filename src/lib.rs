//! Choosing which pending package upgrades to run.
//!
//! The library reads the package manager's fixed-width listing into a catalog
//! of records, reads a selection such as `1,3-5` typed by the user, and decides
//! which catalog entries to upgrade and in which order. Running the package
//! manager and talking to the user are left to the caller.
pub mod catalog;
pub mod record;
pub mod selection;
pub mod session;
pub mod text;

pub use catalog::build_catalog;
pub use record::Program;
pub use selection::{elaborate_input, extract_first_and_last, InputParseError};
pub use session::{prompt_step, upgrade_order, PromptStep};
