//! A preamble rule for proposal documents: every document named in the
//! `requires` header must have a status at least as advanced as the status
//! of the document that requires it.

pub mod config;
pub mod diagnostic;
pub mod document;
pub mod laws;
pub mod lint;
pub mod order;
pub mod text;

pub use config::RequiresStatus;
pub use diagnostic::{Diagnostic, Level, Mark};
pub use document::{Context, Fetched, Field};
pub use text::{parse_u64, trim};
