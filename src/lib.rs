//! Scan Nix expressions for dead code: variable bindings that nothing uses.
//!
//! A source text is parsed into a [`Tree`], [`Settings::find_dead_code`]
//! reports the unused bindings, and [`edit_dead_code`] removes them from the
//! text while keeping every other byte.
pub mod binding;
pub mod dead_code;
pub mod edit;
pub mod report;
pub mod scope;
pub mod syntax;
pub mod usage;

pub use binding::{Binding, Ident};
pub use dead_code::{DeadCode, Settings};
pub use edit::{edit_dead_code, EditError};
pub use report::Location;
pub use scope::{Color, Scope};
pub use syntax::{parse, Element, Parsed, Tree};
