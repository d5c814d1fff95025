//! Core of a personal command-alias launcher.
//!
//! Aliases live in two independent namespaces ("scopes"): a global one rooted
//! at the directory of the installed executable, and an optional local one
//! rooted at the nearest ancestor directory that contains the `.cmd` marker
//! directory.  Each scope persists its aliases in a JSON index file at
//! `<root>/.cmd/index.json`.
//!
//! This crate holds the verified logic: the data model, scope resolution, the
//! registry operations, the index codec, and the decision part of each user
//! command.  Filesystem probing, process spawning and the command line itself
//! are left to a thin unverified front end, which feeds plain values in and
//! carries the returned plans out.
//!
//! The index files are read-modify-written without any locking: two
//! invocations racing on the same scope are resolved by the last writer.

pub mod codec;
pub mod ops;
pub mod paths;
pub mod registry;
pub mod scope;
pub mod store;

pub use scope::choose_scope;
pub use scope::Scope;
pub use scope::ScopeError;
pub use scope::ScopeKind;
