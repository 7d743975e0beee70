//! A history scrubber: rewrites a commit graph into a structurally identical
//! one whose commits carry no tree content and no message, and whose author
//! and committer identities are optionally replaced by deterministic, keyed
//! pseudonyms.
//!
//! The library holds the verified core: the identity redactor, the
//! parent-before-child work-list traversal, and the builder that assembles
//! each rewritten commit. Reading and writing an actual object store is left
//! to the caller, which feeds commits in and records the ids the store hands
//! back.

pub mod data;
pub mod redact;
pub mod rewrite;
pub mod traverse;
