//! Transitive closure of note and asset references in an org-roam link database.
pub mod asset;
pub mod closure;
pub mod note;
pub mod store;
