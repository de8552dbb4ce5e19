//! Compares two versions of a map document, entity by entity, and writes
//! the stripper config that turns the first into the second.
//!
//! A [`entity::Document`] is indexed by [`index::EntityIndex`], two indexes
//! are compared by [`diff::diff`], and each outcome is written as an `add`,
//! `filter` or `modify` record by [`emit::emit_record`].
//! [`report::diff_documents`] does all of it in one call.

pub mod delta;
pub mod diff;
pub mod emit;
pub mod entity;
pub mod index;
pub mod report;
pub mod text;
pub mod vmf;
