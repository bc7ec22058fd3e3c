//! Dependency version resolution over a semantic-version range algebra.
//!
//! The library holds the parts of a resolver that can be stated exactly:
//! versions and their order, version ranges as sets, the catalog that answers
//! a solver's questions, and the checks that frame a resolution run.
pub mod version;
pub mod range;
pub mod catalog;
pub mod registry;
pub mod resolution;
