//! Consolidation of per-branch vulnerability scan results into per-package
//! tickets.
//!
//! The crate models the identifier types (advisories, packages, branch
//! descriptors), the scan-result records produced by an external scanner,
//! the consolidation engine that merges results from all scanned branches
//! into one ticket per package, the ticket renderer, and the store-content
//! index used to restrict scans to deployed packages.

pub mod advisory;
pub mod branches;
pub mod count;
pub mod package;
pub mod source;
pub mod scan;
pub mod store;
pub mod text;
pub mod ticket;
pub mod tracker;
