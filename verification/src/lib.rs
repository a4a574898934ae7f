//! A verified catalog-and-search engine for an image vault.
//!
//! The library models the catalog of known images, the full-text search
//! index that doubles as tag storage, the tagging protocol on top of it,
//! the query normalization rules, and the directory-reconciliation
//! algorithm.  Persistence, OCR execution, networking and the GUI shell
//! are left to the surrounding application, which hands the library plain
//! values and stores what it gets back.

pub mod blob;
pub mod catalog;
pub mod config;
pub mod order;
pub mod query;
pub mod models;
pub mod names;
pub mod text;
