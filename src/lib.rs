//! Ingests the commit history of a git repository into a relational store:
//! one row per commit and one parent/child edge per parent.
pub mod extract;
pub mod ingest;
pub mod record;
pub mod schema;
pub mod tables;
