//! A verified core for mirroring a remote genomic archive into a local
//! library: cataloging what a site publishes for a taxonomic group, deciding
//! what still has to be fetched, verifying fetched files against published
//! digests, tracking progress in a persistent metadata document, and merging
//! verified files into one consolidated sequence file per group.
//!
//! Network and filesystem work is done by the caller; this crate holds the
//! decisions and the data, stated and proved over byte strings.

pub mod aggregator;
pub mod bytestr;
pub mod catalog;
pub mod checksum;
pub mod groups;
pub mod metadata;
pub mod numfmt;
pub mod plan;
pub mod scheduler;
