//! Local semantic-search pipeline: bounded text chunking, embedding-client
//! decisions, ingestion ordering with doc-id/metadata alignment, and query
//! context assembly.

pub mod text;
pub mod chunking;
pub mod embedding;
pub mod ingest;
pub mod entity;
pub mod query;
pub mod naming;
