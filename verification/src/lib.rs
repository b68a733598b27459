//! An embedding store with similarity-ranked retrieval.
//!
//! The library keeps an ordered collection of text chunks, each carrying a
//! fixed-length embedding vector, and ranks chunks against a query by a
//! caller-supplied similarity score. Embedding components and scores are held
//! as the 32-bit patterns of IEEE 754 single-precision values, so that the
//! store, its persistence format and its ranking can be reasoned about over
//! plain integers while the numeric work stays with the caller.

pub mod answer;
pub mod codec;
pub mod ingest;
pub mod rank;
pub mod store;
pub mod text;

pub use store::ChunkData;
pub use store::ChunkView;
pub use store::StoreError;
pub use store::StoreView;
pub use store::VectorStore;
