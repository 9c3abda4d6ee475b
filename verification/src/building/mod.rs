pub mod partial_blob;
pub mod appending_blob_aggregator;
pub mod keyed;
pub mod blob_aggregator;
