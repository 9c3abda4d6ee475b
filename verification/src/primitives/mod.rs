pub mod blob_segment;
