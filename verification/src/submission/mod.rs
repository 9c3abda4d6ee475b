pub mod bits;
pub mod optimized_blob_coder;
pub mod coder_laws;
pub mod rpc_submitter;
