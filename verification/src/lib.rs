//! Aggregation of blob segments into EIP-4844 blobs: the bit packing of data
//! into field elements, the bookkeeping of partial blobs and the decisions of
//! the aggregation and submission services.

pub mod submission;
pub mod primitives;
pub mod rpc;
pub mod building;
pub mod chain;
