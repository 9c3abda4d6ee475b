pub mod serialize;
pub mod rpc_server;
