//! The settings of the RPC server that accepts new blob segments.
use vstd::prelude::*;

verus! {

/// RPC server for accepting new blob segments.
#[derive(Debug, Clone, Copy)]
pub struct RpcServer {
    /// IPv4 address the RPC server listens on.
    ipv4addr: [u8; 4],
    /// Port number the RPC server listens on.
    port: u16,
    /// Timeout for handing a blob segment on, in nanoseconds.
    send_timeout_nanos: u128,
}

impl RpcServer {
    /// Creates a new `RpcServer` listening on `ipv4addr:port`, handing blob
    /// segments on within `send_timeout_nanos` nanoseconds.
    pub fn new(ipv4addr: [u8; 4], port: u16, send_timeout_nanos: u128) -> (s: Self)
        ensures
            s.spec_ipv4addr() == ipv4addr,
            s.spec_port() == port,
            s.spec_send_timeout_nanos() == send_timeout_nanos,
    {
        Self { ipv4addr, port, send_timeout_nanos }
    }

    /// IPv4 address the RPC server listens on.
    pub fn ipv4addr(&self) -> (r: [u8; 4])
        ensures
            r == self.spec_ipv4addr(),
    {
        self.ipv4addr
    }

    /// IPv4 address the RPC server listens on.
    pub closed spec fn spec_ipv4addr(&self) -> [u8; 4] {
        self.ipv4addr
    }

    /// Port number the RPC server listens on.
    pub fn port(&self) -> (r: u16)
        ensures
            r == self.spec_port(),
    {
        self.port
    }

    /// Port number the RPC server listens on.
    pub closed spec fn spec_port(&self) -> u16 {
        self.port
    }

    /// Timeout for handing a blob segment on, in nanoseconds.
    pub fn send_timeout_nanos(&self) -> (r: u128)
        ensures
            r == self.spec_send_timeout_nanos(),
    {
        self.send_timeout_nanos
    }

    /// Timeout for handing a blob segment on, in nanoseconds.
    pub closed spec fn spec_send_timeout_nanos(&self) -> u128 {
        self.send_timeout_nanos
    }
}

} // verus!
