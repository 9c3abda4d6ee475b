//! The subscription to new block headers, which starts each aggregation task.
use vstd::prelude::*;

verus! {

/// New heads subscription, so we know when to begin a new aggregation job.
#[derive(Debug)]
pub struct NewHeadsSubscription {
    /// WebSocket URL to connect to the provider.
    ws_url: String,
}

impl NewHeadsSubscription {
    /// The WebSocket URL of the provider.
    pub closed spec fn spec_ws_url(&self) -> Seq<char> {
        self.ws_url@
    }

    /// Creates a new subscription to the provider at the WebSocket URL.
    pub fn new(ws_url: String) -> (s: Self)
        ensures
            s.spec_ws_url() == ws_url@,
    {
        Self { ws_url }
    }

    /// The WebSocket URL of the provider.
    pub fn ws_url(&self) -> (r: &String)
        ensures
            r@ == self.spec_ws_url(),
    {
        &self.ws_url
    }
}

} // verus!
