use blobsy_aggregator::chain::new_heads_subscription::NewHeadsSubscription;
use blobsy_aggregator::rpc::rpc_server::RpcServer;

#[test]
fn new_heads_subscription_keeps_url() {
    let s = NewHeadsSubscription::new("ws://localhost:8546".to_string());
    assert_eq!(s.ws_url(), "ws://localhost:8546");
}

#[test]
fn rpc_server_keeps_settings() {
    let s = RpcServer::new([127, 0, 0, 1], 9645, 500_000_000);
    assert_eq!(s.ipv4addr(), [127, 0, 0, 1]);
    assert_eq!(s.port(), 9645);
    assert_eq!(s.send_timeout_nanos(), 500_000_000);
}
