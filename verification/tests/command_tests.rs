use orderbook_feed::commands::{Command, Config, SubscribeCommand, UnsubscribeCommand};

#[test]
fn subscription_commands_name_their_market() {
    let sub = Command::Subscribe(SubscribeCommand { market_id: String::from("m-1") });
    assert_eq!(sub.market_id().map(String::as_str), Some("m-1"));
    let unsub = Command::Unsubscribe(UnsubscribeCommand { market_id: String::from("m-2") });
    assert_eq!(unsub.market_id().map(String::as_str), Some("m-2"));
    assert!(Command::GetMarkets.market_id().is_none());
}

#[test]
fn config_holds_plain_endpoints() {
    let c = Config {
        bind_ws_addr: String::from("127.0.0.1:2082"),
        rpc_http_url: String::from("https://node.example"),
        mango_group: String::from("group-1"),
    };
    assert_eq!(c.bind_ws_addr, "127.0.0.1:2082");
    assert_eq!(c.clone().rpc_http_url, "https://node.example");
    assert_eq!(c.mango_group, "group-1");
}
