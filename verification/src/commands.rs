use vstd::prelude::*;

verus! {

/// A consumer's request to start receiving one market's feed.
#[derive(Clone, Debug)]
pub struct SubscribeCommand {
    pub market_id: String,
}

/// A consumer's request to stop receiving one market's feed.
#[derive(Clone, Debug)]
pub struct UnsubscribeCommand {
    pub market_id: String,
}

/// What a feed consumer can ask of the command server.
#[derive(Clone, Debug)]
pub enum Command {
    Subscribe(SubscribeCommand),
    Unsubscribe(UnsubscribeCommand),
    GetMarkets,
}

impl Command {
    /// The market a subscription command concerns, if any.
    pub fn market_id(&self) -> (r: Option<&String>)
        ensures
            match *self {
                Command::Subscribe(ref c) => r matches Some(m) && m@ == c.market_id@,
                Command::Unsubscribe(ref c) => r matches Some(m) && m@ == c.market_id@,
                Command::GetMarkets => r is None,
            },
    {
        match self {
            Command::Subscribe(c) => Some(&c.market_id),
            Command::Unsubscribe(c) => Some(&c.market_id),
            Command::GetMarkets => None,
        }
    }
}

/// The process configuration the core consumes: plain values only; the
/// transport endpoints this service should bind or dial.
#[derive(Clone, Debug)]
pub struct Config {
    pub bind_ws_addr: String,
    pub rpc_http_url: String,
    pub mango_group: String,
}

} // verus!
