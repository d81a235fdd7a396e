use vstd::prelude::*;

verus! {

/// The fields of a watch request, as the contracts speak of them.
pub struct WatchRequest {
    pub chain: Seq<char>,
    pub nonce: u32,
    pub tx_hash: Seq<char>,
}

/// The empty configuration accepted at initialization.
#[derive(Clone, Debug, PartialEq, Eq)]
pub struct InstantiateMsg {}

/// The commands this contract accepts.
#[derive(Clone, Debug, PartialEq, Eq)]
pub enum ExecuteMsg {
    AddToWatchList { chain: String, nonce: u32, tx_hash: String },
}

impl View for ExecuteMsg {
    type V = WatchRequest;

    open spec fn view(&self) -> WatchRequest {
        match self {
            ExecuteMsg::AddToWatchList { chain, nonce, tx_hash } => WatchRequest {
                chain: chain@,
                nonce: *nonce,
                tx_hash: tx_hash@,
            },
        }
    }
}

/// The queries this contract answers.
#[derive(Clone, Debug, PartialEq, Eq)]
pub enum QueryMsg {
    OutTxTrackerAll {},
}

/// The message sent on to the core module.
#[derive(Clone, Debug, PartialEq, Eq)]
pub enum ZetaCoreMsg {
    AddToWatchList { chain: String, nonce: u32, tx_hash: String },
}

impl View for ZetaCoreMsg {
    type V = WatchRequest;

    open spec fn view(&self) -> WatchRequest {
        match self {
            ZetaCoreMsg::AddToWatchList { chain, nonce, tx_hash } => WatchRequest {
                chain: chain@,
                nonce: *nonce,
                tx_hash: tx_hash@,
            },
        }
    }
}

/// The query sent on to the core module.
#[derive(Clone, Debug, PartialEq, Eq)]
pub enum ZetaCoreQuery {
    OutTxTrackerAll {},
}

/// The core module's full snapshot of tracked outbound transactions.
#[derive(Clone, Debug, PartialEq, Eq)]
pub struct OutTxTrackerAllResponse {
    pub out_tx_tracker: Vec<OutTxTracker>,
}

/// The hashes observed for one outbound transaction of one chain.
#[derive(Clone, Debug, PartialEq, Eq)]
pub struct OutTxTracker {
    pub index: String,
    pub chain: String,
    pub nonce: String,
    pub hashlist: Vec<TxHashList>,
}

/// One observer's claimed hash, with the observer that submitted it.
#[derive(Clone, Debug, PartialEq, Eq)]
pub struct TxHashList {
    pub txhash: String,
    pub singer: String,
}

/// Why a call failed, by where the failure came from.
#[derive(Clone, Debug, PartialEq, Eq)]
pub enum WatcherError {
    /// The payload is not the encoding of any value of the expected type.
    Malformed {},
    /// The payload names a variant that the expected type does not have.
    UnknownVariant(String),
    /// The host runtime reported a failure.
    Host(String),
    /// The core module reported a failure.
    Core(String),
}

/// One key/value pair attached to a response.
#[derive(Clone, Debug, PartialEq, Eq)]
pub struct Attribute {
    pub key: String,
    pub value: String,
}

/// What a handler hands back to the host: attributes for observers and the
/// messages to route on to the core module.
#[derive(Clone, Debug, PartialEq, Eq)]
pub struct Response {
    pub attributes: Vec<Attribute>,
    pub messages: Vec<ZetaCoreMsg>,
}

} // verus!
