use vstd::prelude::*;

use crate::codec::{encode_out_tx_tracker_all_response, out_tx_tracker_all_response_json};
use crate::msg::{
    Attribute, ExecuteMsg, InstantiateMsg, OutTxTrackerAllResponse, QueryMsg, Response,
    WatchRequest, WatcherError, ZetaCoreMsg, ZetaCoreQuery,
};

verus! {

/// A response as the contracts speak of it: attribute pairs and forwarded requests.
pub struct ResponseView {
    pub attributes: Seq<(Seq<char>, Seq<char>)>,
    pub messages: Seq<WatchRequest>,
}

impl View for Response {
    type V = ResponseView;

    open spec fn view(&self) -> ResponseView {
        ResponseView {
            attributes: self.attributes@.map_values(|a: Attribute| (a.key@, a.value@)),
            messages: self.messages@.map_values(|m: ZetaCoreMsg| m@),
        }
    }
}

/// The acknowledgment of initialization: no attribute and no message.
pub open spec fn empty_response() -> ResponseView {
    ResponseView { attributes: Seq::empty(), messages: Seq::empty() }
}

/// What a watch-list command produces: the attribute `action = add_watchlist`
/// and the same request, unchanged, as the only message to the core module.
pub open spec fn add_watchlist_response(v: WatchRequest) -> ResponseView {
    ResponseView { attributes: seq![("action"@, "add_watchlist"@)], messages: seq![v] }
}

/// Initialization: the contract keeps no state, so there is nothing to set up.
pub fn instantiate(msg: InstantiateMsg) -> (r: Result<Response, WatcherError>)
    ensures
        r is Ok,
        r->Ok_0@ == empty_response(),
{
    let resp = Response { attributes: Vec::new(), messages: Vec::new() };
    assert(resp@.attributes =~= Seq::<(Seq<char>, Seq<char>)>::empty());
    assert(resp@.messages =~= Seq::<WatchRequest>::empty());
    Ok(resp)
}

/// Handles a command: the request goes on to the core module as it came.
pub fn execute(msg: ExecuteMsg) -> (r: Result<Response, WatcherError>)
    ensures
        r is Ok,
        r->Ok_0@ == add_watchlist_response(msg@),
{
    let ghost v = msg@;
    match msg {
        ExecuteMsg::AddToWatchList { chain, nonce, tx_hash } => {
            let forward = ZetaCoreMsg::AddToWatchList { chain, nonce, tx_hash };
            let attribute = Attribute {
                key: String::from_str("action"),
                value: String::from_str("add_watchlist"),
            };
            let mut attributes: Vec<Attribute> = Vec::new();
            attributes.push(attribute);
            let mut messages: Vec<ZetaCoreMsg> = Vec::new();
            messages.push(forward);
            let resp = Response { attributes, messages };
            assert(resp@.attributes =~= seq![("action"@, "add_watchlist"@)]);
            assert(resp@.messages =~= seq![v]);
            Ok(resp)
        },
    }
}

/// The query to put to the core module for a query of this contract.
pub fn query(msg: &QueryMsg) -> (r: ZetaCoreQuery)
    ensures
        r is OutTxTrackerAll,
{
    match msg {
        QueryMsg::OutTxTrackerAll {  } => ZetaCoreQuery::OutTxTrackerAll {  },
    }
}

/// The answer to a tracker query: what the core module replied, success or
/// failure, unchanged.
pub fn query_watchlist(reply: Result<OutTxTrackerAllResponse, WatcherError>) -> (r: Result<
    OutTxTrackerAllResponse,
    WatcherError,
>)
    ensures
        r == reply,
{
    reply
}

/// The answer handed back to the caller of a tracker query: the core module's
/// snapshot written out as it came, or the core module's failure as it came.
pub fn query_response(reply: Result<OutTxTrackerAllResponse, WatcherError>) -> (r: Result<
    String,
    WatcherError,
>)
    ensures
        match reply {
            Ok(snapshot) => r is Ok && r->Ok_0@ == out_tx_tracker_all_response_json(snapshot),
            Err(e) => r is Err && r->Err_0 == e,
        },
{
    match query_watchlist(reply) {
        Ok(snapshot) => Ok(encode_out_tx_tracker_all_response(&snapshot)),
        Err(e) => Err(e),
    }
}

/// Each command's response carries its own request and nothing of another's:
/// two different commands give two different responses, each forwarding exactly
/// its own request.
pub proof fn law_commands_independent(a: WatchRequest, b: WatchRequest)
    ensures
        add_watchlist_response(a).messages.len() == 1,
        add_watchlist_response(a).messages[0] == a,
        add_watchlist_response(b).messages[0] == b,
        a != b ==> add_watchlist_response(a) != add_watchlist_response(b),
{
    if a != b && add_watchlist_response(a) == add_watchlist_response(b) {
        assert(add_watchlist_response(a).messages[0] == add_watchlist_response(b).messages[0]);
    }
}

} // verus!
