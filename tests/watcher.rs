use zeta_watcher::codec::{
    decode_core_msg, decode_core_query, decode_execute_msg, decode_instantiate_msg,
    decode_query_msg, encode_core_msg, encode_core_query, encode_execute_msg,
    encode_instantiate_msg, encode_out_tx_tracker_all_response, encode_query_msg,
};
use zeta_watcher::contract::{execute, instantiate, query, query_response, query_watchlist};
use zeta_watcher::json::chars_of;
use zeta_watcher::msg::{
    Attribute, ExecuteMsg, InstantiateMsg, OutTxTracker, OutTxTrackerAllResponse, QueryMsg,
    Response, TxHashList, WatcherError, ZetaCoreMsg, ZetaCoreQuery,
};

fn add(chain: &str, nonce: u32, tx_hash: &str) -> ExecuteMsg {
    ExecuteMsg::AddToWatchList {
        chain: chain.to_string(),
        nonce,
        tx_hash: tx_hash.to_string(),
    }
}

fn snapshot() -> OutTxTrackerAllResponse {
    OutTxTrackerAllResponse {
        out_tx_tracker: vec![OutTxTracker {
            index: "1".to_string(),
            chain: "BSC".to_string(),
            nonce: "7".to_string(),
            hashlist: vec![TxHashList {
                txhash: "0xabc".to_string(),
                singer: "obs1".to_string(),
            }],
        }],
    }
}

#[test]
fn command_forwards_request_unchanged() {
    let resp = execute(add("BSC", 7, "0xabc")).unwrap();
    assert_eq!(
        resp.messages,
        vec![ZetaCoreMsg::AddToWatchList {
            chain: "BSC".to_string(),
            nonce: 7,
            tx_hash: "0xabc".to_string(),
        }]
    );
    assert_eq!(
        resp.attributes,
        vec![Attribute {
            key: "action".to_string(),
            value: "add_watchlist".to_string(),
        }]
    );
}

#[test]
fn query_returns_snapshot_unchanged() {
    assert_eq!(query(&QueryMsg::OutTxTrackerAll {}), ZetaCoreQuery::OutTxTrackerAll {});
    assert_eq!(query_watchlist(Ok(snapshot())), Ok(snapshot()));
}

#[test]
fn query_failure_propagates_unchanged() {
    let err = WatcherError::Core("tracker store unavailable".to_string());
    assert_eq!(query_watchlist(Err(err.clone())), Err(err));
}

#[test]
fn instantiate_is_empty_every_time() {
    for _ in 0..3 {
        let resp = instantiate(InstantiateMsg {}).unwrap();
        assert_eq!(
            resp,
            Response {
                attributes: vec![],
                messages: vec![],
            }
        );
    }
}

#[test]
fn commands_do_not_influence_each_other() {
    let alone = execute(add("ETH", 42, "0xdef")).unwrap();
    let _first = execute(add("BSC", 7, "0xabc")).unwrap();
    let second = execute(add("ETH", 42, "0xdef")).unwrap();
    assert_eq!(alone, second);
    assert_eq!(
        second.messages,
        vec![ZetaCoreMsg::AddToWatchList {
            chain: "ETH".to_string(),
            nonce: 42,
            tx_hash: "0xdef".to_string(),
        }]
    );
}

#[test]
fn execute_msg_wire_form() {
    let text = encode_execute_msg(&add("BSC", 7, "0xabc"));
    assert_eq!(
        text,
        r#"{"add_to_watch_list":{"chain":"BSC","nonce":7,"tx_hash":"0xabc"}}"#
    );
    assert_eq!(decode_execute_msg(&text), Ok(add("BSC", 7, "0xabc")));
}

#[test]
fn execute_msg_round_trip_with_escapes() {
    let msg = add("a\"b\\c\n\t\r\u{8}\u{c}\u{1}\u{1f}é", 0, "");
    let text = encode_execute_msg(&msg);
    assert_eq!(
        text,
        "{\"add_to_watch_list\":{\"chain\":\"a\\\"b\\\\c\\n\\t\\r\\b\\f\\u0001\\u001Fé\",\"nonce\":0,\"tx_hash\":\"\"}}"
    );
    assert_eq!(decode_execute_msg(&text), Ok(msg));
}

#[test]
fn execute_msg_round_trip_largest_nonce() {
    let msg = add("BSC", u32::MAX, "0x1");
    let text = encode_execute_msg(&msg);
    assert!(text.contains("\"nonce\":4294967295,"));
    assert_eq!(decode_execute_msg(&text), Ok(msg));
}

#[test]
fn core_msg_round_trip() {
    let msg = ZetaCoreMsg::AddToWatchList {
        chain: "BSC".to_string(),
        nonce: 12,
        tx_hash: "0xabc".to_string(),
    };
    let text = encode_core_msg(&msg);
    assert_eq!(
        text,
        r#"{"add_to_watch_list":{"chain":"BSC","nonce":12,"tx_hash":"0xabc"}}"#
    );
    assert_eq!(decode_core_msg(&text), Ok(msg));
}

#[test]
fn query_msgs_round_trip() {
    let text = encode_query_msg(&QueryMsg::OutTxTrackerAll {});
    assert_eq!(text, r#"{"out_tx_tracker_all":{}}"#);
    assert_eq!(decode_query_msg(&text), Ok(QueryMsg::OutTxTrackerAll {}));
    let text = encode_core_query(&ZetaCoreQuery::OutTxTrackerAll {});
    assert_eq!(text, r#"{"out_tx_tracker_all":{}}"#);
    assert_eq!(decode_core_query(&text), Ok(ZetaCoreQuery::OutTxTrackerAll {}));
}

#[test]
fn instantiate_msg_round_trip() {
    let text = encode_instantiate_msg(&InstantiateMsg {});
    assert_eq!(text, "{}");
    assert_eq!(decode_instantiate_msg(&text), Ok(InstantiateMsg {}));
    assert_eq!(decode_instantiate_msg("{ }"), Err(WatcherError::Malformed {}));
}

#[test]
fn unknown_command_tag_is_rejected() {
    let payload = r#"{"remove_from_watch_list":{"chain":"BSC","nonce":7,"tx_hash":"0xabc"}}"#;
    assert_eq!(
        decode_execute_msg(payload),
        Err(WatcherError::UnknownVariant("remove_from_watch_list".to_string()))
    );
    assert_eq!(
        decode_core_msg(r#"{"AddToWatchList":{}}"#),
        Err(WatcherError::UnknownVariant("AddToWatchList".to_string()))
    );
}

#[test]
fn unknown_query_tag_is_rejected() {
    assert_eq!(
        decode_query_msg(r#"{"pool":{}}"#),
        Err(WatcherError::UnknownVariant("pool".to_string()))
    );
    assert_eq!(
        decode_core_query(r#"{"out_tx_tracker":{}}"#),
        Err(WatcherError::UnknownVariant("out_tx_tracker".to_string()))
    );
}

#[test]
fn malformed_payloads_are_rejected() {
    let bad = [
        "",
        "{",
        r#"{"add_to_watch_list":{"chain":"BSC","nonce":07,"tx_hash":"0xabc"}}"#,
        r#"{"add_to_watch_list":{"chain":"BSC","nonce":4294967296,"tx_hash":"0xabc"}}"#,
        r#"{"add_to_watch_list":{"chain":"BSC","nonce":-1,"tx_hash":"0xabc"}}"#,
        r#"{"add_to_watch_list":{"nonce":7,"chain":"BSC","tx_hash":"0xabc"}}"#,
        r#"{"add_to_watch_list":{"chain":"BSC","nonce":7,"tx_hash":"0xabc"}} "#,
        r#"{"add_to_watch_list":{"chain":"B\qC","nonce":7,"tx_hash":"0xabc"}}"#,
        r#"{"add_to_watch_list":{"chain":"B\u000aC","nonce":7,"tx_hash":"0xabc"}}"#,
        "{\"add_to_watch_list\":{\"chain\":\"B\nC\",\"nonce\":7,\"tx_hash\":\"0xabc\"}}",
        r#"{"add_to_watch_list":{"chain":"BSC","nonce":7}}"#,
    ];
    for payload in bad.iter() {
        assert_eq!(decode_execute_msg(payload), Err(WatcherError::Malformed {}), "{}", payload);
    }
    assert_eq!(decode_query_msg(r#"{"out_tx_tracker_all":{}} "#), Err(WatcherError::Malformed {}));
    assert_eq!(decode_query_msg(r#"{"out_tx_tracker_all":[]}"#), Err(WatcherError::Malformed {}));
}

#[test]
fn chars_of_keeps_every_character() {
    assert_eq!(chars_of("aé\u{1F600}"), vec!['a', 'é', '\u{1F600}']);
}

#[test]
fn query_response_writes_snapshot_unchanged() {
    assert_eq!(
        query_response(Ok(snapshot())),
        Ok(r#"{"out_tx_tracker":[{"index":"1","chain":"BSC","nonce":"7","hashlist":[{"txhash":"0xabc","singer":"obs1"}]}]}"#.to_string())
    );
    let err = WatcherError::Core("no such query".to_string());
    assert_eq!(query_response(Err(err.clone())), Err(err));
}

#[test]
fn response_encoding_lists() {
    let empty = OutTxTrackerAllResponse { out_tx_tracker: vec![] };
    assert_eq!(encode_out_tx_tracker_all_response(&empty), r#"{"out_tx_tracker":[]}"#);
    let two = OutTxTrackerAllResponse {
        out_tx_tracker: vec![
            OutTxTracker {
                index: "1".to_string(),
                chain: "BSC".to_string(),
                nonce: "7".to_string(),
                hashlist: vec![
                    TxHashList { txhash: "0xabc".to_string(), singer: "obs1".to_string() },
                    TxHashList { txhash: "0xabd".to_string(), singer: "obs2".to_string() },
                ],
            },
            OutTxTracker {
                index: "2".to_string(),
                chain: "ETH".to_string(),
                nonce: "8".to_string(),
                hashlist: vec![],
            },
        ],
    };
    assert_eq!(
        encode_out_tx_tracker_all_response(&two),
        r#"{"out_tx_tracker":[{"index":"1","chain":"BSC","nonce":"7","hashlist":[{"txhash":"0xabc","singer":"obs1"},{"txhash":"0xabd","singer":"obs2"}]},{"index":"2","chain":"ETH","nonce":"8","hashlist":[]}]}"#
    );
}

#[test]
fn response_escapes_control_characters_in_upper_case_hex() {
    let snap = OutTxTrackerAllResponse {
        out_tx_tracker: vec![OutTxTracker {
            index: "\u{1b}".to_string(),
            chain: "\u{b}\u{e}".to_string(),
            nonce: "".to_string(),
            hashlist: vec![],
        }],
    };
    assert_eq!(
        encode_out_tx_tracker_all_response(&snap),
        r#"{"out_tx_tracker":[{"index":"\u001B","chain":"\u000B\u000E","nonce":"","hashlist":[]}]}"#
    );
}

#[test]
fn upper_case_escape_decodes_and_lower_case_does_not() {
    let text = r#"{"add_to_watch_list":{"chain":"\u001A","nonce":1,"tx_hash":"x"}}"#;
    assert_eq!(decode_execute_msg(text), Ok(add("\u{1a}", 1, "x")));
    let lower = r#"{"add_to_watch_list":{"chain":"\u001a","nonce":1,"tx_hash":"x"}}"#;
    assert_eq!(decode_execute_msg(lower), Err(WatcherError::Malformed {}));
}
