use pool_payout::engine::{gethash, scan, Engine, EngineCommand, EngineMsg, EnginePhase, FeedEvent};
use pool_payout::money::{pct_share, precise, FEE_UNITS, MAX_AMOUNT_UNITS, UNITS_PER_COIN};
use pool_payout::rpc::{
    decode_amount, decode_text, encode_request, getbalance_request, parametrize, parse_token,
    pay_request, AuthToken, FatalError, RPCResponse, RpcValue,
};
use pool_payout::text::{json_escape, parse_amount_token, render_amount};

const ADDR1: &str = "GaMd2KZVkuxGMLoJDzQMsbPVajoCFd4RS9";
const ADDR2: &str = "Gap8aLe6v41t5W7hAgcL5psKYQER3GGRYn";
const ADDR3: &str = "GUsRaKq6X5UQE8zBWsuwYBJUNxp35zDfFi";
const ADDR4: &str = "GQ8osQUL25fgjaWnFJm6bHUYawPL53cUC5";

#[test]
fn precise_rounds_half_up() {
    assert_eq!(precise(250, 100), 3);
    assert_eq!(precise(249, 100), 2);
    assert_eq!(precise(0, 7), 0);
    assert_eq!(precise(35, 10), 4);
}

#[test]
fn precise_is_idempotent_on_rounded_values() {
    let r = precise(12345, 100);
    assert_eq!(precise(r * 100, 100), r);
    let r2 = precise(999_999_999, 1_000);
    assert_eq!(precise(r2 * 1_000, 1_000), r2);
}

#[test]
fn shares_sum_to_amount_within_one_minor_unit() {
    for a in [0u64, 1, 9, 99, 999, 1_000_001, 123_456_789, MAX_AMOUNT_UNITS] {
        let sum = pct_share(a, 60) + pct_share(a, 25) + pct_share(a, 10) + pct_share(a, 5);
        assert!(sum + 1 >= a && sum <= a + 1, "amount {a} summed to {sum}");
    }
}

#[test]
fn exact_splits_sum_exactly() {
    for a in [0u64, 20, 2_000_000, 1_000_000_000] {
        let sum = pct_share(a, 60) + pct_share(a, 25) + pct_share(a, 10) + pct_share(a, 5);
        assert_eq!(sum, a);
    }
}

#[test]
fn share_values_are_exact() {
    assert_eq!(pct_share(100, 60), 60);
    assert_eq!(pct_share(1, 60), 1);
    assert_eq!(pct_share(1, 5), 0);
    assert_eq!(pct_share(1_000_001, 60), 600_001);
    assert_eq!(pct_share(1_000_001, 25), 250_000);
    assert_eq!(pct_share(1_000_001, 10), 100_000);
    assert_eq!(pct_share(1_000_001, 5), 50_000);
}

#[test]
fn amount_rendering_is_canonical() {
    assert_eq!(render_amount(0), "0");
    assert_eq!(render_amount(UNITS_PER_COIN), "1");
    assert_eq!(render_amount(123), "0.00000123");
    assert_eq!(render_amount(150_000_000), "1.50000000");
    assert_eq!(render_amount(MAX_AMOUNT_UNITS), "21000000");
}

#[test]
fn amount_token_parsing_rounds_at_eight_places() {
    assert_eq!(parse_amount_token("1"), Some(UNITS_PER_COIN));
    assert_eq!(parse_amount_token("0.5"), Some(50_000_000));
    assert_eq!(parse_amount_token("1.000000005"), Some(100_000_001));
    assert_eq!(parse_amount_token("0.000000004"), Some(0));
    assert_eq!(parse_amount_token("0.000000005"), Some(1));
    assert_eq!(parse_amount_token("21000000"), Some(MAX_AMOUNT_UNITS));
    assert_eq!(parse_amount_token("21000001"), None);
    assert_eq!(parse_amount_token("01"), None);
    assert_eq!(parse_amount_token("1."), None);
    assert_eq!(parse_amount_token(".5"), None);
    assert_eq!(parse_amount_token("-1"), None);
    assert_eq!(parse_amount_token(""), None);
}

#[test]
fn rendered_amounts_parse_back() {
    for u in [0u64, 1, 99_999_999, 100_000_000, 123_456_789, 2_000_000, MAX_AMOUNT_UNITS] {
        assert_eq!(parse_amount_token(&render_amount(u)), Some(u));
    }
}

#[test]
fn token_classification() {
    assert_eq!(parse_token("true"), RpcValue::Bool(true));
    assert_eq!(parse_token("false"), RpcValue::Bool(false));
    assert_eq!(parse_token("null"), RpcValue::Null);
    assert_eq!(parse_token("1"), RpcValue::Num(UNITS_PER_COIN));
    assert_eq!(parse_token("\"*\""), RpcValue::Str("*".to_string()));
    assert_eq!(parse_token("\"\""), RpcValue::Str(String::new()));
    assert_eq!(parse_token("abc"), RpcValue::Str("abc".to_string()));
    assert_eq!(parse_token("01"), RpcValue::Str("01".to_string()));
}

#[test]
fn quoted_tokens_decode_their_escapes() {
    // The short escapes and the two-hex-digit universal escape.
    assert_eq!(parse_token("\"a\\\"b\""), RpcValue::Str("a\"b".to_string()));
    assert_eq!(parse_token("\"a\\\\b\""), RpcValue::Str("a\\b".to_string()));
    assert_eq!(parse_token("\"a\\nb\""), RpcValue::Str("a\nb".to_string()));
    assert_eq!(parse_token("\"a\\bb\""), RpcValue::Str("a\u{8}b".to_string()));
    assert_eq!(parse_token("\"\\u000a\""), RpcValue::Str("\n".to_string()));
    assert_eq!(parse_token("\"\\u001F\""), RpcValue::Str("\u{1f}".to_string()));
    // An unknown escape, an unterminated escape, and a universal escape
    // beyond the two-hex-digit form stay literal tokens.
    assert_eq!(parse_token("\"a\\xb\""), RpcValue::Str("\"a\\xb\"".to_string()));
    assert_eq!(parse_token("\"a\\\""), RpcValue::Str("\"a\\\"".to_string()));
    assert_eq!(parse_token("\"\\u0041\""), RpcValue::Str("\"\\u0041\"".to_string()));
}

#[test]
fn escaping_then_token_parsing_round_trips() {
    for raw in ["plain", "a\"b", "back\\slash", "line\nfeed", "tab\there"] {
        let token = format!("\"{}\"", json_escape(raw));
        assert_eq!(parse_token(&token), RpcValue::Str(raw.to_string()));
    }
}

#[test]
fn table_tokens_decode_to_amount_tables() {
    assert_eq!(parse_token("{}"), RpcValue::Table(vec![]));
    assert_eq!(
        parse_token("{\"a\":0.5}"),
        RpcValue::Table(vec![("a".to_string(), 50_000_000)])
    );
    assert_eq!(
        parse_token("{\"a\":0.5,\"b\":1}"),
        RpcValue::Table(vec![("a".to_string(), 50_000_000), ("b".to_string(), 100_000_000)])
    );
    // A key with an escaped quote, and a key containing a comma.
    assert_eq!(
        parse_token("{\"a\\\"b\":1}"),
        RpcValue::Table(vec![("a\"b".to_string(), 100_000_000)])
    );
    assert_eq!(
        parse_token("{\"a,b\":1}"),
        RpcValue::Table(vec![("a,b".to_string(), 100_000_000)])
    );
    // Malformed tables stay literal tokens.
    assert_eq!(parse_token("{\"a\":x}"), RpcValue::Str("{\"a\":x}".to_string()));
    assert_eq!(parse_token("{\"a\":1,}"), RpcValue::Str("{\"a\":1,}".to_string()));
    assert_eq!(parse_token("{a:1}"), RpcValue::Str("{a:1}".to_string()));
    assert_eq!(parse_token("{\"a\":1"), RpcValue::Str("{\"a\":1".to_string()));
}

#[test]
fn payout_table_survives_the_textual_interface() {
    // The wire form of a payout's recipient table, fed back through the
    // argument parser, yields the table itself.
    let token = format!(
        "{{\"{ADDR1}\":0.01200000,\"{ADDR2}\":0.00500000,\"{ADDR3}\":0.00200000,\
         \"{ADDR4}\":0.00100000}}"
    );
    let args = format!("sendmany \"\" {token} 1");
    let req = parametrize(&args);
    assert_eq!(req.method, "sendmany");
    assert_eq!(req.params.len(), 3);
    assert_eq!(req.params[0], RpcValue::Str(String::new()));
    assert_eq!(req.params[2], RpcValue::Num(UNITS_PER_COIN));
    assert_eq!(req.params[1], pay_request(3_000_000).params[1]);
}

#[test]
fn argument_parsing_round_trip() {
    let req = parametrize("getbalance \"*\" 1");
    assert_eq!(req.method, "getbalance");
    assert_eq!(
        req.params,
        vec![RpcValue::Str("*".to_string()), RpcValue::Num(UNITS_PER_COIN)]
    );
}

#[test]
fn balance_request_matches_its_argument_string() {
    assert_eq!(parametrize("getbalance \"*\" 1"), getbalance_request());
}

#[test]
fn argument_parsing_edges() {
    let bare = parametrize("sendmany");
    assert_eq!(bare.method, "sendmany");
    assert!(bare.params.is_empty());

    let doubled = parametrize("a  b");
    assert_eq!(doubled.method, "a");
    assert_eq!(
        doubled.params,
        vec![RpcValue::Str(String::new()), RpcValue::Str("b".to_string())]
    );
}

#[test]
fn json_escaping() {
    assert_eq!(json_escape("plain"), "plain");
    assert_eq!(json_escape("a\"b\\c\n"), "a\\\"b\\\\c\\u000a");
}

#[test]
fn balance_request_wire_form() {
    let body = encode_request(&getbalance_request());
    assert_eq!(
        body,
        "{\"jsonrpc\":\"\",\"id\":\"\",\"method\":\"getbalance\",\"params\":[\"*\",1]}"
    );
}

#[test]
fn fee_is_deducted_before_the_split() {
    let req = pay_request(3_000_000);
    assert_eq!(req.method, "sendmany");
    assert_eq!(req.params.len(), 3);
    let disbursable = 3_000_000 - FEE_UNITS;
    match &req.params[1] {
        RpcValue::Table(t) => {
            assert_eq!(
                t,
                &vec![
                    (ADDR1.to_string(), pct_share(disbursable, 60)),
                    (ADDR2.to_string(), pct_share(disbursable, 25)),
                    (ADDR3.to_string(), pct_share(disbursable, 10)),
                    (ADDR4.to_string(), pct_share(disbursable, 5)),
                ]
            );
        }
        other => panic!("expected a table, got {other:?}"),
    }
}

#[test]
fn payout_request_wire_form() {
    let body = encode_request(&pay_request(3_000_000));
    let expected = format!(
        "{{\"jsonrpc\":\"\",\"id\":\"\",\"method\":\"sendmany\",\"params\":[\"\",\
         {{\"{ADDR1}\":0.01200000,\"{ADDR2}\":0.00500000,\"{ADDR3}\":0.00200000,\
         \"{ADDR4}\":0.00100000}},1]}}"
    );
    assert_eq!(body, expected);
}

#[test]
fn threshold_boundary() {
    assert_eq!(scan(2_000_000), None);
    assert!(scan(2_000_001).is_some());
}

#[test]
fn envelope_unpacking() {
    let failing = RPCResponse {
        result: RpcValue::Null,
        error: Some("insufficient funds".to_string()),
        id: "1".to_string(),
    };
    assert_eq!(
        failing.unpack(),
        Err(FatalError::Rpc("insufficient funds".to_string()))
    );

    let fine = RPCResponse {
        result: RpcValue::Num(7),
        error: None,
        id: "1".to_string(),
    };
    assert_eq!(fine.unpack(), Ok(RpcValue::Num(7)));
}

#[test]
fn result_decoding() {
    assert_eq!(decode_amount(RpcValue::Num(7)), Ok(7));
    assert!(matches!(
        decode_amount(RpcValue::Str("x".to_string())),
        Err(FatalError::Decode(_))
    ));
    assert_eq!(decode_text(RpcValue::Str("tx".to_string())), Ok("tx".to_string()));
    assert!(matches!(decode_text(RpcValue::Null), Err(FatalError::Decode(_))));
}

#[test]
fn feed_event_extraction() {
    assert_eq!(gethash(FeedEvent::Block("f00d".to_string())), Ok("f00d".to_string()));
    assert!(matches!(gethash(FeedEvent::Unexpected), Err(FatalError::Feed(_))));
    assert_eq!(
        gethash(FeedEvent::Failed("socket closed".to_string())),
        Err(FatalError::Feed("socket closed".to_string()))
    );
}

#[test]
fn two_notifications_are_handled_strictly_in_order() {
    let mut e = Engine::new();
    assert_eq!(e.phase, EnginePhase::Listening);

    // First notification: the balance query is commanded, and no further
    // query can be commanded until this cycle's payout decision is done.
    let c1 = e.step(EngineMsg::Notification(FeedEvent::Block("aa".to_string())));
    assert_eq!(c1, EngineCommand::QueryBalance);
    assert_eq!(e.phase, EnginePhase::AwaitingBalance);

    let c2 = e.step(EngineMsg::BalanceReply(Ok(RpcValue::Num(3_000_000))));
    assert!(matches!(c2, EngineCommand::SubmitPayout(_)));
    assert_eq!(e.phase, EnginePhase::AwaitingPayout);

    let c3 = e.step(EngineMsg::PayoutReply(Ok(RpcValue::Str("txid".to_string()))));
    assert_eq!(c3, EngineCommand::Wait);
    assert_eq!(e.phase, EnginePhase::Listening);

    // Only now does the second notification's balance query go out.
    let c4 = e.step(EngineMsg::Notification(FeedEvent::Block("bb".to_string())));
    assert_eq!(c4, EngineCommand::QueryBalance);
    assert_eq!(e.phase, EnginePhase::AwaitingBalance);
}

#[test]
fn balance_at_threshold_causes_no_payout() {
    let mut e = Engine::new();
    e.step(EngineMsg::Notification(FeedEvent::Block("aa".to_string())));
    let cmd = e.step(EngineMsg::BalanceReply(Ok(RpcValue::Num(2_000_000))));
    assert_eq!(cmd, EngineCommand::Wait);
    assert_eq!(e.phase, EnginePhase::Listening);
}

#[test]
fn rpc_error_halts_without_a_payout_attempt() {
    let envelope = RPCResponse {
        result: RpcValue::Null,
        error: Some("wallet is locked".to_string()),
        id: "1".to_string(),
    };
    let reply = envelope.unpack();
    assert!(reply.is_err());

    let mut e = Engine::new();
    e.step(EngineMsg::Notification(FeedEvent::Block("aa".to_string())));
    let cmd = e.step(EngineMsg::BalanceReply(reply));
    assert_eq!(cmd, EngineCommand::Halt);
    assert_eq!(e.phase, EnginePhase::Terminated);

    // Once terminated, nothing is processed any more.
    let again = e.step(EngineMsg::Notification(FeedEvent::Block("bb".to_string())));
    assert_eq!(again, EngineCommand::Halt);
    assert_eq!(e.phase, EnginePhase::Terminated);
}

#[test]
fn malformed_feed_event_halts() {
    let mut e = Engine::new();
    let cmd = e.step(EngineMsg::Notification(FeedEvent::Unexpected));
    assert_eq!(cmd, EngineCommand::Halt);
    assert_eq!(e.phase, EnginePhase::Terminated);
}

#[test]
fn auth_token_assembly() {
    let a = AuthToken::new()
        .target("127.0.0.1", 51725, "pool_accounting")
        .credentials("user", "password");
    assert_eq!(a.url, "http://127.0.0.1:51725/wallet/pool_accounting");
    assert_eq!(a.user, "user");
    assert_eq!(a.password, "password");

    let bare = AuthToken::new().target("10.0.0.1", 8332, "");
    assert_eq!(bare.url, "http://10.0.0.1:8332/");
}
