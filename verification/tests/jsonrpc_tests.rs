use lsp_core::json::{Json, JsonNumber};
use lsp_core::jsonrpc::{classify, classify_value, Incoming, ProtocolError, RequestId, RpcError, METHOD_NOT_FOUND};

fn convert(value: &serde_json::Value) -> Json {
    match value {
        serde_json::Value::Null => Json::Null,
        serde_json::Value::Bool(b) => Json::Bool(*b),
        serde_json::Value::Number(n) => Json::Number(match (n.as_u64(), n.as_i64()) {
            (Some(u), _) => JsonNumber::Unsigned(u),
            (None, Some(i)) => JsonNumber::Negative(i),
            _ => JsonNumber::Fraction,
        }),
        serde_json::Value::String(s) => Json::Str(s.clone()),
        serde_json::Value::Array(items) => Json::Array(items.iter().map(convert).collect()),
        serde_json::Value::Object(map) => {
            Json::Object(map.iter().map(|(k, v)| (k.clone(), convert(v))).collect())
        },
    }
}

fn json(text: &str) -> Json {
    convert(&serde_json::from_str::<serde_json::Value>(text).expect("valid JSON"))
}

#[test]
fn a_response_carrying_a_result_is_classified_as_one() {
    match classify(br#"{"jsonrpc":"2.0","id":1,"result":{"ok":true}}"#).expect("valid") {
        Incoming::Response { id, result, error } => {
            assert_eq!(RequestId::Num(1), id);
            assert_eq!(Some(json(r#"{"ok": true}"#)), result);
            assert!(error.is_none());
        },
        other => panic!("expected a response, got {other:?}"),
    }
}

#[test]
fn a_null_result_is_a_present_answer_and_not_a_missing_one() {
    // `textDocument/definition` answers `null` for "there is no definition".
    match classify(br#"{"jsonrpc":"2.0","id":7,"result":null}"#).expect("valid") {
        Incoming::Response { result, error, .. } => {
            assert_eq!(Some(Json::Null), result);
            assert!(error.is_none());
        },
        other => panic!("expected a response, got {other:?}"),
    }
}

#[test]
fn a_response_carrying_an_error_keeps_its_code_and_message() {
    match classify(br#"{"jsonrpc":"2.0","id":"a","error":{"code":-32601,"message":"nope"}}"#)
        .expect("valid")
    {
        Incoming::Response { id, error, .. } => {
            assert_eq!(RequestId::Str("a".into()), id);
            let error = error.expect("an error object");
            assert_eq!(METHOD_NOT_FOUND, error.code);
            assert_eq!("nope", error.message);
        },
        other => panic!("expected a response, got {other:?}"),
    }
}

#[test]
fn a_response_with_both_a_result_and_an_error_is_read_as_the_error() {
    // Illegal per JSON-RPC, and shipped anyway.
    match classify(br#"{"jsonrpc":"2.0","id":1,"result":[],"error":{"code":-1,"message":"x"}}"#)
        .expect("valid")
    {
        Incoming::Response { error, result, .. } => {
            assert!(error.is_some(), "the error must win");
            assert_eq!(None, result);
        },
        other => panic!("expected a response, got {other:?}"),
    }
}

#[test]
fn a_request_from_the_server_keeps_its_id_so_it_can_be_answered() {
    match classify(
        br#"{"jsonrpc":"2.0","id":3,"method":"workspace/configuration","params":{"items":[{}]}}"#,
    )
    .expect("valid")
    {
        Incoming::Request { id, method, params } => {
            assert_eq!(RequestId::Num(3), id);
            assert_eq!("workspace/configuration", method);
            assert!(params.is_some());
        },
        other => panic!("expected a request, got {other:?}"),
    }
}

#[test]
fn a_notification_is_told_apart_from_a_request_by_having_no_id() {
    match classify(br#"{"jsonrpc":"2.0","method":"window/logMessage","params":{"type":3}}"#).expect("valid") {
        Incoming::Notification { method, .. } => assert_eq!("window/logMessage", method),
        other => panic!("expected a notification, got {other:?}"),
    }
}

#[test]
fn a_request_with_a_null_id_is_a_request_and_not_a_notification() {
    match classify(br#"{"jsonrpc":"2.0","id":null,"method":"x"}"#).expect("valid") {
        Incoming::Request { id, .. } => assert_eq!(RequestId::Null, id),
        other => panic!("expected a request, got {other:?}"),
    }
}

#[test]
fn a_string_id_and_a_numeric_id_are_not_the_same_id() {
    // They correlate different requests. Comparing them by their printed form
    // would let one response resolve another request's waiter.
    assert_ne!(RequestId::Num(1), RequestId::Str("1".into()));
}

#[test]
fn a_message_that_is_neither_shape_is_refused() {
    for raw in [&br#"{"jsonrpc":"2.0"}"#[..], &br#"{"jsonrpc":"2.0","id":1}"#[..], &br#"{}"#[..]] {
        classify(raw).expect_err("no method and no result or error is not a message");
    }
}

#[test]
fn malformed_json_is_refused_rather_than_guessed_at() {
    for raw in [&b"{"[..], &b""[..], &b"not json"[..], &b"[1,2,3]"[..]] {
        classify(raw).expect_err("unparseable");
    }
}

// ---------------------------------------------------------------------------
// The decisions, member by member
// ---------------------------------------------------------------------------

#[test]
fn a_message_that_is_not_an_object_is_refused_as_such() {
    assert_eq!(Err(ProtocolError::NotAnObject), classify_value(json("[1,2,3]")));
    assert_eq!("message is not a JSON object", ProtocolError::NotAnObject.to_string());
}

#[test]
fn an_answer_needs_an_id_and_a_bare_id_is_no_answer() {
    assert_eq!(Err(ProtocolError::ResponseWithoutId), classify_value(json(r#"{"result":5}"#)));
    assert_eq!(Err(ProtocolError::UnknownShape), classify_value(json(r#"{"id":1}"#)));
    assert_eq!("a response arrived with no id to correlate it to", ProtocolError::ResponseWithoutId.to_string());
    assert_eq!(
        "message is not valid JSON: eof",
        ProtocolError::NotJson { detail: "eof".to_string() }.to_string()
    );
}

#[test]
fn a_null_or_unreadable_error_is_no_error_and_then_the_result_stands() {
    assert_eq!(
        Ok(Incoming::Response { id: RequestId::Num(2), result: Some(Json::Bool(true)), error: None }),
        classify_value(json(r#"{"id":2,"result":true,"error":null}"#))
    );
    assert_eq!(
        Ok(Incoming::Response { id: RequestId::Num(2), result: Some(Json::Bool(true)), error: None }),
        classify_value(json(r#"{"id":2,"result":true,"error":{"code":"x"}}"#))
    );
    // An error with nothing else to read is still an answer.
    assert_eq!(
        Ok(Incoming::Response {
            id: RequestId::Num(-4),
            result: None,
            error: Some(RpcError { code: 5, message: "m".to_string() }),
        }),
        classify_value(json(r#"{"id":-4,"error":[5,"m"]}"#))
    );
}

#[test]
fn an_id_that_is_neither_a_whole_number_nor_a_string_correlates_as_null() {
    match classify_value(json(r#"{"id":1.5,"method":"m"}"#)) {
        Ok(Incoming::Request { id, .. }) => assert_eq!(RequestId::Null, id),
        other => panic!("expected a request, got {other:?}"),
    }
    match classify_value(json(r#"{"id":"1","method":"m"}"#)) {
        Ok(Incoming::Request { id, params, .. }) => {
            assert_eq!(RequestId::Str("1".to_string()), id);
            assert_eq!(None, params);
        },
        other => panic!("expected a request, got {other:?}"),
    }
}

#[test]
fn a_method_that_is_not_a_string_does_not_make_a_request() {
    assert_eq!(Err(ProtocolError::UnknownShape), classify_value(json(r#"{"id":1,"method":5}"#)));
}

// ---------------------------------------------------------------------------
// What this client writes
// ---------------------------------------------------------------------------

use lsp_core::jsonrpc::Outgoing;

/// A written message as serde's value, to compare with the JSON it should be.
fn written(message: Outgoing) -> serde_json::Value {
    fn back(value: &Json) -> serde_json::Value {
        match value {
            Json::Null => serde_json::Value::Null,
            Json::Bool(b) => serde_json::Value::Bool(*b),
            Json::Number(JsonNumber::Unsigned(u)) => serde_json::Value::from(*u),
            Json::Number(JsonNumber::Negative(i)) => serde_json::Value::from(*i),
            Json::Number(JsonNumber::Fraction) => serde_json::Value::Null,
            Json::Str(s) => serde_json::Value::String(s.clone()),
            Json::Array(items) => serde_json::Value::Array(items.iter().map(back).collect()),
            Json::Object(fields) => {
                serde_json::Value::Object(fields.iter().map(|(k, v)| (k.clone(), back(v))).collect())
            },
        }
    }
    back(&message.to_json())
}

fn value(text: &str) -> serde_json::Value {
    serde_json::from_str(text).expect("valid JSON")
}

#[test]
fn an_outgoing_request_carries_the_version_the_method_and_the_id() {
    let encoded = written(Outgoing::request(RequestId::Num(4), "textDocument/references", json(r#"{"a": 1}"#)));
    assert_eq!(
        value(r#"{"jsonrpc": "2.0", "id": 4, "method": "textDocument/references", "params": {"a": 1}}"#),
        encoded
    );
}

#[test]
fn an_outgoing_notification_carries_no_id_field_at_all() {
    // An `"id": null` would make the server believe a response is expected.
    let encoded = written(Outgoing::notification("initialized", json("{}")));
    assert_eq!(value(r#"{"jsonrpc": "2.0", "method": "initialized", "params": {}}"#), encoded);
    assert!(encoded.get("id").is_none(), "a notification must have no id key: {encoded}");
}

#[test]
fn an_outgoing_reply_carries_a_result_even_when_it_is_null() {
    let encoded = written(Outgoing::reply(RequestId::Num(2), Json::Null));
    assert_eq!(value(r#"{"jsonrpc": "2.0", "id": 2, "result": null}"#), encoded);
}

#[test]
fn an_outgoing_error_reply_carries_the_code_and_no_result() {
    let encoded = written(Outgoing::error_reply(RequestId::Num(9), METHOD_NOT_FOUND, "unsupported"));
    assert_eq!(
        value(r#"{"jsonrpc": "2.0", "id": 9, "error": {"code": -32601, "message": "unsupported"}}"#),
        encoded
    );
}

#[test]
fn written_members_come_in_a_fixed_order_with_jsonrpc_first() {
    match Outgoing::request(RequestId::Str("x".to_string()), "m", Json::Null).to_json() {
        Json::Object(fields) => {
            let keys: Vec<&str> = fields.iter().map(|(k, _)| k.as_str()).collect();
            assert_eq!(vec!["jsonrpc", "id", "method", "params"], keys);
            assert_eq!(Json::Str("x".to_string()), fields[1].1);
        },
        other => panic!("expected an object, got {other:?}"),
    }
}
