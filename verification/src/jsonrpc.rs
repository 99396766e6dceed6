//! The JSON-RPC envelope: what kind of message arrived, and how to tell a
//! server request (which must be answered, or the server hangs) from a
//! notification (which must not be).
//!
//! The JSON itself is read where bytes are parsed; what is decided here is
//! what the members that were present mean.
use vstd::prelude::*;

use crate::json::{i64_of, i64_spec, json_of, keys_of, member, member_spec, parse_json, str_of, str_spec, Json, JsonNumber};
use crate::text::same_text;

verus! {

/// The error code for a method this client does not implement.
pub const METHOD_NOT_FOUND: i64 = -32601;

/// A request id. A number and a string that print alike are different ids.
#[derive(Debug, Clone, PartialEq, Eq, Hash)]
pub enum RequestId {
    Num(i64),
    Str(String),
    Null,
}

/// The `error` member of a response.
#[derive(Debug, Clone, PartialEq, Eq)]
pub struct RpcError {
    pub code: i64,
    pub message: String,
}

/// Why a message could not be read as JSON-RPC.
#[derive(Debug, PartialEq, Eq)]
pub enum ProtocolError {
    NotJson { detail: String },
    NotAnObject,
    UnknownShape,
    ResponseWithoutId,
}

impl ProtocolError {
    /// The refusal as a sentence.
    pub fn to_string(&self) -> (r: String)
        ensures
            r@ == match self {
                ProtocolError::NotJson { detail } => "message is not valid JSON: "@ + detail@,
                ProtocolError::NotAnObject => "message is not a JSON object"@,
                ProtocolError::UnknownShape => "message is neither a request, a notification, nor a response"@,
                ProtocolError::ResponseWithoutId => "a response arrived with no id to correlate it to"@,
            },
    {
        match self {
            ProtocolError::NotJson { detail } => {
                let mut out = String::new();
                out.append("message is not valid JSON: ");
                out.append(detail.as_str());
                out
            },
            ProtocolError::NotAnObject => "message is not a JSON object".to_owned(),
            ProtocolError::UnknownShape => "message is neither a request, a notification, nor a response".to_owned(),
            ProtocolError::ResponseWithoutId => "a response arrived with no id to correlate it to".to_owned(),
        }
    }
}

/// A message read from a server.
#[derive(Debug, PartialEq, Eq)]
pub enum Incoming {
    /// An answer to something we asked: its `result`, unless an `error` came
    /// with it, which wins.
    Response { id: RequestId, result: Option<Json>, error: Option<RpcError> },
    /// Something the server is asking us. Must be answered.
    Request { id: RequestId, method: String, params: Option<Json> },
    /// Something the server is telling us. Must not be answered.
    Notification { method: String, params: Option<Json> },
}

/// The id an `id` member stands for: anything that is neither an integer
/// that fits an `i64` nor a string correlates as `Null`.
pub open spec fn id_spec(v: Option<Json>) -> RequestId {
    match v {
        Some(Json::Str(s)) => RequestId::Str(s),
        Some(j) => match i64_spec(j) {
            Some(n) => RequestId::Num(n),
            None => RequestId::Null,
        },
        None => RequestId::Null,
    }
}

fn id_of(v: Option<&Json>) -> (r: RequestId)
    ensures
        r == id_spec(
            match v {
                Some(j) => Some(*j),
                None => None,
            },
        ),
{
    match v {
        Some(Json::Str(s)) => RequestId::Str(s.clone()),
        Some(j) => match i64_of(j) {
            Some(n) => RequestId::Num(n),
            None => RequestId::Null,
        },
        None => RequestId::Null,
    }
}

pub open spec fn error_parts(code: Option<i64>, message: Option<String>) -> Option<RpcError> {
    match (code, message) {
        (Some(code), Some(message)) => Some(RpcError { code, message }),
        _ => None,
    }
}

/// An `error` member read as an error object: an object with a code and a
/// message, or an array of exactly those two.
pub open spec fn rpc_error_spec(j: Json) -> Option<RpcError> {
    match j {
        Json::Object(fs) => match (member_spec(fs@, "code"@), member_spec(fs@, "message"@)) {
            (Some(c), Some(m)) => error_parts(i64_spec(c), str_spec(m)),
            _ => None,
        },
        Json::Array(items) => if items@.len() == 2 {
            error_parts(i64_spec(items@[0]), str_spec(items@[1]))
        } else {
            None
        },
        _ => None,
    }
}

fn rpc_error_of(j: &Json) -> (r: Option<RpcError>)
    ensures
        r == rpc_error_spec(*j),
{
    let (c, m) = match j {
        Json::Object(fs) => match (member(fs, "code"), member(fs, "message")) {
            (Some(c), Some(m)) => (c, m),
            _ => {
                return None;
            },
        },
        Json::Array(items) => {
            if items.len() != 2 {
                return None;
            }
            (&items[0], &items[1])
        },
        _ => {
            return None;
        },
    };
    match (i64_of(c), str_of(m)) {
        (Some(code), Some(message)) => Some(RpcError { code, message }),
        _ => None,
    }
}

/// The `error` member, when it is present, not `null`, and readable.
pub open spec fn error_member(fs: Seq<(String, Json)>) -> Option<RpcError> {
    match member_spec(fs, "error"@) {
        Some(Json::Null) => None,
        Some(e) => rpc_error_spec(e),
        None => None,
    }
}

/// Which of the three shapes a message is. A string `method` makes it a
/// request when an `id` key is present, even as `null`, and a notification
/// when not; otherwise a `result` key or a readable `error` makes it a
/// response, which needs an `id`.
pub open spec fn incoming_spec(j: Json) -> Result<Incoming, ProtocolError> {
    match j {
        Json::Object(fs) => match member_spec(fs@, "method"@) {
            Some(Json::Str(m)) => if member_spec(fs@, "id"@) is Some {
                Ok(
                    Incoming::Request {
                        id: id_spec(member_spec(fs@, "id"@)),
                        method: m,
                        params: member_spec(fs@, "params"@),
                    },
                )
            } else {
                Ok(Incoming::Notification { method: m, params: member_spec(fs@, "params"@) })
            },
            _ => {
                let error = error_member(fs@);
                if member_spec(fs@, "result"@) is None && error is None {
                    Err(ProtocolError::UnknownShape)
                } else if member_spec(fs@, "id"@) is None {
                    Err(ProtocolError::ResponseWithoutId)
                } else {
                    Ok(
                        Incoming::Response {
                            id: id_spec(member_spec(fs@, "id"@)),
                            result: if error is Some {
                                None
                            } else {
                                member_spec(fs@, "result"@)
                            },
                            error,
                        },
                    )
                }
            },
        },
        _ => Err(ProtocolError::NotAnObject),
    }
}

/// The value filed under `key`, taken out of the members.
fn take_member(fields: Vec<(String, Json)>, key: &str) -> (r: Option<Json>)
    ensures
        r == member_spec(fields@, key@),
{
    let mut i: usize = 0;
    assert(fields@.skip(0) =~= fields@);
    while i < fields.len()
        invariant
            i <= fields@.len(),
            member_spec(fields@, key@) == member_spec(fields@.skip(i as int), key@),
        decreases fields@.len() - i,
    {
        assert(fields@.skip(i as int).drop_first() =~= fields@.skip(i + 1));
        assert(fields@.skip(i as int)[0] == fields@[i as int]);
        if same_text(fields[i].0.as_str(), key) {
            let mut fs = fields;
            let (_, v) = fs.remove(i);
            return Some(v);
        }
        i = i + 1;
    }
    None
}

/// Read a message body: not JSON at all is `NotJson`, carrying serde_json's
/// words; JSON is classified as `classify_value` says.
pub fn classify(bytes: &[u8]) -> (r: Result<Incoming, ProtocolError>)
    ensures
        match json_of(bytes@) {
            None => r matches Err(ProtocolError::NotJson { .. }),
            Some(v) => r == incoming_spec(v),
        },
{
    match parse_json(bytes) {
        Ok(value) => classify_value(value),
        Err(detail) => Err(ProtocolError::NotJson { detail }),
    }
}

/// Decide which of the three shapes a message is.
pub fn classify_value(value: Json) -> (r: Result<Incoming, ProtocolError>)
    ensures
        r == incoming_spec(value),
{
    let fields = match value {
        Json::Object(fs) => fs,
        _ => {
            return Err(ProtocolError::NotAnObject);
        },
    };
    let method = match member(&fields, "method") {
        Some(Json::Str(m)) => Some(m.clone()),
        _ => None,
    };
    if let Some(method) = method {
        let has_id = member(&fields, "id").is_some();
        let id = id_of(member(&fields, "id"));
        let params = take_member(fields, "params");
        return Ok(
            if has_id {
                Incoming::Request { id, method, params }
            } else {
                Incoming::Notification { method, params }
            },
        );
    }
    let error = match member(&fields, "error") {
        Some(Json::Null) => None,
        Some(e) => rpc_error_of(e),
        None => None,
    };
    let has_result = member(&fields, "result").is_some();
    if !has_result && error.is_none() {
        return Err(ProtocolError::UnknownShape);
    }
    if member(&fields, "id").is_none() {
        return Err(ProtocolError::ResponseWithoutId);
    }
    let id = id_of(member(&fields, "id"));
    let result = if error.is_some() {
        None
    } else {
        take_member(fields, "result")
    };
    Ok(Incoming::Response { id, result, error })
}

/// A message written to a server. One struct rather than an enum, so the
/// rules the protocol cares about stand in one place: a notification has no
/// `id` key at all, since `"id": null` would make the server expect a reply,
/// and a reply always has a `result` key, even when its value is null.
#[derive(Debug, PartialEq, Eq)]
pub struct Outgoing {
    pub jsonrpc: &'static str,
    pub id: Option<RequestId>,
    pub method: Option<&'static str>,
    pub params: Option<Json>,
    pub result: Option<Json>,
    pub error: Option<RpcError>,
}

/// An id as it is written: a number, a string, or `null`.
pub open spec fn id_json(id: RequestId) -> Json {
    match id {
        RequestId::Num(n) => if n >= 0 {
            Json::Number(JsonNumber::Unsigned(n as u64))
        } else {
            Json::Number(JsonNumber::Negative(n))
        },
        RequestId::Str(s) => Json::Str(s),
        RequestId::Null => Json::Null,
    }
}

fn id_to_json(id: RequestId) -> (r: Json)
    ensures
        r == id_json(id),
{
    match id {
        RequestId::Num(n) => if n >= 0 {
            Json::Number(JsonNumber::Unsigned(n as u64))
        } else {
            Json::Number(JsonNumber::Negative(n))
        },
        RequestId::Str(s) => Json::Str(s),
        RequestId::Null => Json::Null,
    }
}

/// An error written as an object of its code and its message.
pub open spec fn error_json(j: Json, e: RpcError) -> bool {
    j matches Json::Object(fs) && fs@.len() == 2 && fs@[0].0@ == "code"@ && i64_spec(fs@[0].1) == Some(e.code)
        && fs@[1].0@ == "message"@ && fs@[1].1 == Json::Str(e.message)
}

pub open spec fn key_if(present: bool, key: Seq<char>) -> Seq<Seq<char>> {
    if present {
        seq![key]
    } else {
        Seq::empty()
    }
}

/// The keys a message is written with, in order: `jsonrpc`, then each
/// field that is set.
pub open spec fn written_keys(m: Outgoing) -> Seq<Seq<char>> {
    seq!["jsonrpc"@] + key_if(m.id is Some, "id"@) + key_if(m.method is Some, "method"@) + key_if(
        m.params is Some,
        "params"@,
    ) + key_if(m.result is Some, "result"@) + key_if(m.error is Some, "error"@)
}

/// What the member under `key` holds.
pub open spec fn written_value(key: Seq<char>, v: Json, m: Outgoing) -> bool {
    if key == "jsonrpc"@ {
        str_spec(v) matches Some(s) && s@ == m.jsonrpc@
    } else if key == "id"@ {
        m.id matches Some(id) && v == id_json(id)
    } else if key == "method"@ {
        m.method matches Some(x) && str_spec(v) matches Some(s) && s@ == x@
    } else if key == "params"@ {
        m.params == Some(v)
    } else if key == "result"@ {
        m.result == Some(v)
    } else {
        m.error matches Some(e) && error_json(v, e)
    }
}

pub open spec fn messages_fields(fs: Seq<(String, Json)>, m: Outgoing) -> bool {
    &&& keys_of(fs) == written_keys(m)
    &&& forall|i: int| 0 <= i < fs.len() ==> written_value(#[trigger] fs[i].0@, fs[i].1, m)
}

impl Outgoing {
    fn empty() -> (r: Self)
        ensures
            r.jsonrpc@ == "2.0"@,
            r.id is None && r.method is None && r.params is None && r.result is None && r.error is None,
    {
        Outgoing { jsonrpc: "2.0", id: None, method: None, params: None, result: None, error: None }
    }

    pub fn request(id: RequestId, method: &'static str, params: Json) -> (r: Self)
        ensures
            r.jsonrpc@ == "2.0"@,
            r.id == Some(id),
            r.method == Some(method),
            r.params == Some(params),
            r.result is None && r.error is None,
    {
        Outgoing { id: Some(id), method: Some(method), params: Some(params), ..Self::empty() }
    }

    pub fn notification(method: &'static str, params: Json) -> (r: Self)
        ensures
            r.jsonrpc@ == "2.0"@,
            r.id is None,
            r.method == Some(method),
            r.params == Some(params),
            r.result is None && r.error is None,
    {
        Outgoing { method: Some(method), params: Some(params), ..Self::empty() }
    }

    /// A reply; its `result` key is written even when the value is null.
    pub fn reply(id: RequestId, result: Json) -> (r: Self)
        ensures
            r.jsonrpc@ == "2.0"@,
            r.id == Some(id),
            r.result == Some(result),
            r.method is None && r.params is None && r.error is None,
    {
        Outgoing { id: Some(id), result: Some(result), ..Self::empty() }
    }

    pub fn error_reply(id: RequestId, code: i64, message: &str) -> (r: Self)
        ensures
            r.jsonrpc@ == "2.0"@,
            r.id == Some(id),
            r.error matches Some(e) && e.code == code && e.message@ == message@,
            r.method is None && r.params is None && r.result is None,
    {
        Outgoing { id: Some(id), error: Some(RpcError { code, message: message.to_owned() }), ..Self::empty() }
    }

    /// The message as it is written: `jsonrpc`, then only the fields that
    /// are set.
    pub fn to_json(self) -> (r: Json)
        ensures
            r matches Json::Object(fs) && messages_fields(fs@, self),
    {
        proof {
            reveal_strlit("jsonrpc");
            reveal_strlit("id");
            reveal_strlit("method");
            reveal_strlit("params");
            reveal_strlit("result");
            reveal_strlit("error");
            assert("params"@[0] != "method"@[0]);
            assert("result"@[0] != "method"@[0]);
            assert("result"@[0] != "params"@[0]);
        }
        let ghost m = self;
        let Outgoing { jsonrpc, id, method, params, result, error } = self;
        assert(m.params == params && m.result == result && m.id == id && m.method == method && m.error == error);
        let mut fs: Vec<(String, Json)> = Vec::new();
        fs.push(("jsonrpc".to_owned(), Json::Str(jsonrpc.to_owned())));
        assert(keys_of(fs@) =~= seq!["jsonrpc"@]);
        let ghost mut want = seq!["jsonrpc"@];
        assert(written_value(fs@[0].0@, fs@[0].1, m));
        if let Some(id) = id {
            let ghost before = fs@;
            fs.push(("id".to_owned(), id_to_json(id)));
            assert(fs@[before.len() as int].0@ == "id"@);
            assert(written_value(fs@[before.len() as int].0@, fs@[before.len() as int].1, m));
            assert forall|i: int| 0 <= i < fs@.len() implies written_value(#[trigger] fs@[i].0@, fs@[i].1, m) by {
                if i < before.len() {
                    assert(fs@[i] == before[i]);
                }
            }
        }
        proof {
            want = want + key_if(m.id is Some, "id"@);
            assert(keys_of(fs@) =~= want);
        }
        if let Some(method) = method {
            let ghost before = fs@;
            fs.push(("method".to_owned(), Json::Str(method.to_owned())));
            assert(written_value(fs@[before.len() as int].0@, fs@[before.len() as int].1, m));
            assert forall|i: int| 0 <= i < fs@.len() implies written_value(#[trigger] fs@[i].0@, fs@[i].1, m) by {
                if i < before.len() {
                    assert(fs@[i] == before[i]);
                }
            }
        }
        proof {
            want = want + key_if(m.method is Some, "method"@);
            assert(keys_of(fs@) =~= want);
        }
        if let Some(p) = params {
            let ghost before = fs@;
            fs.push(("params".to_owned(), p));
            assert(written_value(fs@[before.len() as int].0@, fs@[before.len() as int].1, m));
            assert forall|i: int| 0 <= i < fs@.len() implies written_value(#[trigger] fs@[i].0@, fs@[i].1, m) by {
                if i < before.len() {
                    assert(fs@[i] == before[i]);
                }
            }
        }
        proof {
            want = want + key_if(m.params is Some, "params"@);
            assert(keys_of(fs@) =~= want);
        }
        if let Some(v) = result {
            let ghost before = fs@;
            fs.push(("result".to_owned(), v));
            assert(written_value(fs@[before.len() as int].0@, fs@[before.len() as int].1, m));
            assert forall|i: int| 0 <= i < fs@.len() implies written_value(#[trigger] fs@[i].0@, fs@[i].1, m) by {
                if i < before.len() {
                    assert(fs@[i] == before[i]);
                }
            }
        }
        proof {
            want = want + key_if(m.result is Some, "result"@);
            assert(keys_of(fs@) =~= want);
        }
        if let Some(error) = error {
            let ghost before = fs@;
            let ghost err = error;
            let mut e: Vec<(String, Json)> = Vec::new();
            let code = if error.code >= 0 {
                Json::Number(JsonNumber::Unsigned(error.code as u64))
            } else {
                Json::Number(JsonNumber::Negative(error.code))
            };
            e.push(("code".to_owned(), code));
            e.push(("message".to_owned(), Json::Str(error.message)));
            proof {
                reveal_strlit("code");
                reveal_strlit("message");
            }
            assert(error_json(Json::Object(e), err));
            fs.push(("error".to_owned(), Json::Object(e)));
            assert(fs@[before.len() as int].0@ == "error"@);
            assert(written_value(fs@[before.len() as int].0@, fs@[before.len() as int].1, m));
            assert forall|i: int| 0 <= i < fs@.len() implies written_value(#[trigger] fs@[i].0@, fs@[i].1, m) by {
                if i < before.len() {
                    assert(fs@[i] == before[i]);
                }
            }
        }
        proof {
            want = want + key_if(m.error is Some, "error"@);
            assert(keys_of(fs@) =~= want);
            assert(want =~= written_keys(m));
        }
        Json::Object(fs)
    }
}

} // verus!
