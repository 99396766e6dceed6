//! A JSON value as the decoders read it.
//!
//! Text becomes a value where bytes are parsed; everything the protocol
//! decides about a value, which shapes it accepts and what they mean, is
//! decided over this.
use vstd::prelude::*;

use crate::order::{lex_sorted, sort_lex, texts};
use crate::text::{decimal_chars, decimal_string};

verus! {

/// A JSON number: a whole number from 0 to `u64::MAX`, a negative whole
/// number from `i64::MIN`, or any other number, whose value nothing here
/// reads.
#[derive(Debug, Clone, Copy, PartialEq, Eq, Structural)]
pub enum JsonNumber {
    Unsigned(u64),
    Negative(i64),
    Fraction,
}

/// A JSON value.
#[derive(Debug, PartialEq, Eq)]
pub enum Json {
    Null,
    Bool(bool),
    Number(JsonNumber),
    Str(String),
    Array(Vec<Json>),
    /// The members, in order, each key once.
    Object(Vec<(String, Json)>),
}

#[verifier::external_type_specification]
#[verifier::external_body]
pub struct ExSerdeJsonValue(serde_json::Value);

/// What `serde_json::from_slice` reads from these bytes, taken member for
/// member into a `Json`: `None` when they are not one JSON text.
pub uninterp spec fn json_of(bytes: Seq<u8>) -> Option<Json>;

/// `serde_json::from_slice` into a `serde_json::Value`, converted one for one
/// into a `Json`. The contract claims that the parse succeeds exactly when
/// `json_of` names a value, and that the value is that one; the error's
/// wording is serde_json's and nothing is claimed of it.
#[verifier::external_body]
pub(crate) fn parse_json(bytes: &[u8]) -> (r: Result<Json, String>)
    ensures
        r is Ok <==> json_of(bytes@) is Some,
        r matches Ok(j) ==> json_of(bytes@) == Some(j),
{
    serde_json::from_slice::<serde_json::Value>(bytes).map(|v| from_value(&v)).map_err(|e| e.to_string())
}

/// The conversion `parse_json` applies to serde_json's value: each variant
/// to its own, an object's members in serde_json's order. A number is read
/// as `u64`, else as `i64`, else as neither.
#[verifier::external_body]
fn from_value(v: &serde_json::Value) -> Json {
    match v {
        serde_json::Value::Null => Json::Null,
        serde_json::Value::Bool(b) => Json::Bool(*b),
        serde_json::Value::Number(n) => Json::Number(
            match (n.as_u64(), n.as_i64()) {
                (Some(u), _) => JsonNumber::Unsigned(u),
                (None, Some(i)) => JsonNumber::Negative(i),
                _ => JsonNumber::Fraction,
            },
        ),
        serde_json::Value::String(s) => Json::Str(s.clone()),
        serde_json::Value::Array(items) => Json::Array(items.iter().map(from_value).collect()),
        serde_json::Value::Object(m) => Json::Object(m.iter().map(|(k, x)| (k.clone(), from_value(x))).collect()),
    }
}

/// A JSON value as plain values, all the way down.
#[verifier::ext_equal]
pub ghost enum JsonV {
    Null,
    Bool(bool),
    Number(JsonNumber),
    Str(Seq<char>),
    Array(Seq<JsonV>),
    Object(Seq<(Seq<char>, JsonV)>),
}

pub open spec fn json_view(j: Json) -> JsonV
    decreases j, 0int,
{
    match j {
        Json::Null => JsonV::Null,
        Json::Bool(b) => JsonV::Bool(b),
        Json::Number(n) => JsonV::Number(n),
        Json::Str(s) => JsonV::Str(s@),
        Json::Array(items) => JsonV::Array(json_views(items@)),
        Json::Object(fs) => JsonV::Object(members_view(fs@)),
    }
}

pub open spec fn json_views(items: Seq<Json>) -> Seq<JsonV>
    decreases items, 1int,
{
    if items.len() == 0 {
        Seq::empty()
    } else {
        json_views(items.drop_last()).push(json_view(items.last()))
    }
}

pub open spec fn members_view(fs: Seq<(String, Json)>) -> Seq<(Seq<char>, JsonV)>
    decreases fs, 1int,
{
    if fs.len() == 0 {
        Seq::empty()
    } else {
        members_view(fs.drop_last()).push((fs.last().0@, json_view(fs.last().1)))
    }
}

/// The value filed under `key`.
pub open spec fn member_spec(fields: Seq<(String, Json)>, key: Seq<char>) -> Option<Json>
    decreases fields.len(),
{
    if fields.len() == 0 {
        None
    } else if fields[0].0@ == key {
        Some(fields[0].1)
    } else {
        member_spec(fields.drop_first(), key)
    }
}

/// What a member lookup finds lies inside the members it was found in.
pub proof fn lemma_member_inside(fields: Seq<(String, Json)>, key: Seq<char>)
    ensures
        member_spec(fields, key) matches Some(v) ==> decreases_to!(fields => v),
    decreases fields.len(),
{
    if fields.len() > 0 {
        if fields[0].0@ == key {
            assert(decreases_to!(fields => fields[0]));
            assert(decreases_to!(fields[0] => fields[0].1));
        } else {
            lemma_member_inside(fields.drop_first(), key);
            assert(decreases_to!(fields => fields.drop_first()));
        }
    }
}

pub fn member<'a>(fields: &'a Vec<(String, Json)>, key: &str) -> (r: Option<&'a Json>)
    ensures
        match r {
            Some(v) => member_spec(fields@, key@) == Some(*v),
            None => member_spec(fields@, key@) is None,
        },
{
    let mut i: usize = 0;
    assert(fields@.skip(0) =~= fields@);
    while i < fields.len()
        invariant
            i <= fields@.len(),
            member_spec(fields@, key@) == member_spec(fields@.skip(i as int), key@),
        decreases fields@.len() - i,
    {
        assert(fields@.skip(i as int).drop_first() =~= fields@.skip(i + 1));
        if crate::text::same_text(fields[i].0.as_str(), key) {
            assert(fields@.skip(i as int)[0] == fields@[i as int]);
            return Some(&fields[i].1);
        }
        i = i + 1;
    }
    assert(fields@.skip(i as int).len() == 0);
    None
}

/// A whole number that fits a `u32`.
pub open spec fn u32_spec(j: Json) -> Option<u32> {
    match j {
        Json::Number(JsonNumber::Unsigned(n)) => if n <= u32::MAX {
            Some(n as u32)
        } else {
            None
        },
        _ => None,
    }
}

pub fn u32_of(j: &Json) -> (r: Option<u32>)
    ensures
        r == u32_spec(*j),
{
    match j {
        Json::Number(JsonNumber::Unsigned(n)) => if *n <= 4294967295 {
            Some(*n as u32)
        } else {
            None
        },
        _ => None,
    }
}

/// A whole number from 0 to `u64::MAX`.
pub open spec fn u64_spec(j: Json) -> Option<u64> {
    match j {
        Json::Number(JsonNumber::Unsigned(n)) => Some(n),
        _ => None,
    }
}

pub fn u64_of(j: &Json) -> (r: Option<u64>)
    ensures
        r == u64_spec(*j),
{
    match j {
        Json::Number(JsonNumber::Unsigned(n)) => Some(*n),
        _ => None,
    }
}

/// A whole number that fits an `i64`.
pub open spec fn i64_spec(j: Json) -> Option<i64> {
    match j {
        Json::Number(JsonNumber::Unsigned(n)) => if n <= i64::MAX {
            Some(n as i64)
        } else {
            None
        },
        Json::Number(JsonNumber::Negative(n)) => Some(n),
        _ => None,
    }
}

pub fn i64_of(j: &Json) -> (r: Option<i64>)
    ensures
        r == i64_spec(*j),
{
    match j {
        Json::Number(JsonNumber::Unsigned(n)) => if *n <= 9223372036854775807 {
            Some(*n as i64)
        } else {
            None
        },
        Json::Number(JsonNumber::Negative(n)) => Some(*n),
        _ => None,
    }
}

/// A string's text.
pub open spec fn str_spec(j: Json) -> Option<String> {
    match j {
        Json::Str(s) => Some(s),
        _ => None,
    }
}

pub fn str_of(j: &Json) -> (r: Option<String>)
    ensures
        r == str_spec(*j),
{
    match j {
        Json::Str(s) => Some(s.clone()),
        _ => None,
    }
}

/// An optional string: null is none, a string is itself, anything else is
/// unreadable.
pub open spec fn opt_str_spec(j: Json) -> Option<Option<String>> {
    match j {
        Json::Null => Some(None),
        Json::Str(s) => Some(Some(s)),
        _ => None,
    }
}

pub fn opt_str_of(j: &Json) -> (r: Option<Option<String>>)
    ensures
        r == opt_str_spec(*j),
{
    match j {
        Json::Null => Some(None),
        Json::Str(s) => Some(Some(s.clone())),
        _ => None,
    }
}

/// The JSON name of a value's kind.
pub open spec fn kind_name_spec(j: Json) -> Seq<char> {
    match j {
        Json::Null => "null"@,
        Json::Bool(_) => "boolean"@,
        Json::Number(_) => "number"@,
        Json::Str(_) => "string"@,
        Json::Array(_) => "array"@,
        Json::Object(_) => "object"@,
    }
}

pub fn kind_name(j: &Json) -> (r: &'static str)
    ensures
        r@ == kind_name_spec(*j),
{
    match j {
        Json::Null => "null",
        Json::Bool(_) => "boolean",
        Json::Number(_) => "number",
        Json::Str(_) => "string",
        Json::Array(_) => "array",
        Json::Object(_) => "object",
    }
}

/// Texts joined by `, `.
pub open spec fn comma_joined(s: Seq<Seq<char>>) -> Seq<char>
    decreases s.len(),
{
    if s.len() == 0 {
        Seq::empty()
    } else if s.len() == 1 {
        s[0]
    } else {
        comma_joined(s.drop_last()) + ", "@ + s.last()
    }
}

pub open spec fn keys_of(fields: Seq<(String, Json)>) -> Seq<Seq<char>> {
    fields.map_values(|f: (String, Json)| f.0@)
}

/// What arrived, said without repeating it: an object by its keys in
/// order, an array by its length, anything else by its kind. The value
/// itself may be megabytes; which shape it had is the useful part.
pub open spec fn shape_detail_spec(j: Json, detail: Seq<char>) -> bool {
    match j {
        Json::Object(fields) => exists|sorted: Seq<Seq<char>>|
            sorted.to_multiset() == keys_of(fields@).to_multiset() && lex_sorted(sorted, false) && detail
                == "an object with keys ["@ + comma_joined(sorted) + "]"@,
        Json::Array(items) => detail == "an array of "@ + decimal_chars(items@.len()) + " unreadable items"@,
        _ => detail == "a bare "@ + kind_name_spec(j),
    }
}

fn join_commas(parts: &Vec<String>) -> (r: String)
    ensures
        r@ == comma_joined(texts(parts@)),
{
    let ghost ps = texts(parts@);
    let mut out = String::new();
    let mut i: usize = 0;
    while i < parts.len()
        invariant
            i <= parts@.len(),
            ps == texts(parts@),
            out@ == comma_joined(ps.take(i as int)),
        decreases parts@.len() - i,
    {
        assert(ps.take(i + 1).drop_last() =~= ps.take(i as int));
        if i > 0 {
            out.append(", ");
        }
        out.append(parts[i].as_str());
        proof {
            if i == 0 {
                assert(ps.take(1) =~= seq![ps[0]]);
                assert(out@ =~= ps[0]);
            }
        }
        i = i + 1;
    }
    assert(ps.take(parts@.len() as int) =~= ps);
    out
}

/// The detail a refusal carries about a value.
pub fn shape_detail(j: &Json) -> (r: String)
    ensures
        shape_detail_spec(*j, r@),
{
    match j {
        Json::Object(fields) => {
            let mut keys: Vec<String> = Vec::new();
            let mut i: usize = 0;
            while i < fields.len()
                invariant
                    i <= fields@.len(),
                    texts(keys@) == keys_of(fields@).take(i as int),
                decreases fields@.len() - i,
            {
                let ghost before = keys@;
                let k = fields[i].0.clone();
                keys.push(k);
                assert(keys@ == before.push(k));
                assert(texts(keys@) =~= texts(before).push(fields@[i as int].0@));
                assert(keys_of(fields@).take(i + 1) =~= keys_of(fields@).take(i as int).push(fields@[i as int].0@));
                i = i + 1;
            }
            assert(keys_of(fields@).take(fields@.len() as int) =~= keys_of(fields@));
            let sorted = sort_lex(keys, false);
            let mut out = "an object with keys [".to_owned();
            out.append(join_commas(&sorted).as_str());
            out.append("]");
            assert(texts(sorted@).to_multiset() == keys_of(fields@).to_multiset());
            out
        },
        Json::Array(items) => {
            let mut out = "an array of ".to_owned();
            out.append(decimal_string(items.len() as u64).as_str());
            out.append(" unreadable items");
            out
        },
        _ => {
            let mut out = "a bare ".to_owned();
            out.append(kind_name(j));
            out
        },
    }
}

} // verus!
