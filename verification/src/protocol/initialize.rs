//! The `initialize` request's params: only `utf-16` positions are offered,
//! and every capability declared is one this client implements, since
//! declaring another would invite messages nothing here answers.
use vstd::prelude::*;

use crate::json::{json_view, json_views, members_view, Json, JsonNumber, JsonV};

verus! {

pub open spec fn obj1(k: Seq<char>, v: JsonV) -> JsonV {
    JsonV::Object(seq![(k, v)])
}

pub open spec fn flag_v(b: bool) -> JsonV {
    JsonV::Bool(b)
}

/// What the client declares it can do.
pub open spec fn capabilities_view() -> JsonV {
    JsonV::Object(
        seq![
            ("general"@, obj1("positionEncodings"@, JsonV::Array(seq![JsonV::Str("utf-16"@)]))),
            (
                "textDocument"@,
                JsonV::Object(
                    seq![
                        (
                            "synchronization"@,
                            JsonV::Object(
                                seq![
                                    ("dynamicRegistration"@, flag_v(false)),
                                    ("willSave"@, flag_v(false)),
                                    ("willSaveWaitUntil"@, flag_v(false)),
                                    ("didSave"@, flag_v(false)),
                                ],
                            ),
                        ),
                        ("definition"@, obj1("linkSupport"@, flag_v(true))),
                        ("implementation"@, obj1("linkSupport"@, flag_v(true))),
                        ("typeDefinition"@, obj1("linkSupport"@, flag_v(true))),
                        ("references"@, obj1("dynamicRegistration"@, flag_v(false))),
                        ("documentSymbol"@, obj1("hierarchicalDocumentSymbolSupport"@, flag_v(true))),
                        (
                            "rename"@,
                            JsonV::Object(
                                seq![("dynamicRegistration"@, flag_v(false)), ("prepareSupport"@, flag_v(true))],
                            ),
                        ),
                    ],
                ),
            ),
            (
                "workspace"@,
                JsonV::Object(
                    seq![
                        ("configuration"@, flag_v(true)),
                        ("workspaceFolders"@, flag_v(true)),
                        ("applyEdit"@, flag_v(false)),
                        (
                            "workspaceEdit"@,
                            JsonV::Object(
                                seq![
                                    ("documentChanges"@, flag_v(false)),
                                    ("resourceOperations"@, JsonV::Array(Seq::empty())),
                                    ("failureHandling"@, JsonV::Str("abort"@)),
                                ],
                            ),
                        ),
                    ],
                ),
            ),
            ("window"@, obj1("workDoneProgress"@, flag_v(true))),
        ],
    )
}

/// The whole params, as plain values.
pub open spec fn initialize_view(
    process_id: Option<u32>,
    root_uri: Seq<char>,
    root_name: Seq<char>,
    version: Seq<char>,
) -> JsonV {
    JsonV::Object(
        seq![
            (
                "processId"@,
                match process_id {
                    Some(p) => JsonV::Number(JsonNumber::Unsigned(p as u64)),
                    None => JsonV::Null,
                },
            ),
            (
                "clientInfo"@,
                JsonV::Object(seq![("name"@, JsonV::Str("code-basics"@)), ("version"@, JsonV::Str(version))]),
            ),
            ("rootUri"@, JsonV::Str(root_uri)),
            (
                "workspaceFolders"@,
                JsonV::Array(seq![JsonV::Object(seq![("uri"@, JsonV::Str(root_uri)), ("name"@, JsonV::Str(root_name))])]),
            ),
            ("capabilities"@, capabilities_view()),
        ],
    )
}

fn text(s: &str) -> (r: Json)
    ensures
        json_view(r) == JsonV::Str(s@),
{
    Json::Str(s.to_owned())
}

fn flag(b: bool) -> (r: Json)
    ensures
        json_view(r) == flag_v(b),
{
    Json::Bool(b)
}

/// Add a member to an object under construction.
fn put(fields: &mut Vec<(String, Json)>, key: &str, value: Json)
    ensures
        members_view(final(fields)@) == members_view(old(fields)@).push((key@, json_view(value))),
{
    let ghost before = fields@;
    let ghost v = json_view(value);
    fields.push((key.to_owned(), value));
    assert(fields@.drop_last() =~= before);
}

fn object(fields: Vec<(String, Json)>) -> (r: Json)
    ensures
        json_view(r) == JsonV::Object(members_view(fields@)),
{
    Json::Object(fields)
}

fn single(key: &str, value: Json) -> (r: Json)
    ensures
        json_view(r) == obj1(key@, json_view(value)),
{
    let mut f: Vec<(String, Json)> = Vec::new();
    assert(members_view(f@) =~= Seq::<(Seq<char>, JsonV)>::empty());
    put(&mut f, key, value);
    object(f)
}

fn list(items: Vec<Json>) -> (r: Json)
    ensures
        json_view(r) == JsonV::Array(json_views(items@)),
{
    Json::Array(items)
}

fn one(item: Json) -> (r: Json)
    ensures
        json_view(r) == JsonV::Array(seq![json_view(item)]),
{
    let ghost v = json_view(item);
    let mut items: Vec<Json> = Vec::new();
    items.push(item);
    assert(items@.drop_last() =~= Seq::<Json>::empty());
    assert(json_views(Seq::<Json>::empty()) =~= Seq::<JsonV>::empty());
    assert(json_views(items@) =~= seq![v]);
    list(items)
}

fn capabilities() -> (r: Json)
    ensures
        json_view(r) == capabilities_view(),
{
    let general = single("positionEncodings", one(text("utf-16")));

    let mut sync: Vec<(String, Json)> = Vec::new();
    assert(members_view(sync@) =~= Seq::<(Seq<char>, JsonV)>::empty());
    put(&mut sync, "dynamicRegistration", flag(false));
    put(&mut sync, "willSave", flag(false));
    put(&mut sync, "willSaveWaitUntil", flag(false));
    put(&mut sync, "didSave", flag(false));
    assert(members_view(sync@) =~= seq![
        ("dynamicRegistration"@, flag_v(false)),
        ("willSave"@, flag_v(false)),
        ("willSaveWaitUntil"@, flag_v(false)),
        ("didSave"@, flag_v(false)),
    ]);
    let mut rename: Vec<(String, Json)> = Vec::new();
    assert(members_view(rename@) =~= Seq::<(Seq<char>, JsonV)>::empty());
    put(&mut rename, "dynamicRegistration", flag(false));
    put(&mut rename, "prepareSupport", flag(true));
    assert(members_view(rename@) =~= seq![("dynamicRegistration"@, flag_v(false)), ("prepareSupport"@, flag_v(true))]);
    let mut document: Vec<(String, Json)> = Vec::new();
    assert(members_view(document@) =~= Seq::<(Seq<char>, JsonV)>::empty());
    put(&mut document, "synchronization", object(sync));
    put(&mut document, "definition", single("linkSupport", flag(true)));
    put(&mut document, "implementation", single("linkSupport", flag(true)));
    put(&mut document, "typeDefinition", single("linkSupport", flag(true)));
    put(&mut document, "references", single("dynamicRegistration", flag(false)));
    put(&mut document, "documentSymbol", single("hierarchicalDocumentSymbolSupport", flag(true)));
    put(&mut document, "rename", object(rename));
    assert(members_view(document@) =~= seq![
        (
            "synchronization"@,
            JsonV::Object(
                seq![
                    ("dynamicRegistration"@, flag_v(false)),
                    ("willSave"@, flag_v(false)),
                    ("willSaveWaitUntil"@, flag_v(false)),
                    ("didSave"@, flag_v(false)),
                ],
            ),
        ),
        ("definition"@, obj1("linkSupport"@, flag_v(true))),
        ("implementation"@, obj1("linkSupport"@, flag_v(true))),
        ("typeDefinition"@, obj1("linkSupport"@, flag_v(true))),
        ("references"@, obj1("dynamicRegistration"@, flag_v(false))),
        ("documentSymbol"@, obj1("hierarchicalDocumentSymbolSupport"@, flag_v(true))),
        (
            "rename"@,
            JsonV::Object(seq![("dynamicRegistration"@, flag_v(false)), ("prepareSupport"@, flag_v(true))]),
        ),
    ]);

    let mut edit: Vec<(String, Json)> = Vec::new();
    assert(members_view(edit@) =~= Seq::<(Seq<char>, JsonV)>::empty());
    put(&mut edit, "documentChanges", flag(false));
    let none: Vec<Json> = Vec::new();
    assert(json_views(none@) =~= Seq::<JsonV>::empty());
    put(&mut edit, "resourceOperations", list(none));
    put(&mut edit, "failureHandling", text("abort"));
    assert(members_view(edit@) =~= seq![
        ("documentChanges"@, flag_v(false)),
        ("resourceOperations"@, JsonV::Array(Seq::empty())),
        ("failureHandling"@, JsonV::Str("abort"@)),
    ]);
    let mut workspace: Vec<(String, Json)> = Vec::new();
    assert(members_view(workspace@) =~= Seq::<(Seq<char>, JsonV)>::empty());
    put(&mut workspace, "configuration", flag(true));
    put(&mut workspace, "workspaceFolders", flag(true));
    put(&mut workspace, "applyEdit", flag(false));
    put(&mut workspace, "workspaceEdit", object(edit));
    assert(members_view(workspace@) =~= seq![
        ("configuration"@, flag_v(true)),
        ("workspaceFolders"@, flag_v(true)),
        ("applyEdit"@, flag_v(false)),
        (
            "workspaceEdit"@,
            JsonV::Object(
                seq![
                    ("documentChanges"@, flag_v(false)),
                    ("resourceOperations"@, JsonV::Array(Seq::empty())),
                    ("failureHandling"@, JsonV::Str("abort"@)),
                ],
            ),
        ),
    ]);

    let mut all: Vec<(String, Json)> = Vec::new();
    assert(members_view(all@) =~= Seq::<(Seq<char>, JsonV)>::empty());
    put(&mut all, "general", general);
    put(&mut all, "textDocument", object(document));
    put(&mut all, "workspace", object(workspace));
    put(&mut all, "window", single("workDoneProgress", flag(true)));
    let ghost doc_v = members_view(document@);
    let ghost ws_v = members_view(workspace@);
    assert(members_view(all@) =~= seq![
        ("general"@, obj1("positionEncodings"@, JsonV::Array(seq![JsonV::Str("utf-16"@)]))),
        ("textDocument"@, JsonV::Object(doc_v)),
        ("workspace"@, JsonV::Object(ws_v)),
        ("window"@, obj1("workDoneProgress"@, flag_v(true))),
    ]);
    object(all)
}

/// The `initialize` params: this process, the client's name and `version`,
/// the workspace as its root URI and its one folder, and the capabilities
/// this client implements.
pub fn initialize_params(process_id: Option<u32>, root_uri: &str, root_name: &str, version: &str) -> (r: Json)
    ensures
        json_view(r) == initialize_view(process_id, root_uri@, root_name@, version@),
{
    let pid = match process_id {
        Some(p) => Json::Number(JsonNumber::Unsigned(p as u64)),
        None => Json::Null,
    };
    let mut client: Vec<(String, Json)> = Vec::new();
    assert(members_view(client@) =~= Seq::<(Seq<char>, JsonV)>::empty());
    put(&mut client, "name", text("code-basics"));
    put(&mut client, "version", text(version));
    assert(members_view(client@) =~= seq![("name"@, JsonV::Str("code-basics"@)), ("version"@, JsonV::Str(version@))]);
    let mut folder: Vec<(String, Json)> = Vec::new();
    assert(members_view(folder@) =~= Seq::<(Seq<char>, JsonV)>::empty());
    put(&mut folder, "uri", text(root_uri));
    put(&mut folder, "name", text(root_name));
    assert(members_view(folder@) =~= seq![("uri"@, JsonV::Str(root_uri@)), ("name"@, JsonV::Str(root_name@))]);
    let mut all: Vec<(String, Json)> = Vec::new();
    assert(members_view(all@) =~= Seq::<(Seq<char>, JsonV)>::empty());
    put(&mut all, "processId", pid);
    put(&mut all, "clientInfo", object(client));
    put(&mut all, "rootUri", text(root_uri));
    put(&mut all, "workspaceFolders", one(object(folder)));
    put(&mut all, "capabilities", capabilities());
    assert(members_view(all@) =~= seq![
        (
            "processId"@,
            match process_id {
                Some(p) => JsonV::Number(JsonNumber::Unsigned(p as u64)),
                None => JsonV::Null,
            },
        ),
        (
            "clientInfo"@,
            JsonV::Object(seq![("name"@, JsonV::Str("code-basics"@)), ("version"@, JsonV::Str(version@))]),
        ),
        ("rootUri"@, JsonV::Str(root_uri@)),
        (
            "workspaceFolders"@,
            JsonV::Array(seq![JsonV::Object(seq![("uri"@, JsonV::Str(root_uri@)), ("name"@, JsonV::Str(root_name@))])]),
        ),
        ("capabilities"@, capabilities_view()),
    ]);
    object(all)
}

} // verus!
