//! The LSP messages this app actually uses, and nothing else.
//!
//! Every decoder of these shapes accepts more than the specification requires,
//! because real servers send more, while refusing to invent a value it was not
//! given. The decoding of JSON itself happens where JSON is parsed; what is here
//! is the vocabulary, and the rules that read a value once it is plain data.
//!
//! A URI is an opaque `String` in here on purpose: identity is decided on paths
//! and never on URI strings.
use vstd::prelude::*;

use crate::json::{
    lemma_member_inside, member, member_spec, opt_str_of, opt_str_spec, shape_detail, shape_detail_spec, str_of, str_spec, u32_of, u32_spec,
    u64_of, u64_spec, Json,
};
use crate::text::{chars_of, measure, same_text, unit_len, establish_addressable};

pub mod answers;
pub mod initialize;
pub mod method;

pub use self::answers::{decode_prepare_rename, decode_workspace_edit, PrepareRenameResponse};
pub use self::initialize::initialize_params;

verus! {

/// A point in a document, as LSP counts: both fields 0-based, and `character`
/// a count of UTF-16 code units.
#[derive(Debug, Clone, Copy, PartialEq, Eq, Structural)]
pub struct Position {
    pub line: u32,
    pub character: u32,
}

/// A half-open span between two positions: `end` is exclusive.
#[derive(Debug, Clone, Copy, PartialEq, Eq, Structural)]
pub struct Range {
    pub start: Position,
    pub end: Position,
}

/// A range in a named document, under the server's own spelling of its URI.
#[derive(Debug, Clone, PartialEq, Eq)]
pub struct Location {
    pub uri: String,
    pub range: Range,
}

/// The richer goto answer a server may send when the client offers `linkSupport`.
#[derive(Debug, Clone, PartialEq, Eq)]
pub struct LocationLink {
    pub target_uri: String,
    /// The whole declaration, braces and doc comment included.
    pub target_range: Range,
    /// The identifier alone, when the server sent it.
    pub target_selection_range: Option<Range>,
}

/// Where a link sends the cursor: its selection range when it has one.
pub open spec fn aimed(l: LocationLink) -> Location {
    Location {
        uri: l.target_uri,
        range: match l.target_selection_range {
            Some(selection) => selection,
            None => l.target_range,
        },
    }
}

impl LocationLink {
    /// Where to actually put the cursor: the identifier when the server named
    /// it, else the start of the whole declaration.
    pub fn aim(self) -> (r: Location)
        ensures
            r == aimed(self),
    {
        let range = match self.target_selection_range {
            Some(selection) => selection,
            None => self.target_range,
        };
        Location { uri: self.target_uri, range }
    }
}

/// A response matched none of the shapes the protocol allows. Never an empty
/// result in disguise; `what` names the request.
#[derive(Debug, PartialEq, Eq)]
pub enum DecodeError {
    Shape { what: &'static str, detail: String },
}

pub open spec fn decode_message(e: DecodeError) -> Seq<char> {
    match e {
        DecodeError::Shape { what, detail } => "the "@ + what@
            + " response matched none of the shapes the protocol allows: "@ + detail@,
    }
}

impl DecodeError {
    /// The failure as a sentence.
    pub fn to_string(&self) -> (r: String)
        ensures
            r@ == decode_message(*self),
    {
        match self {
            DecodeError::Shape { what, detail } => {
                let mut m = "the ".to_owned();
                m.append(what);
                m.append(" response matched none of the shapes the protocol allows: ");
                m.append(detail.as_str());
                m
            },
        }
    }
}

impl DecodeError {
    /// The refusal for a value no allowed shape matched, naming the request
    /// and saying what arrived without repeating it.
    pub fn shape(what: &'static str, value: &Json) -> (r: DecodeError)
        ensures
            r matches DecodeError::Shape { what: w, detail } && w == what && shape_detail_spec(*value, detail@),
    {
        DecodeError::Shape { what, detail: shape_detail(value) }
    }
}

// ---------------------------------------------------------------------------
// Reading positions and locations
// ---------------------------------------------------------------------------
//
// A struct is read from an object by its member names, other members being
// ignored, or from an array holding its fields in order and nothing else. A
// missing optional field is none; a field present with a value of the wrong
// kind fails the whole struct.

pub open spec fn pair_spec(a: Option<u32>, b: Option<u32>) -> Option<Position> {
    match (a, b) {
        (Some(line), Some(character)) => Some(Position { line, character }),
        _ => None,
    }
}

pub open spec fn position_spec(j: Json) -> Option<Position> {
    match j {
        Json::Object(fs) => match (member_spec(fs@, "line"@), member_spec(fs@, "character"@)) {
            (Some(a), Some(b)) => pair_spec(u32_spec(a), u32_spec(b)),
            _ => None,
        },
        Json::Array(items) => if items@.len() == 2 {
            pair_spec(u32_spec(items@[0]), u32_spec(items@[1]))
        } else {
            None
        },
        _ => None,
    }
}

pub fn position_of(j: &Json) -> (r: Option<Position>)
    ensures
        r == position_spec(*j),
{
    let (a, b) = match j {
        Json::Object(fs) => match (member(fs, "line"), member(fs, "character")) {
            (Some(a), Some(b)) => (a, b),
            _ => {
                return None;
            },
        },
        Json::Array(items) => {
            if items.len() != 2 {
                return None;
            }
            (&items[0], &items[1])
        },
        _ => {
            return None;
        },
    };
    match (u32_of(a), u32_of(b)) {
        (Some(line), Some(character)) => Some(Position { line, character }),
        _ => None,
    }
}

pub open spec fn span_spec(a: Option<Position>, b: Option<Position>) -> Option<Range> {
    match (a, b) {
        (Some(start), Some(end)) => Some(Range { start, end }),
        _ => None,
    }
}

pub open spec fn range_spec(j: Json) -> Option<Range> {
    match j {
        Json::Object(fs) => match (member_spec(fs@, "start"@), member_spec(fs@, "end"@)) {
            (Some(a), Some(b)) => span_spec(position_spec(a), position_spec(b)),
            _ => None,
        },
        Json::Array(items) => if items@.len() == 2 {
            span_spec(position_spec(items@[0]), position_spec(items@[1]))
        } else {
            None
        },
        _ => None,
    }
}

pub fn range_of(j: &Json) -> (r: Option<Range>)
    ensures
        r == range_spec(*j),
{
    let (a, b) = match j {
        Json::Object(fs) => match (member(fs, "start"), member(fs, "end")) {
            (Some(a), Some(b)) => (a, b),
            _ => {
                return None;
            },
        },
        Json::Array(items) => {
            if items.len() != 2 {
                return None;
            }
            (&items[0], &items[1])
        },
        _ => {
            return None;
        },
    };
    match (position_of(a), position_of(b)) {
        (Some(start), Some(end)) => Some(Range { start, end }),
        _ => None,
    }
}

/// An optional range: null is none.
pub open spec fn opt_range_spec(j: Json) -> Option<Option<Range>> {
    match j {
        Json::Null => Some(None),
        _ => match range_spec(j) {
            Some(r) => Some(Some(r)),
            None => None,
        },
    }
}

fn opt_range_of(j: &Json) -> (r: Option<Option<Range>>)
    ensures
        r == opt_range_spec(*j),
{
    match j {
        Json::Null => Some(None),
        _ => match range_of(j) {
            Some(r) => Some(Some(r)),
            None => None,
        },
    }
}

pub open spec fn place_spec(uri: Option<String>, range: Option<Range>) -> Option<Location> {
    match (uri, range) {
        (Some(uri), Some(range)) => Some(Location { uri, range }),
        _ => None,
    }
}

pub open spec fn location_spec(j: Json) -> Option<Location> {
    match j {
        Json::Object(fs) => match (member_spec(fs@, "uri"@), member_spec(fs@, "range"@)) {
            (Some(a), Some(b)) => place_spec(str_spec(a), range_spec(b)),
            _ => None,
        },
        Json::Array(items) => if items@.len() == 2 {
            place_spec(str_spec(items@[0]), range_spec(items@[1]))
        } else {
            None
        },
        _ => None,
    }
}

pub fn location_of(j: &Json) -> (r: Option<Location>)
    ensures
        r == location_spec(*j),
{
    let (a, b) = match j {
        Json::Object(fs) => match (member(fs, "uri"), member(fs, "range")) {
            (Some(a), Some(b)) => (a, b),
            _ => {
                return None;
            },
        },
        Json::Array(items) => {
            if items.len() != 2 {
                return None;
            }
            (&items[0], &items[1])
        },
        _ => {
            return None;
        },
    };
    match (str_of(a), range_of(b)) {
        (Some(uri), Some(range)) => Some(Location { uri, range }),
        _ => None,
    }
}

pub open spec fn link_parts_spec(uri: Option<String>, range: Option<Range>, selection: Option<Option<Range>>) -> Option<
    LocationLink,
> {
    match (uri, range, selection) {
        (Some(target_uri), Some(target_range), Some(target_selection_range)) => Some(
            LocationLink { target_uri, target_range, target_selection_range },
        ),
        _ => None,
    }
}

pub open spec fn link_spec(j: Json) -> Option<LocationLink> {
    match j {
        Json::Object(fs) => match (member_spec(fs@, "targetUri"@), member_spec(fs@, "targetRange"@)) {
            (Some(a), Some(b)) => link_parts_spec(
                str_spec(a),
                range_spec(b),
                match member_spec(fs@, "targetSelectionRange"@) {
                    Some(c) => opt_range_spec(c),
                    None => Some(None),
                },
            ),
            _ => None,
        },
        Json::Array(items) => if items@.len() == 3 {
            link_parts_spec(str_spec(items@[0]), range_spec(items@[1]), opt_range_spec(items@[2]))
        } else {
            None
        },
        _ => None,
    }
}

pub fn link_of(j: &Json) -> (r: Option<LocationLink>)
    ensures
        r == link_spec(*j),
{
    let (uri, range, selection) = match j {
        Json::Object(fs) => match (member(fs, "targetUri"), member(fs, "targetRange")) {
            (Some(a), Some(b)) => (
                str_of(a),
                range_of(b),
                match member(fs, "targetSelectionRange") {
                    Some(c) => opt_range_of(c),
                    None => Some(None),
                },
            ),
            _ => {
                return None;
            },
        },
        Json::Array(items) => {
            if items.len() != 3 {
                return None;
            }
            (str_of(&items[0]), range_of(&items[1]), opt_range_of(&items[2]))
        },
        _ => {
            return None;
        },
    };
    match (uri, range, selection) {
        (Some(target_uri), Some(target_range), Some(target_selection_range)) => Some(
            LocationLink { target_uri, target_range, target_selection_range },
        ),
        _ => None,
    }
}

/// Every element read as a location, or nothing if one cannot be: a short
/// list would be a wrong count, silently.
pub open spec fn locations_spec(items: Seq<Json>) -> Option<Seq<Location>> {
    if forall|i: int| 0 <= i < items.len() ==> (#[trigger] location_spec(items[i])) is Some {
        Some(Seq::new(items.len(), |i: int| location_spec(items[i])->Some_0))
    } else {
        None
    }
}

/// Every element read as a link and aimed, or nothing.
pub open spec fn links_spec(items: Seq<Json>) -> Option<Seq<Location>> {
    if forall|i: int| 0 <= i < items.len() ==> (#[trigger] link_spec(items[i])) is Some {
        Some(Seq::new(items.len(), |i: int| aimed(link_spec(items[i])->Some_0)))
    } else {
        None
    }
}

fn locations_of(items: &Vec<Json>) -> (r: Option<Vec<Location>>)
    ensures
        match locations_spec(items@) {
            Some(ls) => r matches Some(v) && v@ == ls,
            None => r is None,
        },
{
    let mut out: Vec<Location> = Vec::new();
    let mut i: usize = 0;
    while i < items.len()
        invariant
            i <= items@.len(),
            out@.len() == i,
            forall|k: int| 0 <= k < i ==> (#[trigger] location_spec(items@[k])) == Some(out@[k]),
        decreases items@.len() - i,
    {
        match location_of(&items[i]) {
            Some(l) => out.push(l),
            None => {
                return None;
            },
        }
        i = i + 1;
    }
    let ghost want = Seq::new(items@.len(), |k: int| location_spec(items@[k])->Some_0);
    assert(out@ =~= want);
    Some(out)
}

fn links_of(items: &Vec<Json>) -> (r: Option<Vec<Location>>)
    ensures
        match links_spec(items@) {
            Some(ls) => r matches Some(v) && v@ == ls,
            None => r is None,
        },
{
    let mut out: Vec<Location> = Vec::new();
    let mut i: usize = 0;
    while i < items.len()
        invariant
            i <= items@.len(),
            out@.len() == i,
            forall|k: int| 0 <= k < i ==> (#[trigger] link_spec(items@[k])) is Some && out@[k] == aimed(
                link_spec(items@[k])->Some_0,
            ),
        decreases items@.len() - i,
    {
        match link_of(&items[i]) {
            Some(l) => out.push(l.aim()),
            None => {
                return None;
            },
        }
        i = i + 1;
    }
    let ghost want = Seq::new(items@.len(), |k: int| aimed(link_spec(items@[k])->Some_0));
    assert(out@ =~= want);
    Some(out)
}

/// Every shape a goto answer may take, tried in order: `null`, meaning
/// nowhere to go; one location; an array of locations; an array of links,
/// each aimed at its identifier.
pub open spec fn goto_spec(j: Json) -> Option<Seq<Location>> {
    if j is Null {
        Some(Seq::empty())
    } else if location_spec(j) is Some {
        Some(seq![location_spec(j)->Some_0])
    } else {
        match j {
            Json::Array(items) => if locations_spec(items@) is Some {
                locations_spec(items@)
            } else {
                links_spec(items@)
            },
            _ => None,
        }
    }
}

/// Read a goto-style answer into locations, or say why it could not be
/// read. A refusal is never a dressed-up empty list: that would invite the
/// conclusion that the symbol is unused.
pub fn decode_goto(value: &Json) -> (r: Result<Vec<Location>, DecodeError>)
    ensures
        match goto_spec(*value) {
            Some(ls) => r matches Ok(v) && v@ == ls,
            None => r matches Err(DecodeError::Shape { what, detail }) && what == method::DEFINITION
                && shape_detail_spec(*value, detail@),
        },
{
    if let Json::Null = value {
        return Ok(Vec::new());
    }
    if let Some(l) = location_of(value) {
        let mut v: Vec<Location> = Vec::new();
        v.push(l);
        assert(v@ =~= seq![location_spec(*value)->Some_0]);
        return Ok(v);
    }
    if let Json::Array(items) = value {
        if let Some(v) = locations_of(items) {
            return Ok(v);
        }
        if let Some(v) = links_of(items) {
            return Ok(v);
        }
    }
    Err(DecodeError::shape(method::DEFINITION, value))
}

/// The kind of a declaration, coarse on purpose: the point is a badge.
#[derive(Debug, Clone, Copy, PartialEq, Eq, Hash, Structural)]
pub enum SymbolKind {
    Function,
    Class,
    Struct,
    Enum,
    Interface,
    Trait,
    Type,
    Namespace,
    Constant,
    Property,
    Variable,
    Other,
}

/// One declaration in a file, with the chain of declarations enclosing it.
#[derive(Debug, Clone, PartialEq, Eq)]
pub struct Symbol {
    /// Exactly what the server sent.
    pub name: String,
    pub detail: Option<String>,
    pub kind: SymbolKind,
    /// The whole declaration.
    pub range: Range,
    /// The identifier alone: where a `references` request must be aimed.
    pub selection_range: Range,
    /// Enclosing declaration names, outermost first.
    pub container: Vec<String>,
    /// Set only by the flat shape, which names a document per symbol.
    pub uri: Option<String>,
}

/// What an LSP `SymbolKind` number means here. Lossy on purpose; a number
/// outside 1..=26, or one with no badge, is `Other`.
pub open spec fn symbol_kind_spec(number: u32) -> SymbolKind {
    if number == 2 || number == 3 {
        SymbolKind::Namespace
    } else if number == 5 {
        SymbolKind::Class
    } else if number == 6 || number == 9 || number == 12 {
        SymbolKind::Function
    } else if number == 7 {
        SymbolKind::Property
    } else if number == 8 || number == 13 {
        SymbolKind::Variable
    } else if number == 10 {
        SymbolKind::Enum
    } else if number == 11 {
        SymbolKind::Interface
    } else if number == 14 || number == 22 {
        SymbolKind::Constant
    } else if number == 23 {
        SymbolKind::Struct
    } else if number == 26 {
        SymbolKind::Type
    } else {
        SymbolKind::Other
    }
}

/// An LSP `SymbolKind` number as one of this app's own kinds.
pub fn symbol_kind(number: u32) -> (r: SymbolKind)
    ensures
        r == symbol_kind_spec(number),
{
    match number {
        2 | 3 => SymbolKind::Namespace,
        5 => SymbolKind::Class,
        6 | 9 | 12 => SymbolKind::Function,
        7 => SymbolKind::Property,
        8 | 13 => SymbolKind::Variable,
        10 => SymbolKind::Enum,
        11 => SymbolKind::Interface,
        14 | 22 => SymbolKind::Constant,
        23 => SymbolKind::Struct,
        26 => SymbolKind::Type,
        _ => SymbolKind::Other,
    }
}

// ---------------------------------------------------------------------------
// Reading document symbols
// ---------------------------------------------------------------------------

/// A declaration as plain values.
pub ghost struct SymbolView {
    pub name: Seq<char>,
    pub detail: Option<Seq<char>>,
    pub kind: SymbolKind,
    pub range: Range,
    pub selection_range: Range,
    pub container: Seq<Seq<char>>,
    pub uri: Option<Seq<char>>,
}

pub open spec fn opt_text(s: Option<String>) -> Option<Seq<char>> {
    match s {
        Some(t) => Some(t@),
        None => None,
    }
}

pub open spec fn symbol_view(s: Symbol) -> SymbolView {
    SymbolView {
        name: s.name@,
        detail: opt_text(s.detail),
        kind: s.kind,
        range: s.range,
        selection_range: s.selection_range,
        container: s.container@.map_values(|c: String| c@),
        uri: opt_text(s.uri),
    }
}

/// One node of the hierarchical shape, short of its children.
pub ghost struct NodeHead {
    pub name: String,
    pub detail: Option<String>,
    pub kind: u32,
    pub range: Range,
    pub selection_range: Range,
}

/// Law: an enum member is a named constant. Of all LSP kind numbers, exactly
/// Constant (14) and EnumMember (22) read as `Constant`; so every member an
/// enum lists, whether the answer is a tree of nodes or a flat list, is
/// decoded as a constant, never as `Other`.
pub proof fn law_enum_members_are_constants(
    number: u32,
    h: NodeHead,
    chain: Seq<Seq<char>>,
    name: Option<String>,
    location: Option<Location>,
    container: Option<Option<String>>,
)
    ensures
        symbol_kind_spec(number) == SymbolKind::Constant <==> (number == 14 || number == 22),
        h.kind == 22 ==> head_view(h, chain).kind == SymbolKind::Constant,
        info_parts(name, Some(22u32), location, container) matches Some(v) ==> v.kind == SymbolKind::Constant,
{
}

/// Law: which LSP kind numbers read as which kind. Module (2) and Namespace
/// (3) are a namespace; Class (5) a class; Method (6), Constructor (9) and
/// Function (12) are callables; Property (7) a property; Field (8) and
/// Variable (13) are variables; Enum (10), Interface (11), Struct (23) and
/// TypeParameter (26) are themselves; no number is a trait, since LSP has no
/// trait kind; and every other number (File, Package, the JSON value kinds,
/// Event, Operator, anything past 26) is `Other`, showing nothing rather than
/// a near guess.
pub proof fn law_kind_numbers_follow_lsp(number: u32)
    ensures
        symbol_kind_spec(number) == SymbolKind::Namespace <==> (number == 2 || number == 3),
        symbol_kind_spec(number) == SymbolKind::Class <==> number == 5,
        symbol_kind_spec(number) == SymbolKind::Function <==> (number == 6 || number == 9 || number == 12),
        symbol_kind_spec(number) == SymbolKind::Property <==> number == 7,
        symbol_kind_spec(number) == SymbolKind::Variable <==> (number == 8 || number == 13),
        symbol_kind_spec(number) == SymbolKind::Enum <==> number == 10,
        symbol_kind_spec(number) == SymbolKind::Interface <==> number == 11,
        symbol_kind_spec(number) == SymbolKind::Struct <==> number == 23,
        symbol_kind_spec(number) == SymbolKind::Type <==> number == 26,
        symbol_kind_spec(number) != SymbolKind::Trait,
        symbol_kind_spec(number) == SymbolKind::Other <==> !(number == 2 || number == 3 || number == 5 || number
            == 6 || number == 7 || number == 8 || number == 9 || number == 10 || number == 11 || number == 12
            || number == 13 || number == 14 || number == 22 || number == 23 || number == 26),
{
}

/// A defaulted number: absent is 0.
pub open spec fn kind_field(v: Option<Json>) -> Option<u32> {
    match v {
        None => Some(0),
        Some(j) => u32_spec(j),
    }
}

/// A defaulted optional string: absent is none.
pub open spec fn opt_str_field(v: Option<Json>) -> Option<Option<String>> {
    match v {
        None => Some(None),
        Some(j) => opt_str_spec(j),
    }
}

/// Defaulted children: absent is none.
pub open spec fn children_field(v: Option<Json>) -> Option<Seq<Json>> {
    match v {
        None => Some(Seq::empty()),
        Some(Json::Array(items)) => Some(items@),
        _ => None,
    }
}

pub open spec fn head_parts(
    name: Option<String>,
    detail: Option<Option<String>>,
    kind: Option<u32>,
    range: Option<Range>,
    selection_range: Option<Range>,
    children: Option<Seq<Json>>,
) -> Option<(NodeHead, Seq<Json>)> {
    match (name, detail, kind, range, selection_range, children) {
        (Some(name), Some(detail), Some(kind), Some(range), Some(selection_range), Some(children)) => Some(
            (NodeHead { name, detail, kind, range, selection_range }, children),
        ),
        _ => None,
    }
}

/// A `DocumentSymbol`: its own fields, and the children still to be read.
pub open spec fn node_head(j: Json) -> Option<(NodeHead, Seq<Json>)> {
    match j {
        Json::Object(fs) => match (
            member_spec(fs@, "name"@),
            member_spec(fs@, "range"@),
            member_spec(fs@, "selectionRange"@),
        ) {
            (Some(n), Some(r), Some(sr)) => head_parts(
                str_spec(n),
                opt_str_field(member_spec(fs@, "detail"@)),
                kind_field(member_spec(fs@, "kind"@)),
                range_spec(r),
                range_spec(sr),
                children_field(member_spec(fs@, "children"@)),
            ),
            _ => None,
        },
        Json::Array(items) => if items@.len() == 5 || items@.len() == 6 {
            head_parts(
                str_spec(items@[0]),
                opt_str_spec(items@[1]),
                u32_spec(items@[2]),
                range_spec(items@[3]),
                range_spec(items@[4]),
                if items@.len() == 6 {
                    children_field(Some(items@[5]))
                } else {
                    Some(Seq::empty())
                },
            )
        } else {
            None
        },
        _ => None,
    }
}

/// The children a node lists lie inside it.
pub proof fn lemma_children_inside(j: Json)
    ensures
        node_head(j) matches Some((h, c)) ==> (c.len() > 0 ==> decreases_to!(j => c)),
{
    match j {
        Json::Object(fs) => {
            lemma_member_inside(fs@, "children"@);
            match member_spec(fs@, "children"@) {
                Some(Json::Array(v)) => {
                    assert(decreases_to!(j => fs));
                    assert(decreases_to!(fs => fs@));
                    assert(decreases_to!(fs@ => Json::Array(v)));
                    assert(decreases_to!(Json::Array(v) => v));
                    assert(decreases_to!(v => v@));
                },
                _ => {},
            }
        },
        Json::Array(items) => {
            if items@.len() == 6 {
                match items@[5] {
                    Json::Array(v) => {
                        assert(decreases_to!(j => items));
                        assert(decreases_to!(items => items@));
                        assert(decreases_to!(items@ => items@[5]));
                        assert(decreases_to!(items@[5] => v));
                        assert(decreases_to!(v => v@));
                    },
                    _ => {},
                }
            }
        },
        _ => {},
    }
}

pub open spec fn head_view(h: NodeHead, chain: Seq<Seq<char>>) -> SymbolView {
    SymbolView {
        name: h.name@,
        detail: opt_text(h.detail),
        kind: symbol_kind_spec(h.kind),
        range: h.range,
        selection_range: h.selection_range,
        container: chain,
        uri: None,
    }
}

/// The hierarchical shape flattened depth-first, each node before its
/// children, each carrying the names enclosing it, outermost first; or
/// nothing if one node cannot be read.
pub open spec fn nodes_spec(items: Seq<Json>, chain: Seq<Seq<char>>) -> Option<Seq<SymbolView>>
    decreases items,
{
    if items.len() == 0 {
        Some(Seq::empty())
    } else {
        match node_head(items[0]) {
            None => None,
            Some((head, children)) => {
                let below = if children.len() == 0 {
                    Some(Seq::<SymbolView>::empty())
                } else {
                    proof {
                        lemma_children_inside(items[0]);
                        assert(decreases_to!(items => items[0]));
                    }
                    nodes_spec(children, chain.push(head.name@))
                };
                let rest = nodes_spec(items.drop_first(), chain);
                match (below, rest) {
                    (Some(b), Some(r)) => Some(seq![head_view(head, chain)] + b + r),
                    _ => None,
                }
            },
        }
    }
}

fn node_head_of(j: &Json) -> (r: Option<(String, Option<String>, u32, Range, Range, Option<&Vec<Json>>)>)
    ensures
        match node_head(*j) {
            None => r is None,
            Some((h, c)) => r matches Some((n, d, k, rg, sel, ch)) && n == h.name && d == h.detail && k == h.kind
                && rg == h.range && sel == h.selection_range && match ch {
                Some(v) => v@ == c,
                None => c.len() == 0,
            },
        },
{
    match j {
        Json::Object(fs) => {
            let (n, rg, sr) = match (member(fs, "name"), member(fs, "range"), member(fs, "selectionRange")) {
                (Some(n), Some(rg), Some(sr)) => (n, rg, sr),
                _ => {
                    return None;
                },
            };
            let name = match str_of(n) {
                Some(x) => x,
                None => {
                    return None;
                },
            };
            let detail = match member(fs, "detail") {
                None => None,
                Some(d) => match opt_str_of(d) {
                    Some(x) => x,
                    None => {
                        return None;
                    },
                },
            };
            let kind = match member(fs, "kind") {
                None => 0,
                Some(k) => match u32_of(k) {
                    Some(x) => x,
                    None => {
                        return None;
                    },
                },
            };
            let (range, selection_range) = match (range_of(rg), range_of(sr)) {
                (Some(a), Some(b)) => (a, b),
                _ => {
                    return None;
                },
            };
            let children = match member(fs, "children") {
                None => None,
                Some(Json::Array(v)) => Some(v),
                Some(_) => {
                    return None;
                },
            };
            Some((name, detail, kind, range, selection_range, children))
        },
        Json::Array(items) => {
            if items.len() != 5 && items.len() != 6 {
                return None;
            }
            let name = match str_of(&items[0]) {
                Some(x) => x,
                None => {
                    return None;
                },
            };
            let detail = match opt_str_of(&items[1]) {
                Some(x) => x,
                None => {
                    return None;
                },
            };
            let kind = match u32_of(&items[2]) {
                Some(x) => x,
                None => {
                    return None;
                },
            };
            let (range, selection_range) = match (range_of(&items[3]), range_of(&items[4])) {
                (Some(a), Some(b)) => (a, b),
                _ => {
                    return None;
                },
            };
            let children = if items.len() == 6 {
                match &items[5] {
                    Json::Array(v) => Some(v),
                    _ => {
                        return None;
                    },
                }
            } else {
                None
            };
            Some((name, detail, kind, range, selection_range, children))
        },
        _ => None,
    }
}

fn copy_names(v: &Vec<String>) -> (r: Vec<String>)
    ensures
        r@ == v@,
{
    let mut r: Vec<String> = Vec::new();
    let mut i: usize = 0;
    while i < v.len()
        invariant
            i <= v.len(),
            r@ == v@.take(i as int),
        decreases v.len() - i,
    {
        r.push(v[i].clone());
        i = i + 1;
        assert(r@ =~= v@.take(i as int));
    }
    assert(v@.take(v.len() as int) =~= v@);
    r
}

pub open spec fn views(s: Seq<Symbol>) -> Seq<SymbolView> {
    s.map_values(|x: Symbol| symbol_view(x))
}

pub open spec fn names(s: Seq<String>) -> Seq<Seq<char>> {
    s.map_values(|x: String| x@)
}

/// Prepend what was read so far to what the rest reads as.
pub open spec fn after(acc: Seq<SymbolView>, rest: Option<Seq<SymbolView>>) -> Option<Seq<SymbolView>> {
    match rest {
        Some(r) => Some(acc + r),
        None => None,
    }
}

#[verifier::loop_isolation(false)]
fn flatten_nodes(items: &Vec<Json>, chain: &mut Vec<String>, out: &mut Vec<Symbol>) -> (ok: bool)
    ensures
        final(chain)@ == old(chain)@,
        ok == (nodes_spec(items@, names(old(chain)@)) is Some),
        ok ==> views(final(out)@) == views(old(out)@) + nodes_spec(items@, names(old(chain)@))->Some_0,
    decreases items@,
{
    let ghost chain0 = old(chain)@;
    let ghost c = names(chain0);
    assert(chain@ == chain0);
    let ghost start = views(out@);
    let mut i: usize = 0;
    assert(items@.skip(0) =~= items@);
    assert(start + Seq::<SymbolView>::empty() =~= start);
    while i < items.len()
        invariant
            i <= items@.len(),
            chain@ == chain0,
            c == names(chain0),
            views(out@).len() >= start.len(),
            views(out@).take(start.len() as int) == start,
            nodes_spec(items@, c) == after(views(out@).skip(start.len() as int), nodes_spec(items@.skip(i as int), c)),
        decreases items@.len() - i,
    {
        let ghost here = items@.skip(i as int);
        assert(here[0] == items@[i as int]);
        assert(here.drop_first() =~= items@.skip(i + 1));
        let head = node_head_of(&items[i]);
        if head.is_none() {
            assert(node_head(here[0]) is None);
            assert(nodes_spec(here, c) is None);
            return false;
        }
        let (name, detail, kind, range, selection_range, children) = head.unwrap();
        let ghost acc = views(out@).skip(start.len() as int);
        let ghost hv = head_view(node_head(items@[i as int])->Some_0.0, c);
        let container = copy_names(chain);
        let name_copy = name.clone();
        out.push(Symbol { name, detail, kind: symbol_kind(kind), range, selection_range, container, uri: None });
        assert(symbol_view(out@.last()) == hv) by {
            assert(names(chain@) =~= c);
        }
        let ghost mid = views(out@);
        assert(mid =~= views(old(out)@).take(0) + mid);
        match children {
            Some(v) => {
                if v.len() > 0 {
                    let ghost before_chain = chain@;
                    chain.push(name_copy);
                    assert(names(chain@) =~= c.push(node_head(items@[i as int])->Some_0.0.name@));
                    proof {
                        lemma_children_inside(items@[i as int]);
                        assert(decreases_to!(items@ => items@[i as int]));
                    }
                    let ok = flatten_nodes(v, chain, out);
                    chain.pop();
                    assert(chain@ =~= before_chain);
                    if !ok {
                        return false;
                    }
                }
            },
            None => {},
        }
        proof {
            let below = if node_head(items@[i as int])->Some_0.1.len() == 0 {
                Seq::<SymbolView>::empty()
            } else {
                nodes_spec(node_head(items@[i as int])->Some_0.1, c.push(node_head(items@[i as int])->Some_0.0.name@))->Some_0
            };
            assert(views(out@) =~= mid + below);
            assert(mid =~= views(out@).take(mid.len() as int));
            assert(views(out@).skip(start.len() as int) =~= acc + seq![hv] + below);
            assert(views(out@).take(start.len() as int) =~= start);
        }
        i = i + 1;
    }
    assert(items@.skip(i as int) =~= Seq::<Json>::empty());
    assert(views(out@) =~= start + views(out@).skip(start.len() as int));
    true
}

/// A `SymbolInformation`: the flat shape, which names a document per
/// declaration and has no identifier range, so the declaration's range
/// serves as both; its container name, when it has one, is a chain of one.
pub open spec fn info_parts(
    name: Option<String>,
    kind: Option<u32>,
    location: Option<Location>,
    container: Option<Option<String>>,
) -> Option<SymbolView> {
    match (name, kind, location, container) {
        (Some(name), Some(kind), Some(location), Some(container)) => Some(
            SymbolView {
                name: name@,
                detail: None,
                kind: symbol_kind_spec(kind),
                range: location.range,
                selection_range: location.range,
                container: match container {
                    Some(c) => seq![c@],
                    None => Seq::empty(),
                },
                uri: Some(location.uri@),
            },
        ),
        _ => None,
    }
}

pub open spec fn info_spec(j: Json) -> Option<SymbolView> {
    match j {
        Json::Object(fs) => match (member_spec(fs@, "name"@), member_spec(fs@, "location"@)) {
            (Some(n), Some(l)) => info_parts(
                str_spec(n),
                kind_field(member_spec(fs@, "kind"@)),
                location_spec(l),
                opt_str_field(member_spec(fs@, "containerName"@)),
            ),
            _ => None,
        },
        Json::Array(items) => if items@.len() == 3 || items@.len() == 4 {
            info_parts(
                str_spec(items@[0]),
                u32_spec(items@[1]),
                location_spec(items@[2]),
                if items@.len() == 4 {
                    opt_str_spec(items@[3])
                } else {
                    Some(None)
                },
            )
        } else {
            None
        },
        _ => None,
    }
}

fn info_of(j: &Json) -> (r: Option<Symbol>)
    ensures
        match info_spec(*j) {
            Some(v) => r matches Some(s) && symbol_view(s) == v,
            None => r is None,
        },
{
    let (name, kind, location, container) = match j {
        Json::Object(fs) => match (member(fs, "name"), member(fs, "location")) {
            (Some(n), Some(l)) => (
                str_of(n),
                match member(fs, "kind") {
                    None => Some(0),
                    Some(k) => u32_of(k),
                },
                location_of(l),
                match member(fs, "containerName") {
                    None => Some(None),
                    Some(c) => opt_str_of(c),
                },
            ),
            _ => {
                return None;
            },
        },
        Json::Array(items) => {
            if items.len() != 3 && items.len() != 4 {
                return None;
            }
            (
                str_of(&items[0]),
                u32_of(&items[1]),
                location_of(&items[2]),
                if items.len() == 4 {
                    opt_str_of(&items[3])
                } else {
                    Some(None)
                },
            )
        },
        _ => {
            return None;
        },
    };
    match (name, kind, location, container) {
        (Some(name), Some(kind), Some(location), Some(container)) => {
            let mut chain: Vec<String> = Vec::new();
            match container {
                Some(c) => chain.push(c),
                None => {},
            }
            let s = Symbol {
                name,
                detail: None,
                kind: symbol_kind(kind),
                range: location.range,
                selection_range: location.range,
                container: chain,
                uri: Some(location.uri),
            };
            assert(s.container@.map_values(|c: String| c@) =~= info_spec(*j)->Some_0.container);
            Some(s)
        },
        _ => None,
    }
}

pub open spec fn infos_spec(items: Seq<Json>) -> Option<Seq<SymbolView>> {
    if forall|i: int| 0 <= i < items.len() ==> (#[trigger] info_spec(items[i])) is Some {
        Some(Seq::new(items.len(), |i: int| info_spec(items[i])->Some_0))
    } else {
        None
    }
}

fn infos_of(items: &Vec<Json>) -> (r: Option<Vec<Symbol>>)
    ensures
        match infos_spec(items@) {
            Some(vs) => r matches Some(v) && views(v@) == vs,
            None => r is None,
        },
{
    let mut out: Vec<Symbol> = Vec::new();
    let mut i: usize = 0;
    while i < items.len()
        invariant
            i <= items@.len(),
            out@.len() == i,
            forall|k: int| 0 <= k < i ==> (#[trigger] info_spec(items@[k])) == Some(symbol_view(out@[k])),
        decreases items@.len() - i,
    {
        match info_of(&items[i]) {
            Some(s) => out.push(s),
            None => {
                return None;
            },
        }
        i = i + 1;
    }
    let ghost want = Seq::new(items@.len(), |k: int| info_spec(items@[k])->Some_0);
    assert(views(out@) =~= want);
    Some(out)
}

/// Every shape a `documentSymbol` answer may take, tried in order: `null`,
/// meaning nothing is declared; the hierarchical shape; the flat one.
pub open spec fn symbols_spec(j: Json) -> Option<Seq<SymbolView>> {
    if j is Null {
        Some(Seq::empty())
    } else {
        match j {
            Json::Array(items) => if nodes_spec(items@, Seq::empty()) is Some {
                nodes_spec(items@, Seq::empty())
            } else {
                infos_spec(items@)
            },
            _ => None,
        }
    }
}

/// Read a `documentSymbol` answer, whichever of its shapes arrived.
pub fn decode_document_symbols(value: &Json) -> (r: Result<Vec<Symbol>, DecodeError>)
    ensures
        match symbols_spec(*value) {
            Some(vs) => r matches Ok(v) && views(v@) == vs,
            None => r matches Err(DecodeError::Shape { what, detail }) && what == method::DOCUMENT_SYMBOL
                && shape_detail_spec(*value, detail@),
        },
{
    if let Json::Null = value {
        let v: Vec<Symbol> = Vec::new();
        assert(views(v@) =~= Seq::<SymbolView>::empty());
        return Ok(v);
    }
    if let Json::Array(items) = value {
        let mut chain: Vec<String> = Vec::new();
        let mut out: Vec<Symbol> = Vec::new();
        assert(names(chain@) =~= Seq::<Seq<char>>::empty());
        if flatten_nodes(items, &mut chain, &mut out) {
            assert(views(Seq::<Symbol>::empty()) =~= Seq::<SymbolView>::empty());
            assert(views(out@) =~= Seq::<SymbolView>::empty() + nodes_spec(items@, Seq::empty())->Some_0);
            return Ok(out);
        }
        if let Some(v) = infos_of(items) {
            return Ok(v);
        }
    }
    Err(DecodeError::shape(method::DOCUMENT_SYMBOL, value))
}

/// How much of a document the server wants to be told about on every edit.
#[derive(Debug, Clone, Copy, PartialEq, Eq, Structural)]
pub enum SyncKind {
    /// The server does not want document sync, and is then refused.
    NotSynced,
    Full,
    Incremental,
}

/// The `textDocumentSync` kind a server named: 1 is full, 2 incremental, and
/// anything else, an absent number included, leaves nothing to promise.
pub open spec fn sync_kind_spec(number: Option<u64>) -> SyncKind {
    match number {
        Some(n) => if n == 1 {
            SyncKind::Full
        } else if n == 2 {
            SyncKind::Incremental
        } else {
            SyncKind::NotSynced
        },
        None => SyncKind::NotSynced,
    }
}

/// Resolve the number a `textDocumentSync` field carried, directly or as the
/// `change` member of its options object.
pub fn sync_kind_of(number: Option<u64>) -> (r: SyncKind)
    ensures
        r == sync_kind_spec(number),
{
    match number {
        Some(1) => SyncKind::Full,
        Some(2) => SyncKind::Incremental,
        _ => SyncKind::NotSynced,
    }
}

/// The handshake fields that gate a feature, and only those.
#[derive(Debug, Clone, PartialEq, Eq)]
pub struct ServerCapabilities {
    pub references: bool,
    pub definition: bool,
    pub implementation: bool,
    pub type_definition: bool,
    pub document_symbol: bool,
    /// `renameProvider` claims the rename itself.
    pub rename: bool,
    /// `renameProvider` is an options object whose `prepareProvider` is a
    /// literal `true`: the one promise that `prepareRename` will be answered.
    pub prepare_rename: bool,
    pub sync: SyncKind,
    /// Exactly what the server said, `None` when it said nothing.
    pub position_encoding: Option<String>,
}

impl ServerCapabilities {
    /// Whether columns counted in UTF-16 code units are what this server means.
    /// Silence counts as yes: UTF-16 is the protocol default.
    pub fn encoding_is_utf16(&self) -> (r: bool)
        ensures
            r == match self.position_encoding {
                None => true,
                Some(e) => e@ == "utf-16"@,
            },
    {
        match &self.position_encoding {
            None => true,
            Some(encoding) => same_text(encoding.as_str(), "utf-16"),
        }
    }
}

/// Whether a provider field claims its feature: `true`, or an options
/// object, as the real `referencesProvider` is. Anything else, an absent
/// field included, leaves no claim.
pub open spec fn provides_spec(field: Option<Json>) -> bool {
    match field {
        Some(Json::Bool(b)) => b,
        Some(Json::Object(_)) => true,
        _ => false,
    }
}

fn provides(field: Option<&Json>) -> (r: bool)
    ensures
        r == provides_spec(
            match field {
                Some(j) => Some(*j),
                None => None,
            },
        ),
{
    match field {
        Some(Json::Bool(b)) => *b,
        Some(Json::Object(_)) => true,
        _ => false,
    }
}

/// The number `textDocumentSync` names, directly or as the `change` member
/// of its options object, whose absence means none.
pub open spec fn sync_number(field: Option<Json>) -> Option<u64> {
    match field {
        Some(Json::Number(_)) => u64_spec(field->Some_0),
        Some(Json::Object(o)) => match member_spec(o@, "change"@) {
            Some(c) => u64_spec(c),
            None => None,
        },
        _ => None,
    }
}

fn sync_number_of(field: Option<&Json>) -> (r: Option<u64>)
    ensures
        r == sync_number(
            match field {
                Some(j) => Some(*j),
                None => None,
            },
        ),
{
    match field {
        Some(j @ Json::Number(_)) => u64_of(j),
        Some(Json::Object(o)) => match member(o, "change") {
            Some(c) => u64_of(c),
            None => None,
        },
        _ => None,
    }
}

/// Whether a `renameProvider` field promises `prepareRename`: only an
/// options object saying `"prepareProvider": true` does. A bare `true` makes
/// no promise about it.
pub open spec fn prepare_provider_spec(field: Option<Json>) -> bool {
    match field {
        Some(Json::Object(o)) => member_spec(o@, "prepareProvider"@) matches Some(Json::Bool(b)) && b,
        _ => false,
    }
}

fn prepare_provider(field: Option<&Json>) -> (r: bool)
    ensures
        r == prepare_provider_spec(
            match field {
                Some(j) => Some(*j),
                None => None,
            },
        ),
{
    match field {
        Some(Json::Object(o)) => match member(o, "prepareProvider") {
            Some(Json::Bool(b)) => *b,
            _ => false,
        },
        _ => false,
    }
}

pub open spec fn encoding_field(field: Option<Json>) -> Option<String> {
    match field {
        Some(Json::Str(s)) => Some(s),
        _ => None,
    }
}

/// The gating fields of an `initialize` result; nothing when it has no
/// `capabilities` object, which means the handshake was not understood at
/// all rather than that nothing is provided.
pub open spec fn capabilities_spec(j: Json) -> Option<ServerCapabilities> {
    match j {
        Json::Object(fs) => match member_spec(fs@, "capabilities"@) {
            Some(Json::Object(c)) => Some(
                ServerCapabilities {
                    references: provides_spec(member_spec(c@, "referencesProvider"@)),
                    definition: provides_spec(member_spec(c@, "definitionProvider"@)),
                    implementation: provides_spec(member_spec(c@, "implementationProvider"@)),
                    type_definition: provides_spec(member_spec(c@, "typeDefinitionProvider"@)),
                    document_symbol: provides_spec(member_spec(c@, "documentSymbolProvider"@)),
                    rename: provides_spec(member_spec(c@, "renameProvider"@)),
                    prepare_rename: prepare_provider_spec(member_spec(c@, "renameProvider"@)),
                    sync: sync_kind_spec(sync_number(member_spec(c@, "textDocumentSync"@))),
                    position_encoding: encoding_field(member_spec(c@, "positionEncoding"@)),
                },
            ),
            _ => None,
        },
        _ => None,
    }
}

impl ServerCapabilities {
    /// Pull the gating fields out of an `initialize` result.
    pub fn from_initialize_result(value: &Json) -> (r: Result<Self, DecodeError>)
        ensures
            match capabilities_spec(*value) {
                Some(c) => r == Ok::<ServerCapabilities, DecodeError>(c),
                None => r matches Err(DecodeError::Shape { what, detail }) && what == method::INITIALIZE
                    && shape_detail_spec(*value, detail@),
            },
    {
        let c = match value {
            Json::Object(fs) => match member(fs, "capabilities") {
                Some(Json::Object(c)) => c,
                _ => {
                    return Err(DecodeError::shape(method::INITIALIZE, value));
                },
            },
            _ => {
                return Err(DecodeError::shape(method::INITIALIZE, value));
            },
        };
        let position_encoding = match member(c, "positionEncoding") {
            Some(Json::Str(s)) => Some(s.clone()),
            _ => None,
        };
        Ok(
            ServerCapabilities {
                references: provides(member(c, "referencesProvider")),
                definition: provides(member(c, "definitionProvider")),
                implementation: provides(member(c, "implementationProvider")),
                type_definition: provides(member(c, "typeDefinitionProvider")),
                document_symbol: provides(member(c, "documentSymbolProvider")),
                rename: provides(member(c, "renameProvider")),
                prepare_rename: prepare_provider(member(c, "renameProvider")),
                sync: sync_kind_of(sync_number_of(member(c, "textDocumentSync"))),
                position_encoding,
            },
        )
    }
}

/// Which document a request or notification is about.
#[derive(Debug, Clone)]
pub struct TextDocumentIdentifier {
    pub uri: String,
}

/// Which document, and which of our versions of it.
#[derive(Debug, Clone)]
pub struct VersionedTextDocumentIdentifier {
    pub uri: String,
    pub version: i32,
}

#[derive(Debug, Clone)]
pub struct TextDocumentItem {
    pub uri: String,
    pub language_id: String,
    pub version: i32,
    pub text: String,
}

#[derive(Debug, Clone)]
pub struct DidOpenTextDocumentParams {
    pub text_document: TextDocumentItem,
}

impl DidOpenTextDocumentParams {
    pub fn new(uri: &str, language_id: &str, version: i32, text: &str) -> (r: Self)
        ensures
            r.text_document.uri@ == uri@,
            r.text_document.language_id@ == language_id@,
            r.text_document.version == version,
            r.text_document.text@ == text@,
    {
        Self {
            text_document: TextDocumentItem {
                uri: uri.to_owned(),
                language_id: language_id.to_owned(),
                version,
                text: text.to_owned(),
            },
        }
    }
}

/// One edit, described as a range and its replacement.
#[derive(Debug, Clone)]
pub struct TextDocumentContentChangeEvent {
    pub range: Range,
    pub text: String,
}

#[derive(Debug, Clone)]
pub struct DidChangeTextDocumentParams {
    pub text_document: VersionedTextDocumentIdentifier,
    pub content_changes: Vec<TextDocumentContentChangeEvent>,
}

impl DidChangeTextDocumentParams {
    /// Replace the whole document with one change event spanning all of it.
    ///
    /// The range describes the buffer the server holds now, which ends at
    /// `previous_end` — the end of the text last sent — and not the new text.
    pub fn whole_document(uri: &str, version: i32, previous_end: Position, text: &str) -> (r: Self)
        ensures
            r.text_document.uri@ == uri@,
            r.text_document.version == version,
            r.content_changes@.len() == 1,
            r.content_changes@[0].range == (Range {
                start: Position { line: 0, character: 0 },
                end: previous_end,
            }),
            r.content_changes@[0].text@ == text@,
    {
        let mut content_changes: Vec<TextDocumentContentChangeEvent> = Vec::new();
        content_changes.push(
            TextDocumentContentChangeEvent {
                range: Range { start: Position { line: 0, character: 0 }, end: previous_end },
                text: text.to_owned(),
            },
        );
        Self {
            text_document: VersionedTextDocumentIdentifier { uri: uri.to_owned(), version },
            content_changes,
        }
    }
}

/// How many `\n` the text holds.
pub open spec fn newline_count(s: Seq<char>) -> nat
    decreases s.len(),
{
    if s.len() == 0 {
        0
    } else {
        newline_count(s.drop_last()) + if s.last() == '\n' { 1nat } else { 0nat }
    }
}

/// Where the last line starts: just past the last `\n`, or at 0.
pub open spec fn last_line_start(s: Seq<char>) -> int
    decreases s.len(),
{
    if s.len() == 0 {
        0
    } else if s.last() == '\n' {
        s.len() as int
    } else {
        last_line_start(s.drop_last())
    }
}

/// The position just past the end of a document, in the protocol's units: the
/// 0-based line is the number of `\n` in it (a trailing one opens a final empty
/// line), and the column is the UTF-16 length of what follows the last one. A
/// `\r` there is content and counted. Both are carried as `u32`, wrapping.
pub open spec fn document_end_spec(s: Seq<char>) -> Position {
    Position {
        line: newline_count(s) as u32,
        character: unit_len(s.skip(last_line_start(s))) as u32,
    }
}

proof fn lemma_last_line_start_bounds(s: Seq<char>)
    ensures
        0 <= last_line_start(s) <= s.len(),
    decreases s.len(),
{
    if s.len() > 0 && s.last() != '\n' {
        lemma_last_line_start_bounds(s.drop_last());
    }
}

/// The extent of a document, as the next change notification must describe it.
pub fn document_end(text: &str) -> (r: Position)
    ensures
        r == document_end_spec(text@),
{
    establish_addressable(text);
    let v = chars_of(text);
    let mut breaks: usize = 0;
    let mut start: usize = 0;
    let mut i: usize = 0;
    while i < v.len()
        invariant
            i <= v.len(),
            breaks <= i,
            breaks == newline_count(v@.take(i as int)),
            start == last_line_start(v@.take(i as int)),
        decreases v.len() - i,
    {
        assert(v@.take(i + 1).drop_last() =~= v@.take(i as int));
        if v[i] == '\n' {
            breaks = breaks + 1;
            start = i + 1;
        }
        i = i + 1;
    }
    assert(v@.take(v.len() as int) =~= v@);
    proof { lemma_last_line_start_bounds(v@); }
    assert(v@.subrange(start as int, v.len() as int) =~= v@.skip(start as int));
    proof { crate::text::lemma_subrange_bytes(v@, start as int, v.len() as int); }
    let (_, units) = measure(&v, start, v.len());
    Position { line: breaks as u32, character: units as u32 }
}

#[derive(Debug, Clone)]
pub struct DidCloseTextDocumentParams {
    pub text_document: TextDocumentIdentifier,
}

impl DidCloseTextDocumentParams {
    pub fn new(uri: &str) -> (r: Self)
        ensures
            r.text_document.uri@ == uri@,
    {
        Self { text_document: TextDocumentIdentifier { uri: uri.to_owned() } }
    }
}

/// The params of all three goto requests, which differ only in the method.
#[derive(Debug, Clone)]
pub struct TextDocumentPositionParams {
    pub text_document: TextDocumentIdentifier,
    pub position: Position,
}

impl TextDocumentPositionParams {
    pub fn new(uri: &str, position: Position) -> (r: Self)
        ensures
            r.text_document.uri@ == uri@,
            r.position == position,
    {
        Self { text_document: TextDocumentIdentifier { uri: uri.to_owned() }, position }
    }
}

#[derive(Debug, Clone)]
pub struct ReferenceContext {
    pub include_declaration: bool,
}

#[derive(Debug, Clone)]
pub struct ReferenceParams {
    pub text_document: TextDocumentIdentifier,
    pub position: Position,
    pub context: ReferenceContext,
}

impl ReferenceParams {
    /// Whether the declaration is listed beside the uses is the caller's choice.
    pub fn new(uri: &str, position: Position, include_declaration: bool) -> (r: Self)
        ensures
            r.text_document.uri@ == uri@,
            r.position == position,
            r.context.include_declaration == include_declaration,
    {
        Self {
            text_document: TextDocumentIdentifier { uri: uri.to_owned() },
            position,
            context: ReferenceContext { include_declaration },
        }
    }
}

#[derive(Debug, Clone)]
pub struct DocumentSymbolParams {
    pub text_document: TextDocumentIdentifier,
}

impl DocumentSymbolParams {
    pub fn new(uri: &str) -> (r: Self)
        ensures
            r.text_document.uri@ == uri@,
    {
        Self { text_document: TextDocumentIdentifier { uri: uri.to_owned() } }
    }
}

/// One replacement a server asks for: a range and the text to put there.
#[derive(Debug, Clone, PartialEq, Eq)]
pub struct TextEdit {
    pub range: Range,
    pub new_text: String,
}

/// A text edit, as plain values.
pub ghost struct TextEditView {
    pub range: Range,
    pub text: Seq<char>,
}

impl View for TextEdit {
    type V = TextEditView;

    open spec fn view(&self) -> TextEditView {
        TextEditView { range: self.range, text: self.new_text@ }
    }
}

/// Every edit a `WorkspaceEdit` holds for one document, under the server's URI.
#[derive(Debug, Clone, PartialEq, Eq)]
pub struct DocumentEdits {
    pub uri: String,
    pub edits: Vec<TextEdit>,
}

/// A create, rename or delete of a whole file, which this app never performs.
#[derive(Debug, Clone, PartialEq, Eq)]
pub struct ResourceOperation {
    /// `create`, `rename` or `delete`, as the server spelled it.
    pub kind: String,
    /// Every URI the operation names.
    pub uris: Vec<String>,
}

/// A server's answer to a rename: text edits per document, and any file
/// operations it also wanted.
#[derive(Debug, Clone, PartialEq, Eq)]
pub struct WorkspaceEdit {
    pub documents: Vec<DocumentEdits>,
    pub resource_operations: Vec<ResourceOperation>,
}

impl Default for WorkspaceEdit {
    fn default() -> (r: Self)
        ensures
            r.documents@.len() == 0,
            r.resource_operations@.len() == 0,
    {
        WorkspaceEdit { documents: Vec::new(), resource_operations: Vec::new() }
    }
}

} // verus!
