//! The parsed tree, its mathematical model, and the error kinds.
use vstd::prelude::*;

verus! {

broadcast use vstd::std_specs::vec::axiom_vec_index_decreases;

/// A parsed JSON value.
///
/// A number is held as the literal text that the scanner took for it, which
/// `grammar::is_float_literal` accepts; turning it into a binary float is
/// left to the caller.
#[derive(Debug)]
pub enum JsonValue {
    Null,
    Boolean(bool),
    Number(String),
    String(String),
    Array(Vec<JsonValue>),
    Object(Vec<(String, JsonValue)>),
}

/// The model of a `JsonValue`: strings as sequences of characters, arrays and
/// objects as sequences.
pub enum Json {
    Null,
    Boolean(bool),
    Number(Seq<char>),
    Str(Seq<char>),
    Array(Seq<Json>),
    Object(Seq<(Seq<char>, Json)>),
}

/// Why a document was rejected.
#[derive(Debug, Clone, Copy, PartialEq, Eq, Structural)]
pub enum ParseError {
    UnexpectedCharacter(char),
    UnexpectedEndOfInput,
    InvalidKey,
    ExpectedColon,
    ExpectedCommaOrBrace,
    ExpectedCommaOrBracket,
    UnterminatedString,
    InvalidEscapeCharacter,
    InvalidUnicodeEscape,
    InvalidNumber,
    ExpectedBoolean,
    ExpectedNull,
    TrailingCharacters,
}

impl JsonValue {
    pub open spec fn view(&self) -> Json
        decreases self,
    {
        match self {
            JsonValue::Null => Json::Null,
            JsonValue::Boolean(b) => Json::Boolean(*b),
            JsonValue::Number(t) => Json::Number(t@),
            JsonValue::String(t) => Json::Str(t@),
            JsonValue::Array(items) => Json::Array(
                Seq::new(
                    items.len() as nat,
                    |i: int|
                        if 0 <= i < items.len() {
                            items[i].view()
                        } else {
                            Json::Null
                        },
                ),
            ),
            JsonValue::Object(members) => Json::Object(
                Seq::new(
                    members.len() as nat,
                    |i: int|
                        if 0 <= i < members.len() {
                            (members[i].0@, members[i].1.view())
                        } else {
                            (Seq::empty(), Json::Null)
                        },
                ),
            ),
        }
    }
}

/// The models of a sequence of values.
pub open spec fn item_views(v: Seq<JsonValue>) -> Seq<Json> {
    v.map_values(|x: JsonValue| x.view())
}

/// The models of a sequence of object members.
pub open spec fn member_views(v: Seq<(String, JsonValue)>) -> Seq<(Seq<char>, Json)> {
    v.map_values(|m: (String, JsonValue)| (m.0@, m.1.view()))
}

/// The model of a parse result.
pub open spec fn result_view(r: Result<JsonValue, ParseError>) -> Result<Json, ParseError> {
    match r {
        Ok(v) => Ok(v.view()),
        Err(e) => Err(e),
    }
}

pub proof fn lemma_array_view(items: Vec<JsonValue>)
    ensures
        JsonValue::Array(items).view() == Json::Array(item_views(items@)),
{
    let a = match JsonValue::Array(items).view() {
        Json::Array(a) => a,
        _ => Seq::empty(),
    };
    assert(a =~= item_views(items@));
}

pub proof fn lemma_object_view(members: Vec<(String, JsonValue)>)
    ensures
        JsonValue::Object(members).view() == Json::Object(member_views(members@)),
{
    let a = match JsonValue::Object(members).view() {
        Json::Object(a) => a,
        _ => Seq::empty(),
    };
    assert(a =~= member_views(members@));
}

} // verus!
