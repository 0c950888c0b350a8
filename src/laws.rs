//! Properties of the parser as a whole, stated over the grammar.
use vstd::prelude::*;
use crate::grammar::{
    parse_spec, value_at, skip_ws, lemma_skip_ws, matches_at, lemma_value_advances, array_items,
    object_members,
};
use crate::shift::lemma_value_after_prefix;
use crate::extend::{all_ws, lemma_value_before_whitespace};
use crate::lexical::is_ws;
use crate::value::{JsonValue, ParseError, result_view};

verus! {

/// Parsing is deterministic: two parses of the same characters give results
/// with the same model, value for value or error for error.
pub proof fn lemma_parse_deterministic(
    a: Seq<char>,
    b: Seq<char>,
    ra: Result<JsonValue, ParseError>,
    rb: Result<JsonValue, ParseError>,
)
    requires
        a == b,
        result_view(ra) == parse_spec(a),
        result_view(rb) == parse_spec(b),
    ensures
        result_view(ra) == result_view(rb),
{
}

/// A document of whitespace alone, the empty one included, fails with
/// `UnexpectedEndOfInput`.
pub proof fn lemma_blank_input_fails(s: Seq<char>)
    requires
        all_ws(s),
    ensures
        parse_spec(s) == Err::<crate::value::Json, ParseError>(ParseError::UnexpectedEndOfInput),
{
    lemma_skip_ws(s, 0);
}

/// Where the first letter of the document begins `true` or `false` but the
/// whole word does not follow, the parse fails with `ExpectedBoolean`; a
/// partial match is never taken.
pub proof fn lemma_partial_boolean_fails(s: Seq<char>)
    requires
        skip_ws(s, 0) < s.len(),
        s[skip_ws(s, 0)] == 't' ==> !matches_at(s, skip_ws(s, 0), seq!['t', 'r', 'u', 'e']),
        s[skip_ws(s, 0)] == 'f' ==> !matches_at(s, skip_ws(s, 0), seq!['f', 'a', 'l', 's', 'e']),
        s[skip_ws(s, 0)] == 't' || s[skip_ws(s, 0)] == 'f',
    ensures
        parse_spec(s) == Err::<crate::value::Json, ParseError>(ParseError::ExpectedBoolean),
{
    lemma_skip_ws(s, 0);
    assert(value_at(s, 0) == Err::<(crate::value::Json, int), ParseError>(
        ParseError::ExpectedBoolean,
    ));
}

/// Where the first letter of the document is `n` but `null` does not follow,
/// the parse fails with `ExpectedNull`.
pub proof fn lemma_partial_null_fails(s: Seq<char>)
    requires
        skip_ws(s, 0) < s.len(),
        s[skip_ws(s, 0)] == 'n',
        !matches_at(s, skip_ws(s, 0), seq!['n', 'u', 'l', 'l']),
    ensures
        parse_spec(s) == Err::<crate::value::Json, ParseError>(ParseError::ExpectedNull),
{
    lemma_skip_ws(s, 0);
    assert(value_at(s, 0) == Err::<(crate::value::Json, int), ParseError>(
        ParseError::ExpectedNull,
    ));
}

/// Skipping from anywhere inside a run of whitespace ends where skipping
/// from after the run does.
proof fn lemma_skip_through(t: Seq<char>, i: int, n: int)
    requires
        0 <= i <= n <= t.len(),
        forall|k: int| i <= k < n ==> is_ws(#[trigger] t[k]),
    ensures
        skip_ws(t, i) == skip_ws(t, n),
    decreases n - i,
{
    if i < n {
        lemma_skip_through(t, i + 1, n);
    }
}

/// Whitespace put before a document does not change what it parses to.
pub proof fn lemma_leading_whitespace(w: Seq<char>, s: Seq<char>)
    requires
        all_ws(w),
    ensures
        parse_spec(w + s) == parse_spec(s),
{
    let t = w + s;
    let d = w.len() as int;
    assert forall|k: int| 0 <= k < d implies is_ws(#[trigger] t[k]) by {
        assert(t[k] == w[k]);
    }
    lemma_skip_through(t, 0, d);
    assert(value_at(t, 0) == value_at(t, d));
    lemma_value_after_prefix(w, s, 0);
    assert(value_at(t, 0 + d) == value_at(t, d));
    lemma_value_advances(s, 0);
    if let Ok((v, p)) = value_at(s, 0) {
        crate::shift::lemma_skip_after_prefix(w, s, p);
    }
}

/// Whitespace put after a document that parses does not change its value.
pub proof fn lemma_trailing_whitespace(s: Seq<char>, w: Seq<char>)
    requires
        all_ws(w),
        parse_spec(s) is Ok,
    ensures
        parse_spec(s + w) == parse_spec(s),
{
    let t = s + w;
    lemma_value_before_whitespace(s, w, 0);
    lemma_value_advances(s, 0);
    let p = value_at(s, 0)->Ok_0.1;
    lemma_skip_ws(s, p);
    assert forall|k: int| p <= k < t.len() implies is_ws(#[trigger] t[k]) by {
        if k < s.len() {
            assert(t[k] == s[k]);
        } else {
            assert(t[k] == w[k - s.len()]);
        }
    }
    lemma_skip_through(t, p, t.len() as int);
}

/// Whitespace put around a document that parses does not change its value.
pub proof fn lemma_surrounding_whitespace(before: Seq<char>, s: Seq<char>, after: Seq<char>)
    requires
        all_ws(before),
        all_ws(after),
        parse_spec(s) is Ok,
    ensures
        parse_spec(before + s + after) == parse_spec(s),
{
    lemma_trailing_whitespace(s, after);
    lemma_leading_whitespace(before, s + after);
    assert(before + s + after =~= before + (s + after));
}

/// After a `,` in an object a key is due, so a `}` there (a trailing comma)
/// is rejected with `InvalidKey`.
pub proof fn lemma_object_trailing_comma(s: Seq<char>, i: int)
    requires
        0 <= i <= s.len(),
        skip_ws(s, i) < s.len(),
        s[skip_ws(s, i)] == '}',
    ensures
        object_members(s, i) == Err::<(Seq<(Seq<char>, crate::value::Json)>, int), ParseError>(
            ParseError::InvalidKey,
        ),
{
}

/// After a `,` in an array a value is due, so a `]` there (a trailing comma)
/// is rejected as an unexpected character.
pub proof fn lemma_array_trailing_comma(s: Seq<char>, i: int)
    requires
        0 <= i <= s.len(),
        skip_ws(s, i) < s.len(),
        s[skip_ws(s, i)] == ']',
    ensures
        array_items(s, i) == Err::<(Seq<crate::value::Json>, int), ParseError>(
            ParseError::UnexpectedCharacter(']'),
        ),
{
    lemma_skip_ws(s, i);
    assert(value_at(s, i) == Err::<(crate::value::Json, int), ParseError>(
        ParseError::UnexpectedCharacter(']'),
    ));
}

} // verus!
