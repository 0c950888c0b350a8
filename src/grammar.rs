//! The grammar as spec functions over the input's characters.
//!
//! Each function reads from a position and gives either the value read with
//! the position after it, or the first rule broken. Positions are indices into
//! the character sequence.
use vstd::prelude::*;
use crate::lexical::{is_ws, is_digit, is_number_char, is_hex_digit, hex_value};
use crate::value::{Json, ParseError};
use crate::finite::is_finite_value;

verus! {

/// The position after the run of whitespace that starts at `i`.
pub open spec fn skip_ws(s: Seq<char>, i: int) -> int
    decreases s.len() - i,
{
    if 0 <= i < s.len() && is_ws(s[i]) {
        skip_ws(s, i + 1)
    } else {
        i
    }
}

pub proof fn lemma_skip_ws(s: Seq<char>, i: int)
    requires
        0 <= i <= s.len(),
    ensures
        i <= skip_ws(s, i) <= s.len(),
        skip_ws(s, i) < s.len() ==> !is_ws(s[skip_ws(s, i)]),
        forall|k: int| i <= k < skip_ws(s, i) ==> is_ws(#[trigger] s[k]),
    decreases s.len() - i,
{
    if i < s.len() && is_ws(s[i]) {
        lemma_skip_ws(s, i + 1);
    }
}

/// The end of the run of number characters that starts at `i`.
pub open spec fn number_end(s: Seq<char>, i: int) -> int
    decreases s.len() - i,
{
    if 0 <= i < s.len() && is_number_char(s[i]) {
        number_end(s, i + 1)
    } else {
        i
    }
}

pub proof fn lemma_number_end(s: Seq<char>, i: int)
    requires
        0 <= i <= s.len(),
    ensures
        i <= number_end(s, i) <= s.len(),
        i < s.len() && is_number_char(s[i]) ==> i < number_end(s, i),
    decreases s.len() - i,
{
    if i < s.len() && is_number_char(s[i]) {
        lemma_number_end(s, i + 1);
    }
}

/// The numeric literal at `j`: the longest run of number characters there,
/// taken whole, and valid only where a float conversion accepts it.
pub open spec fn number_at(s: Seq<char>, j: int) -> Result<(Json, int), ParseError> {
    let p = number_end(s, j);
    if is_float_literal(s.subrange(j, p)) {
        Ok((Json::Number(s.subrange(j, p)), p))
    } else {
        Err(ParseError::InvalidNumber)
    }
}

pub open spec fn all_digits(t: Seq<char>) -> bool {
    forall|k: int| 0 <= k < t.len() ==> is_digit(#[trigger] t[k])
}

pub open spec fn is_sign(c: char) -> bool {
    c == '+' || c == '-'
}

/// `t` without one leading sign.
pub open spec fn drop_sign(t: Seq<char>) -> Seq<char> {
    if t.len() > 0 && is_sign(t[0]) {
        t.drop_first()
    } else {
        t
    }
}

/// Digits with at most one decimal point among them, and at least one digit.
pub open spec fn is_mantissa(m: Seq<char>) -> bool {
    &&& forall|k: int| 0 <= k < m.len() ==> is_digit(#[trigger] m[k]) || m[k] == '.'
    &&& forall|a: int, b: int|
        0 <= a < b < m.len() && #[trigger] m[a] == '.' ==> #[trigger] m[b] != '.'
    &&& exists|k: int| 0 <= k < m.len() && is_digit(#[trigger] m[k])
}

/// Empty, or an `e` or `E`, an optional sign, and one digit or more.
pub open spec fn is_exponent(x: Seq<char>) -> bool {
    x.len() == 0 || ((x[0] == 'e' || x[0] == 'E') && drop_sign(x.drop_first()).len() > 0
        && all_digits(drop_sign(x.drop_first())))
}

/// The decimal literals that a float conversion accepts and takes to a
/// finite 64-bit float: an optional sign, a mantissa and an optional
/// exponent, with a value below the point from which rounding gives infinity.
pub open spec fn is_float_literal(t: Seq<char>) -> bool {
    exists|k: int|
        0 <= k <= drop_sign(t).len() && is_mantissa(#[trigger] drop_sign(t).take(k))
            && is_exponent(drop_sign(t).skip(k)) && is_finite_value(
            drop_sign(t).take(k),
            drop_sign(t).skip(k),
        )
}

/// The character that a one-letter escape stands for.
pub open spec fn escape_char(e: char) -> Option<char> {
    if e == '"' {
        Some('"')
    } else if e == '\\' {
        Some('\\')
    } else if e == '/' {
        Some('/')
    } else if e == 'b' {
        Some('\u{8}')
    } else if e == 'f' {
        Some('\u{c}')
    } else if e == 'n' {
        Some('\n')
    } else if e == 'r' {
        Some('\r')
    } else if e == 't' {
        Some('\t')
    } else {
        None
    }
}

/// Four hex digits stand at `i`.
pub open spec fn hex4_at(s: Seq<char>, i: int) -> bool {
    0 <= i && i + 4 <= s.len() && is_hex_digit(s[i]) && is_hex_digit(s[i + 1]) && is_hex_digit(
        s[i + 2],
    ) && is_hex_digit(s[i + 3])
}

/// The number that the four hex digits at `i` spell.
pub open spec fn hex4_value(s: Seq<char>, i: int) -> nat {
    hex_value(s[i]) * 4096 + hex_value(s[i + 1]) * 256 + hex_value(s[i + 2]) * 16 + hex_value(
        s[i + 3],
    )
}

/// A code that names a Unicode scalar value (no surrogate).
pub open spec fn is_scalar_code(c: nat) -> bool {
    c < 0xD800 || (0xE000 <= c && c <= 0x10FFFF)
}

/// `r` with `pre` put before the sequence that it carries.
pub open spec fn prefixed<A>(pre: Seq<A>, r: Result<(Seq<A>, int), ParseError>) -> Result<
    (Seq<A>, int),
    ParseError,
> {
    match r {
        Ok((t, p)) => Ok((pre + t, p)),
        Err(e) => Err(e),
    }
}

pub proof fn lemma_prefixed_twice<A>(a: Seq<A>, b: Seq<A>, r: Result<(Seq<A>, int), ParseError>)
    ensures
        prefixed(a, prefixed(b, r)) == prefixed(a + b, r),
{
    if let Ok((t, p)) = r {
        assert(a + (b + t) =~= (a + b) + t);
    }
}

/// The rest of a string literal from `i`, just after its opening quote: the
/// decoded text and the position after the closing quote.
pub open spec fn string_body(s: Seq<char>, i: int) -> Result<(Seq<char>, int), ParseError>
    decreases s.len() - i,
{
    if i < 0 || i >= s.len() {
        Err(ParseError::UnterminatedString)
    } else if s[i] == '"' {
        Ok((Seq::empty(), i + 1))
    } else if s[i] != '\\' {
        prefixed(seq![s[i]], string_body(s, i + 1))
    } else if i + 1 >= s.len() {
        Err(ParseError::UnterminatedString)
    } else if s[i + 1] == 'u' {
        if hex4_at(s, i + 2) && is_scalar_code(hex4_value(s, i + 2)) {
            prefixed(seq![(hex4_value(s, i + 2) as u32) as char], string_body(s, i + 6))
        } else {
            Err(ParseError::InvalidUnicodeEscape)
        }
    } else {
        match escape_char(s[i + 1]) {
            Some(c) => prefixed(seq![c], string_body(s, i + 2)),
            None => Err(ParseError::InvalidEscapeCharacter),
        }
    }
}

pub proof fn lemma_string_body_advances(s: Seq<char>, i: int)
    ensures
        string_body(s, i) matches Ok((_, p)) ==> i < p <= s.len(),
    decreases s.len() - i,
{
    if 0 <= i < s.len() && s[i] != '"' {
        if s[i] != '\\' {
            lemma_string_body_advances(s, i + 1);
        } else if i + 1 < s.len() {
            if s[i + 1] == 'u' {
                if hex4_at(s, i + 2) {
                    lemma_string_body_advances(s, i + 6);
                }
            } else {
                lemma_string_body_advances(s, i + 2);
            }
        }
    }
}

/// `k` stands in `s` at `i`.
pub open spec fn matches_at(s: Seq<char>, i: int, k: Seq<char>) -> bool {
    0 <= i && i + k.len() <= s.len() && s.subrange(i, i + k.len()) == k
}

pub open spec fn keyword(s: Seq<char>, i: int, k: Seq<char>, v: Json, e: ParseError) -> Result<
    (Json, int),
    ParseError,
> {
    if matches_at(s, i, k) {
        Ok((v, i + k.len()))
    } else {
        Err(e)
    }
}

/// A character with which a value can begin.
pub open spec fn starts_value(c: char) -> bool {
    c == '{' || c == '[' || c == '"' || c == '-' || is_digit(c) || c == 't' || c == 'f' || c == 'n'
}

/// The value that starts at `i`, after any whitespace, and the position after it.
pub open spec fn value_at(s: Seq<char>, i: int) -> Result<(Json, int), ParseError>
    decreases s.len() - i, 0nat,
{
    if i < 0 || i > s.len() {
        Err(ParseError::UnexpectedEndOfInput)
    } else {
        let j = skip_ws(s, i);
        proof {
            lemma_skip_ws(s, i);
        }
        if j >= s.len() {
            Err(ParseError::UnexpectedEndOfInput)
        } else {
            let c = s[j];
            if c == '{' {
                object_at(s, j + 1)
            } else if c == '[' {
                array_at(s, j + 1)
            } else if c == '"' {
                match string_body(s, j + 1) {
                    Ok((t, p)) => Ok((Json::Str(t), p)),
                    Err(e) => Err(e),
                }
            } else if c == '-' || is_digit(c) {
                number_at(s, j)
            } else if c == 't' {
                keyword(s, j, seq!['t', 'r', 'u', 'e'], Json::Boolean(true), ParseError::ExpectedBoolean)
            } else if c == 'f' {
                keyword(
                    s,
                    j,
                    seq!['f', 'a', 'l', 's', 'e'],
                    Json::Boolean(false),
                    ParseError::ExpectedBoolean,
                )
            } else if c == 'n' {
                keyword(s, j, seq!['n', 'u', 'l', 'l'], Json::Null, ParseError::ExpectedNull)
            } else {
                Err(ParseError::UnexpectedCharacter(c))
            }
        }
    }
}

/// An array from `i`, just after its `[`: the elements and the position after the `]`.
pub open spec fn array_at(s: Seq<char>, i: int) -> Result<(Json, int), ParseError>
    decreases s.len() - i, 2nat,
{
    if i < 0 || i > s.len() {
        Err(ParseError::UnexpectedEndOfInput)
    } else {
        let k = skip_ws(s, i);
        proof {
            lemma_skip_ws(s, i);
        }
        if k < s.len() && s[k] == ']' {
            Ok((Json::Array(Seq::empty()), k + 1))
        } else {
            match array_items(s, k) {
                Ok((items, p)) => Ok((Json::Array(items), p)),
                Err(e) => Err(e),
            }
        }
    }
}

/// The elements of an array from `i`, where an element is due, and the
/// position after the closing `]`.
pub open spec fn array_items(s: Seq<char>, i: int) -> Result<(Seq<Json>, int), ParseError>
    decreases s.len() - i, 1nat,
{
    match value_at(s, i) {
        Err(e) => Err(e),
        Ok((v, p)) => {
            // A value takes at least one character (`lemma_value_advances`),
            // so the first branch is never taken on a value that was read.
            if !(0 <= i < p <= s.len()) {
                Err(ParseError::ExpectedCommaOrBracket)
            } else {
                let k = skip_ws(s, p);
                proof {
                    lemma_skip_ws(s, p);
                }
                if k < s.len() && s[k] == ']' {
                    Ok((seq![v], k + 1))
                } else if k < s.len() && s[k] == ',' {
                    prefixed(seq![v], array_items(s, k + 1))
                } else {
                    Err(ParseError::ExpectedCommaOrBracket)
                }
            }
        }
    }
}

/// An object from `i`, just after its `{`: the members and the position after the `}`.
pub open spec fn object_at(s: Seq<char>, i: int) -> Result<(Json, int), ParseError>
    decreases s.len() - i, 2nat,
{
    if i < 0 || i > s.len() {
        Err(ParseError::UnexpectedEndOfInput)
    } else {
        let k = skip_ws(s, i);
        proof {
            lemma_skip_ws(s, i);
        }
        if k < s.len() && s[k] == '}' {
            Ok((Json::Object(Seq::empty()), k + 1))
        } else {
            match object_members(s, k) {
                Ok((members, p)) => Ok((Json::Object(members), p)),
                Err(e) => Err(e),
            }
        }
    }
}

/// The members of an object from `i`, where a key is due, and the position
/// after the closing `}`.
pub open spec fn object_members(s: Seq<char>, i: int) -> Result<
    (Seq<(Seq<char>, Json)>, int),
    ParseError,
>
    decreases s.len() - i, 1nat,
{
    if i < 0 || i > s.len() {
        Err(ParseError::InvalidKey)
    } else {
        let k = skip_ws(s, i);
        proof {
            lemma_skip_ws(s, i);
        }
        if k >= s.len() || s[k] != '"' {
            Err(ParseError::InvalidKey)
        } else {
            match string_body(s, k + 1) {
                Err(e) => Err(e),
                Ok((key, p)) => {
                    proof {
                        lemma_string_body_advances(s, k + 1);
                        lemma_skip_ws(s, p);
                    }
                    let c = skip_ws(s, p);
                    if c >= s.len() || s[c] != ':' {
                        Err(ParseError::ExpectedColon)
                    } else {
                        member_tail(s, key, c + 1)
                    }
                },
            }
        }
    }
}

/// The rest of an object from `j`, just after the `:` of a member whose key
/// is `key`: that member's value, then a `,` and more members, or the `}`.
pub open spec fn member_tail(s: Seq<char>, key: Seq<char>, j: int) -> Result<
    (Seq<(Seq<char>, Json)>, int),
    ParseError,
>
    decreases s.len() - j, 1nat,
{
    match value_at(s, j) {
        Err(e) => Err(e),
        Ok((v, q)) => {
            // Never taken on a value that was read (`lemma_value_advances`).
            if !(0 <= j < q <= s.len()) {
                Err(ParseError::ExpectedCommaOrBrace)
            } else {
                let d = skip_ws(s, q);
                proof {
                    lemma_skip_ws(s, q);
                }
                if d < s.len() && s[d] == '}' {
                    Ok((seq![(key, v)], d + 1))
                } else if d < s.len() && s[d] == ',' {
                    prefixed(seq![(key, v)], object_members(s, d + 1))
                } else {
                    Err(ParseError::ExpectedCommaOrBrace)
                }
            }
        },
    }
}

/// A value that was read ends after its start and within the input.
pub proof fn lemma_value_advances(s: Seq<char>, i: int)
    ensures
        value_at(s, i) matches Ok((_, p)) ==> i < p <= s.len(),
    decreases s.len() - i, 0nat,
{
    if 0 <= i <= s.len() {
        lemma_skip_ws(s, i);
        let j = skip_ws(s, i);
        if j < s.len() {
            let c = s[j];
            if c == '{' {
                lemma_object_advances(s, j + 1);
            } else if c == '[' {
                lemma_array_advances(s, j + 1);
            } else if c == '"' {
                lemma_string_body_advances(s, j + 1);
            } else if c == '-' || is_digit(c) {
                lemma_number_end(s, j);
            }
        }
    }
}

pub proof fn lemma_array_advances(s: Seq<char>, i: int)
    ensures
        array_at(s, i) matches Ok((_, p)) ==> i < p <= s.len(),
    decreases s.len() - i, 2nat,
{
    if 0 <= i <= s.len() {
        lemma_skip_ws(s, i);
        lemma_items_advance(s, skip_ws(s, i));
    }
}

pub proof fn lemma_items_advance(s: Seq<char>, i: int)
    ensures
        array_items(s, i) matches Ok((_, p)) ==> i < p <= s.len(),
    decreases s.len() - i, 1nat,
{
    lemma_value_advances(s, i);
    if let Ok((_, p)) = value_at(s, i) {
        if 0 <= i < p <= s.len() {
            lemma_skip_ws(s, p);
            let k = skip_ws(s, p);
            if k < s.len() && s[k] == ',' {
                lemma_items_advance(s, k + 1);
            }
        }
    }
}

pub proof fn lemma_object_advances(s: Seq<char>, i: int)
    ensures
        object_at(s, i) matches Ok((_, p)) ==> i < p <= s.len(),
    decreases s.len() - i, 2nat,
{
    if 0 <= i <= s.len() {
        lemma_skip_ws(s, i);
        lemma_members_advance(s, skip_ws(s, i));
    }
}

pub proof fn lemma_members_advance(s: Seq<char>, i: int)
    ensures
        object_members(s, i) matches Ok((_, p)) ==> i < p <= s.len(),
    decreases s.len() - i, 1nat,
{
    if 0 <= i <= s.len() {
        lemma_skip_ws(s, i);
        let k = skip_ws(s, i);
        if k < s.len() && s[k] == '"' {
            lemma_string_body_advances(s, k + 1);
            if let Ok((key, p)) = string_body(s, k + 1) {
                lemma_skip_ws(s, p);
                let c = skip_ws(s, p);
                if c < s.len() && s[c] == ':' {
                    lemma_tail_advances(s, key, c + 1);
                }
            }
        }
    }
}

pub proof fn lemma_tail_advances(s: Seq<char>, key: Seq<char>, j: int)
    ensures
        member_tail(s, key, j) matches Ok((_, p)) ==> j < p <= s.len(),
    decreases s.len() - j, 1nat,
{
    lemma_value_advances(s, j);
    if let Ok((_, q)) = value_at(s, j) {
        if 0 <= j < q <= s.len() {
            lemma_skip_ws(s, q);
            let d = skip_ws(s, q);
            if d < s.len() && s[d] == ',' {
                lemma_members_advance(s, d + 1);
            }
        }
    }
}

/// What a whole document parses to: one value, then nothing but whitespace.
pub open spec fn parse_spec(s: Seq<char>) -> Result<Json, ParseError> {
    match value_at(s, 0) {
        Err(e) => Err(e),
        Ok((v, p)) => if skip_ws(s, p) < s.len() {
            Err(ParseError::TrailingCharacters)
        } else {
            Ok(v)
        },
    }
}

} // verus!
