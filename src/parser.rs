//! The recursive-descent parser: a cursor over the input's characters and one
//! sub-parser for each kind of value.
use vstd::prelude::*;
use crate::lexical::{is_whitespace, is_ascii_digit, is_number_character, hex_digit_value};
use crate::grammar::{
    skip_ws, lemma_skip_ws, number_end, matches_at, string_body, prefixed, lemma_prefixed_twice,
    lemma_string_body_advances, hex4_value, is_scalar_code, escape_char, keyword, number_at,
    lemma_number_end, starts_value, value_at, array_at, array_items, object_at, object_members, parse_spec,
};
use crate::number::float_literal_ok;
use crate::value::{
    Json, JsonValue, ParseError, item_views, member_views, result_view, lemma_array_view,
    lemma_object_view,
};

verus! {

/// Relies on `String::push`: the character is appended at the end.
pub assume_specification[ std::string::String::push ](s: &mut std::string::String, ch: char)
    ensures
        final(s)@ == old(s)@.push(ch),
;

/// Relies on `char::from_u32`: `Some` exactly for the codes of Unicode scalar
/// values, holding the character of that code.
pub assume_specification[ char::from_u32 ](i: u32) -> (r: Option<char>)
    ensures
        r == (if is_scalar_code(i as nat) {
            Some(i as char)
        } else {
            None::<char>
        }),
;

/// `r` is what `want` says: the same text with the cursor at the position
/// given, or the same error.
pub open spec fn string_outcome(
    r: Result<String, ParseError>,
    pos: int,
    want: Result<(Seq<char>, int), ParseError>,
) -> bool {
    match want {
        Ok((t, p)) => r matches Ok(x) && x@ == t && pos == p,
        Err(e) => r == Err::<String, ParseError>(e),
    }
}

/// `r` is what `want` says: a value of that model with the cursor at the
/// position given, or the same error.
pub open spec fn value_outcome(
    r: Result<JsonValue, ParseError>,
    pos: int,
    want: Result<(Json, int), ParseError>,
) -> bool {
    match want {
        Ok((v, p)) => r matches Ok(x) && x.view() == v && pos == p,
        Err(e) => r matches Err(f) && f == e,
    }
}

/// The character that the escape letter `e` stands for.
fn escape_value(e: char) -> (r: Option<char>)
    ensures
        r == escape_char(e),
{
    if e == '"' {
        Some('"')
    } else if e == '\\' {
        Some('\\')
    } else if e == '/' {
        Some('/')
    } else if e == 'b' {
        Some('\u{8}')
    } else if e == 'f' {
        Some('\u{c}')
    } else if e == 'n' {
        Some('\n')
    } else if e == 'r' {
        Some('\r')
    } else if e == 't' {
        Some('\t')
    } else {
        None
    }
}

/// A cursor over the characters of one document.
struct Parser {
    chars: Vec<char>,
    pos: usize,
}

/// A `String` holding `t[lo..hi]`.
fn text_of(t: &Vec<char>, lo: usize, hi: usize) -> (r: String)
    requires
        lo <= hi <= t@.len(),
    ensures
        r@ == t@.subrange(lo as int, hi as int),
{
    let mut r = String::new();
    let mut i: usize = lo;
    while i < hi
        invariant
            lo <= i <= hi <= t@.len(),
            r@ == t@.subrange(lo as int, i as int),
        decreases hi - i,
    {
        r.push(t[i]);
        assert(r@ =~= t@.subrange(lo as int, i + 1));
        i = i + 1;
    }
    r
}

impl Parser {
    fn new(input: &str) -> (p: Parser)
        ensures
            p.chars@ == input@,
            p.pos == 0,
    {
        let mut chars: Vec<char> = Vec::new();
        for c in it: input.chars()
            invariant
                chars@ == it.seq().take(it.index() as int),
        {
            chars.push(c);
        }
        assert(chars@ =~= input@);
        Parser { chars, pos: 0 }
    }

    fn peek(&self) -> (r: Option<char>)
        ensures
            r == (if self.pos < self.chars@.len() {
                Some(self.chars@[self.pos as int])
            } else {
                None::<char>
            }),
    {
        if self.pos < self.chars.len() {
            Some(self.chars[self.pos])
        } else {
            None
        }
    }

    fn skip_whitespace(&mut self)
        requires
            old(self).pos <= old(self).chars@.len(),
        ensures
            final(self).chars == old(self).chars,
            final(self).pos == skip_ws(old(self).chars@, old(self).pos as int),
    {
        proof {
            lemma_skip_ws(self.chars@, self.pos as int);
        }
        while self.pos < self.chars.len() && is_whitespace(self.chars[self.pos])
            invariant
                self.chars == old(self).chars,
                old(self).pos <= self.pos <= self.chars@.len(),
                skip_ws(self.chars@, self.pos as int) == skip_ws(
                    old(self).chars@,
                    old(self).pos as int,
                ),
            decreases self.chars@.len() - self.pos,
        {
            self.pos = self.pos + 1;
        }
    }

    /// Advances past `expected` where it stands at the cursor; otherwise
    /// leaves the cursor where it was.
    fn consume_if_match(&mut self, expected: &str) -> (r: bool)
        requires
            old(self).pos <= old(self).chars@.len(),
        ensures
            final(self).chars == old(self).chars,
            r == matches_at(old(self).chars@, old(self).pos as int, expected@),
            final(self).pos == (if r {
                old(self).pos + expected@.len()
            } else {
                old(self).pos as int
            }),
    {
        let n = expected.unicode_len();
        if n > self.chars.len() - self.pos {
            return false;
        }
        let mut k: usize = 0;
        while k < n
            invariant
                self.chars == old(self).chars,
                self.pos == old(self).pos,
                self.pos + n <= self.chars.len(),
                k <= n == expected@.len(),
                forall|j: int| 0 <= j < k ==> self.chars@[self.pos + j] == expected@[j],
            decreases n - k,
        {
            if self.chars[self.pos + k] != expected.get_char(k) {
                proof {
                    let sub = self.chars@.subrange(self.pos as int, self.pos + n);
                    assert(sub[k as int] != expected@[k as int]);
                }
                return false;
            }
            k = k + 1;
        }
        assert(self.chars@.subrange(self.pos as int, self.pos + n) =~= expected@);
        self.pos = self.pos + n;
        true
    }

    /// Reads a string literal whose opening quote is at the cursor.
    fn parse_string(&mut self) -> (r: Result<String, ParseError>)
        requires
            old(self).pos < old(self).chars@.len(),
            old(self).chars@[old(self).pos as int] == '"',
        ensures
            final(self).chars == old(self).chars,
            final(self).pos <= final(self).chars@.len(),
            string_outcome(
                r,
                final(self).pos as int,
                string_body(old(self).chars@, old(self).pos + 1),
            ),
            r is Ok ==> old(self).pos < final(self).pos,
            r == Err::<String, ParseError>(ParseError::UnterminatedString) ==> final(self).pos
                == final(self).chars@.len(),
    {
        let n = self.chars.len();
        self.pos = self.pos + 1;
        let ghost s = self.chars@;
        let ghost start = self.pos as int;
        let mut out = String::new();
        assert(out@ + Seq::<char>::empty() =~= Seq::<char>::empty());
        loop
            invariant
                self.chars == old(self).chars,
                s == self.chars@,
                start == old(self).pos + 1,
                n == s.len(),
                start <= self.pos <= self.chars@.len(),
                string_body(s, start) == prefixed(out@, string_body(s, self.pos as int)),
            decreases self.chars@.len() - self.pos,
        {
            let i = self.pos;
            let ghost before = out@;
            if i >= self.chars.len() {
                return Err(ParseError::UnterminatedString);
            }
            let c = self.chars[i];
            if c == '"' {
                self.pos = i + 1;
                assert(out@ + Seq::<char>::empty() =~= out@);
                return Ok(out);
            }
            if c != '\\' {
                out.push(c);
                self.pos = i + 1;
                proof {
                    lemma_prefixed_twice(before, seq![c], string_body(s, i + 1));
                    assert(before + seq![c] =~= out@);
                }
            } else {
                if i + 1 >= self.chars.len() {
                    self.pos = n;
                    return Err(ParseError::UnterminatedString);
                }
                let e = self.chars[i + 1];
                if e == 'u' {
                    if self.chars.len() - i < 6 {
                        return Err(ParseError::InvalidUnicodeEscape);
                    }
                    let d0 = hex_digit_value(self.chars[i + 2]);
                    let d1 = hex_digit_value(self.chars[i + 3]);
                    let d2 = hex_digit_value(self.chars[i + 4]);
                    let d3 = hex_digit_value(self.chars[i + 5]);
                    if d0.is_none() || d1.is_none() || d2.is_none() || d3.is_none() {
                        return Err(ParseError::InvalidUnicodeEscape);
                    }
                    let code: u32 = d0.unwrap() * 4096 + d1.unwrap() * 256 + d2.unwrap() * 16
                        + d3.unwrap();
                    assert(code as nat == hex4_value(s, i + 2));
                    match char::from_u32(code) {
                        None => {
                            return Err(ParseError::InvalidUnicodeEscape);
                        },
                        Some(ch) => {
                            out.push(ch);
                            self.pos = i + 6;
                            proof {
                                lemma_prefixed_twice(before, seq![ch], string_body(s, i + 6));
                                assert(before + seq![ch] =~= out@);
                            }
                        },
                    }
                } else {
                    match escape_value(e) {
                        None => {
                            return Err(ParseError::InvalidEscapeCharacter);
                        },
                        Some(ch) => {
                            out.push(ch);
                            self.pos = i + 2;
                            proof {
                                lemma_prefixed_twice(before, seq![ch], string_body(s, i + 2));
                                assert(before + seq![ch] =~= out@);
                            }
                        },
                    }
                }
            }
        }
    }

    /// Reads the numeric literal that starts at the cursor.
    fn parse_number(&mut self) -> (r: Result<JsonValue, ParseError>)
        requires
            old(self).pos <= old(self).chars@.len(),
        ensures
            final(self).chars == old(self).chars,
            final(self).pos <= final(self).chars@.len(),
            value_outcome(r, final(self).pos as int, number_at(old(self).chars@, old(self).pos as int)),
    {
        // A leading `-` is itself a number character, so the run takes it.
        let start = self.pos;
        proof {
            lemma_number_end(self.chars@, start as int);
        }
        while self.pos < self.chars.len() && is_number_character(self.chars[self.pos])
            invariant
                self.chars == old(self).chars,
                start <= self.pos <= self.chars@.len(),
                number_end(self.chars@, start as int) == number_end(self.chars@, self.pos as int),
            decreases self.chars@.len() - self.pos,
        {
            self.pos = self.pos + 1;
        }
        if float_literal_ok(&self.chars, start, self.pos) {
            Ok(JsonValue::Number(text_of(&self.chars, start, self.pos)))
        } else {
            Err(ParseError::InvalidNumber)
        }
    }

    /// Reads `true` or `false`, whichever the letter at the cursor begins.
    fn parse_boolean(&mut self) -> (r: Result<JsonValue, ParseError>)
        requires
            old(self).pos < old(self).chars@.len(),
            old(self).chars@[old(self).pos as int] == 't' || old(self).chars@[old(self).pos as int] == 'f',
        ensures
            final(self).chars == old(self).chars,
            final(self).pos <= final(self).chars@.len(),
            value_outcome(
                r,
                final(self).pos as int,
                if old(self).chars@[old(self).pos as int] == 't' {
                    keyword(
                        old(self).chars@,
                        old(self).pos as int,
                        seq!['t', 'r', 'u', 'e'],
                        Json::Boolean(true),
                        ParseError::ExpectedBoolean,
                    )
                } else {
                    keyword(
                        old(self).chars@,
                        old(self).pos as int,
                        seq!['f', 'a', 'l', 's', 'e'],
                        Json::Boolean(false),
                        ParseError::ExpectedBoolean,
                    )
                },
            ),
            r is Err ==> final(self).pos == old(self).pos,
    {
        proof {
            reveal_strlit("true");
            reveal_strlit("false");
        }
        assert("true"@ =~= seq!['t', 'r', 'u', 'e']);
        assert("false"@ =~= seq!['f', 'a', 'l', 's', 'e']);
        if self.chars[self.pos] == 't' {
            if self.consume_if_match("true") {
                Ok(JsonValue::Boolean(true))
            } else {
                Err(ParseError::ExpectedBoolean)
            }
        } else {
            if self.consume_if_match("false") {
                Ok(JsonValue::Boolean(false))
            } else {
                Err(ParseError::ExpectedBoolean)
            }
        }
    }

    /// Reads `null`.
    fn parse_null(&mut self) -> (r: Result<JsonValue, ParseError>)
        requires
            old(self).pos <= old(self).chars@.len(),
        ensures
            final(self).chars == old(self).chars,
            final(self).pos <= final(self).chars@.len(),
            value_outcome(
                r,
                final(self).pos as int,
                keyword(
                    old(self).chars@,
                    old(self).pos as int,
                    seq!['n', 'u', 'l', 'l'],
                    Json::Null,
                    ParseError::ExpectedNull,
                ),
            ),
            r is Err ==> final(self).pos == old(self).pos,
    {
        proof {
            reveal_strlit("null");
        }
        assert("null"@ =~= seq!['n', 'u', 'l', 'l']);
        if self.consume_if_match("null") {
            Ok(JsonValue::Null)
        } else {
            Err(ParseError::ExpectedNull)
        }
    }

    /// Reads the value that starts at the cursor, after any whitespace.
    fn parse_value(&mut self) -> (r: Result<JsonValue, ParseError>)
        requires
            old(self).pos <= old(self).chars@.len(),
        ensures
            final(self).chars == old(self).chars,
            final(self).pos <= final(self).chars@.len(),
            value_outcome(r, final(self).pos as int, value_at(old(self).chars@, old(self).pos as int)),
            r is Ok ==> old(self).pos < final(self).pos,
            ({
                let j = skip_ws(old(self).chars@, old(self).pos as int);
                j >= old(self).chars@.len() || !starts_value(old(self).chars@[j]) ==> final(self).pos
                    == j
            }),
        decreases old(self).chars@.len() - old(self).pos, 1nat,
    {
        proof {
            lemma_skip_ws(self.chars@, self.pos as int);
        }
        self.skip_whitespace();
        match self.peek() {
            None => Err(ParseError::UnexpectedEndOfInput),
            Some(c) => {
                if c == '{' {
                    self.parse_object()
                } else if c == '[' {
                    self.parse_array()
                } else if c == '"' {
                    proof {
                        lemma_string_body_advances(self.chars@, self.pos + 1);
                    }
                    match self.parse_string() {
                        Ok(t) => Ok(JsonValue::String(t)),
                        Err(e) => Err(e),
                    }
                } else if c == '-' || is_ascii_digit(c) {
                    proof {
                        lemma_number_end(self.chars@, self.pos as int);
                    }
                    self.parse_number()
                } else if c == 't' || c == 'f' {
                    self.parse_boolean()
                } else if c == 'n' {
                    self.parse_null()
                } else {
                    Err(ParseError::UnexpectedCharacter(c))
                }
            },
        }
    }

    /// Reads an array whose `[` is at the cursor.
    fn parse_array(&mut self) -> (r: Result<JsonValue, ParseError>)
        requires
            old(self).pos < old(self).chars@.len(),
            old(self).chars@[old(self).pos as int] == '[',
        ensures
            final(self).chars == old(self).chars,
            final(self).pos <= final(self).chars@.len(),
            value_outcome(r, final(self).pos as int, array_at(old(self).chars@, old(self).pos + 1)),
            r is Ok ==> old(self).pos < final(self).pos,
        decreases old(self).chars@.len() - old(self).pos, 0nat,
    {
        let n = self.chars.len();
        let ghost s = self.chars@;
        self.pos = self.pos + 1;
        proof {
            lemma_skip_ws(s, self.pos as int);
        }
        self.skip_whitespace();
        if self.pos < n && self.chars[self.pos] == ']' {
            self.pos = self.pos + 1;
            let items: Vec<JsonValue> = Vec::new();
            proof {
                lemma_array_view(items);
                assert(item_views(items@) =~= Seq::<Json>::empty());
            }
            return Ok(JsonValue::Array(items));
        }
        let ghost k0 = self.pos as int;
        let mut items: Vec<JsonValue> = Vec::new();
        assert(item_views(items@) + Seq::<Json>::empty() =~= Seq::<Json>::empty());
        assert(prefixed(item_views(items@), array_items(s, k0)) == array_items(s, k0)) by {
            if let Ok((t, p)) = array_items(s, k0) {
                assert(item_views(items@) + t =~= t);
            }
        }
        loop
            invariant
                self.chars == old(self).chars,
                s == self.chars@,
                n == s.len(),
                old(self).pos < k0 <= self.pos <= n,
                k0 == skip_ws(s, old(self).pos + 1),
                !(k0 < n && s[k0] == ']'),
                array_items(s, k0) == prefixed(item_views(items@), array_items(s, self.pos as int)),
            decreases n - self.pos,
        {
            let ghost i = self.pos as int;
            let ghost before = items@;
            let v = match self.parse_value() {
                Ok(v) => v,
                Err(e) => {
                    return Err(e);
                },
            };
            let ghost vv = v.view();
            let ghost p = self.pos as int;
            items.push(v);
            assert(item_views(items@) =~= item_views(before) + seq![vv]);
            proof {
                lemma_skip_ws(s, self.pos as int);
            }
            self.skip_whitespace();
            if self.pos < n && self.chars[self.pos] == ']' {
                self.pos = self.pos + 1;
                proof {
                    lemma_array_view(items);
                }
                return Ok(JsonValue::Array(items));
            } else if self.pos < n && self.chars[self.pos] == ',' {
                self.pos = self.pos + 1;
                proof {
                    lemma_prefixed_twice(item_views(before), seq![vv], array_items(s, self.pos as int));
                }
            } else {
                return Err(ParseError::ExpectedCommaOrBracket);
            }
        }
    }

    /// Reads an object whose `{` is at the cursor.
    fn parse_object(&mut self) -> (r: Result<JsonValue, ParseError>)
        requires
            old(self).pos < old(self).chars@.len(),
            old(self).chars@[old(self).pos as int] == '{',
        ensures
            final(self).chars == old(self).chars,
            final(self).pos <= final(self).chars@.len(),
            value_outcome(r, final(self).pos as int, object_at(old(self).chars@, old(self).pos + 1)),
            r is Ok ==> old(self).pos < final(self).pos,
        decreases old(self).chars@.len() - old(self).pos, 0nat,
    {
        let n = self.chars.len();
        let ghost s = self.chars@;
        self.pos = self.pos + 1;
        proof {
            lemma_skip_ws(s, self.pos as int);
        }
        self.skip_whitespace();
        if self.pos < n && self.chars[self.pos] == '}' {
            self.pos = self.pos + 1;
            let members: Vec<(String, JsonValue)> = Vec::new();
            proof {
                lemma_object_view(members);
                assert(member_views(members@) =~= Seq::<(Seq<char>, Json)>::empty());
            }
            return Ok(JsonValue::Object(members));
        }
        let ghost k0 = self.pos as int;
        let mut members: Vec<(String, JsonValue)> = Vec::new();
        assert(prefixed(member_views(members@), object_members(s, k0)) == object_members(s, k0))
            by {
            if let Ok((t, p)) = object_members(s, k0) {
                assert(member_views(members@) + t =~= t);
            }
        }
        loop
            invariant
                self.chars == old(self).chars,
                s == self.chars@,
                n == s.len(),
                old(self).pos < k0 <= self.pos <= n,
                k0 == skip_ws(s, old(self).pos + 1),
                !(k0 < n && s[k0] == '}'),
                object_members(s, k0) == prefixed(
                    member_views(members@),
                    object_members(s, self.pos as int),
                ),
            decreases n - self.pos,
        {
            let ghost i = self.pos as int;
            let ghost before = members@;
            proof {
                lemma_skip_ws(s, self.pos as int);
            }
            self.skip_whitespace();
            if !(self.pos < n && self.chars[self.pos] == '"') {
                return Err(ParseError::InvalidKey);
            }
            let key = match self.parse_string() {
                Ok(t) => t,
                Err(e) => {
                    return Err(e);
                },
            };
            proof {
                lemma_skip_ws(s, self.pos as int);
            }
            self.skip_whitespace();
            if !(self.pos < n && self.chars[self.pos] == ':') {
                return Err(ParseError::ExpectedColon);
            }
            self.pos = self.pos + 1;
            let v = match self.parse_value() {
                Ok(v) => v,
                Err(e) => {
                    return Err(e);
                },
            };
            let ghost mv = (key@, v.view());
            members.push((key, v));
            assert(member_views(members@) =~= member_views(before) + seq![mv]);
            proof {
                lemma_skip_ws(s, self.pos as int);
            }
            self.skip_whitespace();
            if self.pos < n && self.chars[self.pos] == '}' {
                self.pos = self.pos + 1;
                proof {
                    lemma_object_view(members);
                }
                return Ok(JsonValue::Object(members));
            } else if self.pos < n && self.chars[self.pos] == ',' {
                self.pos = self.pos + 1;
                proof {
                    lemma_prefixed_twice(
                        member_views(before),
                        seq![mv],
                        object_members(s, self.pos as int),
                    );
                }
            } else {
                return Err(ParseError::ExpectedCommaOrBrace);
            }
        }
    }
}

/// Parses one whole document: a single value, with nothing but whitespace
/// around it.
pub fn parse_json(input: &str) -> (r: Result<JsonValue, ParseError>)
    ensures
        result_view(r) == parse_spec(input@),
{
    let mut parser = Parser::new(input);
    let value = match parser.parse_value() {
        Ok(v) => v,
        Err(e) => {
            return Err(e);
        },
    };
    parser.skip_whitespace();
    if parser.pos < parser.chars.len() {
        Err(ParseError::TrailingCharacters)
    } else {
        Ok(value)
    }
}

} // verus!
