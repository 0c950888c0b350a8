//! Reading a text after a prefix is reading the text alone, with every
//! position moved by the prefix's length.
use vstd::prelude::*;
use crate::grammar::{
    skip_ws, number_end, number_at, string_body, prefixed, hex4_at, hex4_value, matches_at,
    value_at, array_at, array_items, object_at, object_members, member_tail, lemma_skip_ws,
    lemma_number_end, lemma_string_body_advances,
};
use crate::value::ParseError;

verus! {

/// `r` with its position moved by `d`.
pub open spec fn shifted<A>(r: Result<(A, int), ParseError>, d: int) -> Result<(A, int), ParseError> {
    match r {
        Ok((v, p)) => Ok((v, p + d)),
        Err(e) => Err(e),
    }
}

proof fn lemma_shift_skip_ws(w: Seq<char>, s: Seq<char>, i: int)
    requires
        0 <= i <= s.len(),
    ensures
        skip_ws(w + s, i + w.len()) == skip_ws(s, i) + w.len(),
    decreases s.len() - i,
{
    if i < s.len() {
        assert((w + s)[i + w.len()] == s[i]);
        lemma_shift_skip_ws(w, s, i + 1);
    }
}

proof fn lemma_shift_number_end(w: Seq<char>, s: Seq<char>, i: int)
    requires
        0 <= i <= s.len(),
    ensures
        number_end(w + s, i + w.len()) == number_end(s, i) + w.len(),
    decreases s.len() - i,
{
    if i < s.len() {
        assert((w + s)[i + w.len()] == s[i]);
        lemma_shift_number_end(w, s, i + 1);
    }
}

proof fn lemma_shift_string_body(w: Seq<char>, s: Seq<char>, i: int)
    requires
        0 <= i <= s.len(),
    ensures
        string_body(w + s, i + w.len()) == shifted(string_body(s, i), w.len() as int),
    decreases s.len() - i,
{
    let t = w + s;
    let d = w.len() as int;
    if i < s.len() {
        assert(t[i + d] == s[i]);
        if s[i] != '"' {
            if s[i] != '\\' {
                lemma_shift_string_body(w, s, i + 1);
            } else if i + 1 < s.len() {
                assert(t[i + 1 + d] == s[i + 1]);
                if s[i + 1] == 'u' {
                    if i + 6 <= s.len() {
                        assert(t[i + 2 + d] == s[i + 2]);
                        assert(t[i + 3 + d] == s[i + 3]);
                        assert(t[i + 4 + d] == s[i + 4]);
                        assert(t[i + 5 + d] == s[i + 5]);
                        assert(hex4_at(t, i + 2 + d) == hex4_at(s, i + 2));
                        if hex4_at(s, i + 2) {
                            assert(hex4_value(t, i + 2 + d) == hex4_value(s, i + 2));
                            lemma_shift_string_body(w, s, i + 6);
                        }
                    }
                } else {
                    lemma_shift_string_body(w, s, i + 2);
                }
            }
        }
    }
}

proof fn lemma_shift_matches(w: Seq<char>, s: Seq<char>, j: int, k: Seq<char>)
    requires
        0 <= j <= s.len(),
    ensures
        matches_at(w + s, j + w.len(), k) == matches_at(s, j, k),
{
    if j + k.len() <= s.len() {
        assert((w + s).subrange(j + w.len(), j + w.len() + k.len()) =~= s.subrange(j, j + k.len()));
    }
}

proof fn lemma_shift_number(w: Seq<char>, s: Seq<char>, j: int)
    requires
        0 <= j <= s.len(),
    ensures
        number_at(w + s, j + w.len()) == shifted(number_at(s, j), w.len() as int),
{
    lemma_shift_number_end(w, s, j);
    lemma_number_end(s, j);
    let p = number_end(s, j);
    assert((w + s).subrange(j + w.len(), p + w.len()) =~= s.subrange(j, p));
}

proof fn lemma_shift_value(w: Seq<char>, s: Seq<char>, i: int)
    requires
        0 <= i <= s.len(),
    ensures
        value_at(w + s, i + w.len()) == shifted(value_at(s, i), w.len() as int),
    decreases s.len() - i, 0nat,
{
    let t = w + s;
    let d = w.len() as int;
    lemma_shift_skip_ws(w, s, i);
    lemma_skip_ws(s, i);
    let j = skip_ws(s, i);
    if j < s.len() {
        assert(t[j + d] == s[j]);
        let c = s[j];
        if c == '{' {
            lemma_shift_object(w, s, j + 1);
        } else if c == '[' {
            lemma_shift_array(w, s, j + 1);
        } else if c == '"' {
            lemma_shift_string_body(w, s, j + 1);
        } else if c == '-' || crate::lexical::is_digit(c) {
            lemma_shift_number(w, s, j);
        } else {
            lemma_shift_matches(w, s, j, seq!['t', 'r', 'u', 'e']);
            lemma_shift_matches(w, s, j, seq!['f', 'a', 'l', 's', 'e']);
            lemma_shift_matches(w, s, j, seq!['n', 'u', 'l', 'l']);
        }
    }
}

proof fn lemma_shift_array(w: Seq<char>, s: Seq<char>, i: int)
    requires
        0 <= i <= s.len(),
    ensures
        array_at(w + s, i + w.len()) == shifted(array_at(s, i), w.len() as int),
    decreases s.len() - i, 2nat,
{
    let d = w.len() as int;
    lemma_shift_skip_ws(w, s, i);
    lemma_skip_ws(s, i);
    let k = skip_ws(s, i);
    if k < s.len() {
        assert((w + s)[k + d] == s[k]);
    }
    lemma_shift_items(w, s, k);
}

proof fn lemma_shift_items(w: Seq<char>, s: Seq<char>, i: int)
    requires
        0 <= i <= s.len(),
    ensures
        array_items(w + s, i + w.len()) == shifted(array_items(s, i), w.len() as int),
    decreases s.len() - i, 1nat,
{
    let d = w.len() as int;
    lemma_shift_value(w, s, i);
    if let Ok((v, p)) = value_at(s, i) {
        if 0 <= i < p <= s.len() {
            lemma_shift_skip_ws(w, s, p);
            lemma_skip_ws(s, p);
            let k = skip_ws(s, p);
            if k < s.len() {
                assert((w + s)[k + d] == s[k]);
                if s[k] == ',' {
                    lemma_shift_items(w, s, k + 1);
                    lemma_shifted_prefixed(seq![v], array_items(s, k + 1), d);
                }
            }
        }
    }
}

proof fn lemma_shift_object(w: Seq<char>, s: Seq<char>, i: int)
    requires
        0 <= i <= s.len(),
    ensures
        object_at(w + s, i + w.len()) == shifted(object_at(s, i), w.len() as int),
    decreases s.len() - i, 2nat,
{
    let d = w.len() as int;
    lemma_shift_skip_ws(w, s, i);
    lemma_skip_ws(s, i);
    let k = skip_ws(s, i);
    if k < s.len() {
        assert((w + s)[k + d] == s[k]);
    }
    lemma_shift_members(w, s, k);
}

proof fn lemma_shift_members(w: Seq<char>, s: Seq<char>, i: int)
    requires
        0 <= i <= s.len(),
    ensures
        object_members(w + s, i + w.len()) == shifted(object_members(s, i), w.len() as int),
    decreases s.len() - i, 1nat,
{
    let t = w + s;
    let d = w.len() as int;
    lemma_shift_skip_ws(w, s, i);
    lemma_skip_ws(s, i);
    let k = skip_ws(s, i);
    if k < s.len() {
        assert(t[k + d] == s[k]);
        if s[k] == '"' {
            lemma_shift_string_body(w, s, k + 1);
            lemma_string_body_advances(s, k + 1);
            if let Ok((key, p)) = string_body(s, k + 1) {
                lemma_shift_skip_ws(w, s, p);
                lemma_skip_ws(s, p);
                let c = skip_ws(s, p);
                if c < s.len() {
                    assert(t[c + d] == s[c]);
                    if s[c] == ':' {
                        lemma_shift_tail(w, s, key, c + 1);
                    }
                }
            }
        }
    }
}

proof fn lemma_shift_tail(w: Seq<char>, s: Seq<char>, key: Seq<char>, j: int)
    requires
        0 <= j <= s.len(),
    ensures
        member_tail(w + s, key, j + w.len()) == shifted(member_tail(s, key, j), w.len() as int),
    decreases s.len() - j, 1nat,
{
    let d = w.len() as int;
    lemma_shift_value(w, s, j);
    if let Ok((v, q)) = value_at(s, j) {
        if 0 <= j < q <= s.len() {
            lemma_shift_skip_ws(w, s, q);
            lemma_skip_ws(s, q);
            let e = skip_ws(s, q);
            if e < s.len() {
                assert((w + s)[e + d] == s[e]);
                if s[e] == ',' {
                    lemma_shift_members(w, s, e + 1);
                    lemma_shifted_prefixed(seq![(key, v)], object_members(s, e + 1), d);
                }
            }
        }
    }
}

proof fn lemma_shifted_prefixed<A>(pre: Seq<A>, r: Result<(Seq<A>, int), ParseError>, d: int)
    ensures
        prefixed(pre, shifted(r, d)) == shifted(prefixed(pre, r), d),
{
}

/// Reading after a prefix: the value that starts at `i` in `s` starts at
/// `i + w.len()` in `w + s`, and is the same value.
pub proof fn lemma_value_after_prefix(w: Seq<char>, s: Seq<char>, i: int)
    requires
        0 <= i <= s.len(),
    ensures
        value_at(w + s, i + w.len()) == shifted(value_at(s, i), w.len() as int),
{
    lemma_shift_value(w, s, i);
}

/// Skipping whitespace after a prefix ends where it ends in the text alone,
/// moved by the prefix's length.
pub proof fn lemma_skip_after_prefix(w: Seq<char>, s: Seq<char>, i: int)
    requires
        0 <= i <= s.len(),
    ensures
        skip_ws(w + s, i + w.len()) == skip_ws(s, i) + w.len(),
{
    lemma_shift_skip_ws(w, s, i);
}

} // verus!
