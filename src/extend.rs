//! A value that was read from a text is read the same from the text with
//! whitespace after it: reading never looks past the end of what it took.
use vstd::prelude::*;
use crate::grammar::{
    skip_ws, number_end, string_body, matches_at, value_at, array_at, array_items, object_at,
    object_members, member_tail, lemma_skip_ws, lemma_number_end, lemma_string_body_advances,
};
use crate::lexical::{is_ws, is_number_char};

verus! {

pub open spec fn all_ws(w: Seq<char>) -> bool {
    forall|k: int| 0 <= k < w.len() ==> is_ws(#[trigger] w[k])
}

proof fn lemma_ws_not_number(c: char)
    requires
        is_ws(c),
    ensures
        !is_number_char(c),
{
}

proof fn lemma_extend_skip_ws(s: Seq<char>, w: Seq<char>, i: int)
    requires
        0 <= i <= s.len(),
        skip_ws(s, i) < s.len(),
    ensures
        skip_ws(s + w, i) == skip_ws(s, i),
    decreases s.len() - i,
{
    assert((s + w)[i] == s[i]);
    if is_ws(s[i]) {
        lemma_extend_skip_ws(s, w, i + 1);
    }
}

proof fn lemma_extend_number_end(s: Seq<char>, w: Seq<char>, i: int)
    requires
        0 <= i <= s.len(),
        all_ws(w),
    ensures
        number_end(s + w, i) == number_end(s, i),
    decreases s.len() - i,
{
    if i < s.len() {
        assert((s + w)[i] == s[i]);
        lemma_extend_number_end(s, w, i + 1);
    } else if w.len() > 0 {
        assert((s + w)[i] == w[0]);
        lemma_ws_not_number(w[0]);
    }
}

proof fn lemma_extend_string_body(s: Seq<char>, w: Seq<char>, i: int)
    requires
        0 <= i <= s.len(),
        string_body(s, i) is Ok,
    ensures
        string_body(s + w, i) == string_body(s, i),
    decreases s.len() - i,
{
    let t = s + w;
    assert(t[i] == s[i]);
    if s[i] != '"' {
        if s[i] != '\\' {
            lemma_extend_string_body(s, w, i + 1);
        } else {
            assert(t[i + 1] == s[i + 1]);
            if s[i + 1] == 'u' {
                assert(t[i + 2] == s[i + 2] && t[i + 3] == s[i + 3] && t[i + 4] == s[i + 4] && t[i
                    + 5] == s[i + 5]);
                lemma_extend_string_body(s, w, i + 6);
            } else {
                lemma_extend_string_body(s, w, i + 2);
            }
        }
    }
}

proof fn lemma_extend_matches(s: Seq<char>, w: Seq<char>, j: int, k: Seq<char>)
    requires
        matches_at(s, j, k),
    ensures
        matches_at(s + w, j, k),
{
    assert((s + w).subrange(j, j + k.len()) =~= s.subrange(j, j + k.len()));
}

proof fn lemma_extend_value(s: Seq<char>, w: Seq<char>, i: int)
    requires
        all_ws(w),
        value_at(s, i) is Ok,
    ensures
        value_at(s + w, i) == value_at(s, i),
    decreases s.len() - i, 0nat,
{
    let t = s + w;
    lemma_skip_ws(s, i);
    let j = skip_ws(s, i);
    lemma_extend_skip_ws(s, w, i);
    assert(t[j] == s[j]);
    let c = s[j];
    if c == '{' {
        lemma_extend_object(s, w, j + 1);
    } else if c == '[' {
        lemma_extend_array(s, w, j + 1);
    } else if c == '"' {
        lemma_extend_string_body(s, w, j + 1);
    } else if c == '-' || crate::lexical::is_digit(c) {
        lemma_extend_number_end(s, w, j);
        lemma_number_end(s, j);
        let p = number_end(s, j);
        assert(t.subrange(j, p) =~= s.subrange(j, p));
    } else if c == 't' {
        lemma_extend_matches(s, w, j, seq!['t', 'r', 'u', 'e']);
    } else if c == 'f' {
        lemma_extend_matches(s, w, j, seq!['f', 'a', 'l', 's', 'e']);
    } else if c == 'n' {
        lemma_extend_matches(s, w, j, seq!['n', 'u', 'l', 'l']);
    }
}

proof fn lemma_extend_array(s: Seq<char>, w: Seq<char>, i: int)
    requires
        all_ws(w),
        array_at(s, i) is Ok,
    ensures
        array_at(s + w, i) == array_at(s, i),
    decreases s.len() - i, 2nat,
{
    lemma_skip_ws(s, i);
    let k = skip_ws(s, i);
    if k < s.len() {
        lemma_extend_skip_ws(s, w, i);
        assert((s + w)[k] == s[k]);
        if s[k] != ']' {
            lemma_extend_items(s, w, k);
        }
    } else {
        assert(array_items(s, k) is Ok);
        lemma_extend_items(s, w, k);
    }
}

proof fn lemma_extend_items(s: Seq<char>, w: Seq<char>, i: int)
    requires
        all_ws(w),
        array_items(s, i) is Ok,
    ensures
        array_items(s + w, i) == array_items(s, i),
    decreases s.len() - i, 1nat,
{
    lemma_extend_value(s, w, i);
    let (v, p) = value_at(s, i)->Ok_0;
    lemma_skip_ws(s, p);
    let k = skip_ws(s, p);
    lemma_extend_skip_ws(s, w, p);
    assert((s + w)[k] == s[k]);
    if s[k] == ',' {
        lemma_extend_items(s, w, k + 1);
    }
}

proof fn lemma_extend_object(s: Seq<char>, w: Seq<char>, i: int)
    requires
        all_ws(w),
        object_at(s, i) is Ok,
    ensures
        object_at(s + w, i) == object_at(s, i),
    decreases s.len() - i, 2nat,
{
    lemma_skip_ws(s, i);
    let k = skip_ws(s, i);
    if k < s.len() {
        lemma_extend_skip_ws(s, w, i);
        assert((s + w)[k] == s[k]);
        if s[k] != '}' {
            lemma_extend_members(s, w, k);
        }
    } else {
        lemma_extend_members(s, w, k);
    }
}

proof fn lemma_extend_members(s: Seq<char>, w: Seq<char>, i: int)
    requires
        all_ws(w),
        object_members(s, i) is Ok,
    ensures
        object_members(s + w, i) == object_members(s, i),
    decreases s.len() - i, 1nat,
{
    let t = s + w;
    lemma_skip_ws(s, i);
    let k = skip_ws(s, i);
    lemma_extend_skip_ws(s, w, i);
    assert(t[k] == s[k]);
    lemma_extend_string_body(s, w, k + 1);
    lemma_string_body_advances(s, k + 1);
    let (key, p) = string_body(s, k + 1)->Ok_0;
    lemma_skip_ws(s, p);
    let c = skip_ws(s, p);
    lemma_extend_skip_ws(s, w, p);
    assert(t[c] == s[c]);
    lemma_extend_tail(s, w, key, c + 1);
}

proof fn lemma_extend_tail(s: Seq<char>, w: Seq<char>, key: Seq<char>, j: int)
    requires
        all_ws(w),
        member_tail(s, key, j) is Ok,
    ensures
        member_tail(s + w, key, j) == member_tail(s, key, j),
    decreases s.len() - j, 1nat,
{
    lemma_extend_value(s, w, j);
    let (v, q) = value_at(s, j)->Ok_0;
    lemma_skip_ws(s, q);
    let e = skip_ws(s, q);
    lemma_extend_skip_ws(s, w, q);
    assert((s + w)[e] == s[e]);
    if s[e] == ',' {
        lemma_extend_members(s, w, e + 1);
    }
}

/// A value read from `s` at `i` is read the same from `s + w` when `w` is
/// whitespace.
pub proof fn lemma_value_before_whitespace(s: Seq<char>, w: Seq<char>, i: int)
    requires
        all_ws(w),
        value_at(s, i) is Ok,
    ensures
        value_at(s + w, i) == value_at(s, i),
{
    lemma_extend_value(s, w, i);
}

} // verus!
