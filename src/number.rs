//! The check that a scanned numeric literal is one a float conversion accepts.
use vstd::prelude::*;
use crate::lexical::{is_digit, is_ascii_digit};
use crate::grammar::{is_float_literal, is_mantissa, is_exponent, drop_sign, all_digits};
use crate::finite::{finite_ok, is_finite_value};

verus! {

/// Whether `t[lo..hi]` holds digits and points only, at most one point, and a digit.
fn mantissa_ok(t: &Vec<char>, lo: usize, hi: usize) -> (r: bool)
    requires
        lo <= hi <= t@.len(),
    ensures
        r == is_mantissa(t@.subrange(lo as int, hi as int)),
{
    let ghost m = t@.subrange(lo as int, hi as int);
    let mut i: usize = lo;
    let mut dot: Option<usize> = None;
    let mut digit: Option<usize> = None;
    while i < hi
        invariant
            lo <= i <= hi <= t@.len(),
            m == t@.subrange(lo as int, hi as int),
            forall|k: int| lo <= k < i ==> is_digit(#[trigger] t@[k]) || t@[k] == '.',
            dot matches Some(d) ==> lo <= d < i && t@[d as int] == '.',
            dot is None ==> forall|k: int| lo <= k < i ==> #[trigger] t@[k] != '.',
            dot matches Some(d) ==> forall|k: int| lo <= k < i && k != d ==> #[trigger] t@[k]
                != '.',
            digit matches Some(d) ==> lo <= d < i && is_digit(t@[d as int]),
            digit is None ==> forall|k: int| lo <= k < i ==> !is_digit(#[trigger] t@[k]),
        decreases hi - i,
    {
        let c = t[i];
        if is_ascii_digit(c) {
            digit = Some(i);
        } else if c == '.' {
            if dot.is_some() {
                proof {
                    let d = dot->0;
                    assert(m[d - lo] == '.' && m[i - lo] == '.');
                }
                return false;
            }
            dot = Some(i);
        } else {
            assert(m[i - lo] == c);
            return false;
        }
        i = i + 1;
    }
    if digit.is_none() {
        assert forall|k: int| 0 <= k < m.len() implies !is_digit(#[trigger] m[k]) by {
            assert(m[k] == t@[k + lo]);
        }
        return false;
    }
    proof {
        let d = digit->0;
        assert(is_digit(m[d - lo]));
        assert forall|a: int, b: int|
            0 <= a < b < m.len() && #[trigger] m[a] == '.' implies #[trigger] m[b] != '.' by {
            assert(m[a] == t@[a + lo] && m[b] == t@[b + lo]);
        }
        assert forall|k: int| 0 <= k < m.len() implies is_digit(#[trigger] m[k]) || m[k] == '.' by {
            assert(m[k] == t@[k + lo]);
        }
    }
    true
}

/// Whether `t[lo..hi]` is empty or one digit or more.
fn digits_ok(t: &Vec<char>, lo: usize, hi: usize) -> (r: bool)
    requires
        lo <= hi <= t@.len(),
    ensures
        r == (hi > lo && all_digits(t@.subrange(lo as int, hi as int))),
{
    let ghost m = t@.subrange(lo as int, hi as int);
    if hi == lo {
        return false;
    }
    let mut i: usize = lo;
    while i < hi
        invariant
            lo <= i <= hi <= t@.len(),
            m == t@.subrange(lo as int, hi as int),
            forall|k: int| lo <= k < i ==> is_digit(#[trigger] t@[k]),
        decreases hi - i,
    {
        if !is_ascii_digit(t[i]) {
            assert(m[i - lo] == t@[i as int]);
            return false;
        }
        i = i + 1;
    }
    assert forall|k: int| 0 <= k < m.len() implies is_digit(#[trigger] m[k]) by {
        assert(m[k] == t@[k + lo]);
    }
    true
}

/// Whether `t[lo..hi]` is a decimal literal that a float conversion accepts
/// and takes to a finite value.
#[verifier::rlimit(50)]
pub fn float_literal_ok(t: &Vec<char>, lo: usize, hi: usize) -> (r: bool)
    requires
        lo <= hi <= t@.len(),
    ensures
        r == is_float_literal(t@.subrange(lo as int, hi as int)),
{
    let ghost s = t@.subrange(lo as int, hi as int);
    let b0: usize = if lo < hi && (t[lo] == '+' || t[lo] == '-') {
        lo + 1
    } else {
        lo
    };
    let ghost b = drop_sign(s);
    assert(b =~= t@.subrange(b0 as int, hi as int));
    // The mantissa ends at the first `e` or `E`.
    let mut k: usize = b0;
    while k < hi && t[k] != 'e' && t[k] != 'E'
        invariant
            b0 <= k <= hi <= t@.len(),
            forall|j: int| b0 <= j < k ==> #[trigger] t@[j] != 'e' && t@[j] != 'E',
        decreases hi - k,
    {
        k = k + 1;
    }
    let ghost kk = k - b0;
    assert(b.take(kk) =~= t@.subrange(b0 as int, k as int));
    assert(b.skip(kk) =~= t@.subrange(k as int, hi as int));
    let m_ok = mantissa_ok(t, b0, k);
    let x_ok = if k == hi {
        true
    } else {
        let e0: usize = if k + 1 < hi && (t[k + 1] == '+' || t[k + 1] == '-') {
            k + 2
        } else {
            k + 1
        };
        let ghost x = t@.subrange(k as int, hi as int);
        assert(drop_sign(x.drop_first()) =~= t@.subrange(e0 as int, hi as int));
        digits_ok(t, e0, hi)
    };
    assert(x_ok == is_exponent(b.skip(kk)));
    if m_ok && x_ok {
        proof {
            let mm = b.take(kk);
            assert forall|j: int| b0 <= j < k implies is_digit(#[trigger] t@[j]) || t@[j] == '.' by {
                assert(mm[j - b0] == t@[j]);
            }
            if k < hi {
                let x = b.skip(kk);
                let y = drop_sign(x.drop_first());
                let e0 = if k + 1 < hi && (t@[k + 1] == '+' || t@[k + 1] == '-') {
                    k + 2
                } else {
                    k + 1
                };
                assert(y =~= t@.subrange(e0 as int, hi as int));
                assert(x[0] == t@[k as int]);
                assert forall|j: int| k + 1 <= j < hi implies is_digit(#[trigger] t@[j]) || ((t@[j]
                    == '+' || t@[j] == '-') && j == k + 1) by {
                    if j >= e0 {
                        assert(y[j - e0] == t@[j]);
                    }
                }
            }
        }
        let fin = finite_ok(t, b0, k, hi);
        if fin {
            assert(is_mantissa(drop_sign(s).take(kk)));
            return true;
        }
        proof {
            assert forall|k2: int|
                0 <= k2 <= b.len() && #[trigger] is_mantissa(drop_sign(s).take(k2)) implies !(
                is_exponent(b.skip(k2)) && is_finite_value(b.take(k2), b.skip(k2))) by {
                if k2 < kk {
                    assert(b.skip(k2)[0] == t@[b0 + k2]);
                } else if k2 > kk {
                    let mm = drop_sign(s).take(k2);
                    assert(mm[kk] == t@[k as int]);
                }
            }
        }
        return false;
    }
    proof {
        assert forall|k2: int|
            0 <= k2 <= b.len() && #[trigger] is_mantissa(drop_sign(s).take(k2)) implies !is_exponent(
            b.skip(k2),
        ) by {
            if k2 < kk {
                assert(b.skip(k2)[0] == t@[b0 + k2]);
            } else if k2 > kk {
                let mm = drop_sign(s).take(k2);
                assert(mm[kk] == t@[k as int]);
            }
        }
    }
    false
}

} // verus!
