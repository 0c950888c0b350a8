//! The value of a numeric literal in integers, and whether it lies below the
//! point from which a 64-bit float rounds to infinity.
use vstd::prelude::*;
use crate::lexical::is_digit;

verus! {

pub open spec fn pow10(e: nat) -> nat
    decreases e,
{
    if e == 0 {
        1
    } else {
        10 * pow10((e - 1) as nat)
    }
}

pub open spec fn digit_value(c: char) -> nat {
    (c as nat - '0' as nat) as nat
}

/// The number that the digits of `t` spell, points skipped.
pub open spec fn digits_value(t: Seq<char>) -> nat
    decreases t.len(),
{
    if t.len() == 0 {
        0
    } else if is_digit(t.last()) {
        digits_value(t.drop_last()) * 10 + digit_value(t.last())
    } else {
        digits_value(t.drop_last())
    }
}

/// The number of digits after the point of `m`, if it has one.
pub open spec fn point_digits(m: Seq<char>) -> Option<nat>
    decreases m.len(),
{
    if m.len() == 0 {
        None
    } else if m.last() == '.' {
        Some(0)
    } else {
        match point_digits(m.drop_last()) {
            Some(f) => Some(f + 1),
            None => None,
        }
    }
}

/// The signed value of an exponent part (`e`, optional sign, digits), zero
/// where there is none.
pub open spec fn exponent_value(x: Seq<char>) -> int {
    if x.len() == 0 {
        0
    } else {
        let y = x.drop_first();
        if y.len() > 0 && y[0] == '-' {
            -digits_value(y.drop_first())
        } else if y.len() > 0 && y[0] == '+' {
            digits_value(y.drop_first()) as int
        } else {
            digits_value(y) as int
        }
    }
}

/// 2^1024 - 2^970 in decimal: the largest finite 64-bit float plus half of
/// its last unit, from which rounding to nearest gives infinity.
pub open spec fn overflow_text() -> Seq<char> {
    "179769313486231580793728971405303415079934132710037826936173778980444968292764750946649017977587207096330286416692887910946555547851940402630657488671505820681908902000708383676273854845817711531764475730270069855571366959622842914819860834936475292719074168444365510704342711559699508093042880177904174497792"@
}

pub open spec fn overflow_limit() -> nat {
    digits_value(overflow_text())
}

/// The literal with mantissa `m` and exponent part `x` has a value
/// `digits_value(m) * 10^(exponent - point digits)` below the overflow limit.
pub open spec fn is_finite_value(m: Seq<char>, x: Seq<char>) -> bool {
    below_limit(
        digits_value(m),
        exponent_value(x) - match point_digits(m) {
            Some(f) => f as int,
            None => 0,
        },
    )
}

/// `v * 10^e` is below the overflow limit.
pub open spec fn below_limit(v: nat, e: int) -> bool {
    if e >= 0 {
        v * pow10(e as nat) < overflow_limit()
    } else {
        v < overflow_limit() * pow10((-e) as nat)
    }
}

pub open spec fn all_digit_chars(t: Seq<char>) -> bool {
    forall|k: int| 0 <= k < t.len() ==> is_digit(#[trigger] t[k])
}

pub proof fn lemma_pow10_add(a: nat, b: nat)
    ensures
        pow10(a + b) == pow10(a) * pow10(b),
        pow10(a) >= 1,
    decreases a,
{
    if a > 0 {
        let a1 = (a - 1) as nat;
        lemma_pow10_add(a1, b);
        assert(a + b - 1 == a1 + b);
        assert(pow10(a + b) == 10 * pow10(a1 + b));
        assert(pow10(a) == 10 * pow10(a1));
        assert(10 * (pow10(a1) * pow10(b)) == (10 * pow10(a1)) * pow10(b)) by (nonlinear_arith);
    } else {
        assert(pow10(a) == 1);
        assert(a + b == b);
    }
}

pub proof fn lemma_pow10_mono(a: nat, b: nat)
    requires
        a <= b,
    ensures
        pow10(a) <= pow10(b),
{
    lemma_pow10_add(a, (b - a) as nat);
    lemma_pow10_add((b - a) as nat, 0);
    assert(pow10(a) * pow10((b - a) as nat) >= pow10(a) * 1) by (nonlinear_arith)
        requires
            pow10((b - a) as nat) >= 1,
    ;
}

/// A string of `n` digits is below `10^n`; with a leading digit other than
/// zero it is at least `10^(n-1)`.
pub proof fn lemma_digits_bounds(t: Seq<char>)
    requires
        all_digit_chars(t),
    ensures
        digits_value(t) < pow10(t.len()),
        t.len() > 0 && t[0] != '0' ==> digits_value(t) >= pow10((t.len() - 1) as nat),
    decreases t.len(),
{
    if t.len() > 0 {
        let u = t.drop_last();
        lemma_digits_bounds(u);
        assert(is_digit(t.last()));
        let d = digit_value(t.last());
        assert(d <= 9);
        assert(digits_value(t) == digits_value(u) * 10 + d);
        assert(pow10(t.len()) == 10 * pow10(u.len()));
        assert(digits_value(u) + 1 <= pow10(u.len()));
        assert(digits_value(u) * 10 + d < 10 * pow10(u.len())) by (nonlinear_arith)
            requires
                digits_value(u) + 1 <= pow10(u.len()),
                d <= 9,
        ;
        if t.len() > 1 && t[0] != '0' {
            assert(u[0] == t[0]);
            assert(pow10((t.len() - 1) as nat) == 10 * pow10((u.len() - 1) as nat));
            assert(digits_value(u) * 10 + d >= 10 * pow10((u.len() - 1) as nat)) by (
            nonlinear_arith)
                requires
                    digits_value(u) >= pow10((u.len() - 1) as nat),
            ;
        }
        if t.len() == 1 && t[0] != '0' {
            assert(t.last() == t[0]);
            assert(u.len() == 0);
        }
    }
}

/// Digits put after digits: the first part counts `10^|b|` times.
pub proof fn lemma_digits_concat(a: Seq<char>, b: Seq<char>)
    requires
        all_digit_chars(b),
    ensures
        digits_value(a + b) == digits_value(a) * pow10(b.len()) + digits_value(b),
    decreases b.len(),
{
    if b.len() == 0 {
        assert(a + b =~= a);
        assert(pow10(0) == 1);
        assert(digits_value(b) == 0);
    } else {
        let c = b.drop_last();
        assert((a + b).drop_last() =~= a + c);
        assert((a + b).last() == b.last());
        lemma_digits_concat(a, c);
        assert(is_digit(b.last()));
        assert(pow10(b.len()) == 10 * pow10(c.len()));
        let x = digits_value(a);
        let y = digits_value(c);
        let p = pow10(c.len());
        let d = digit_value(b.last());
        assert((x * p + y) * 10 + d == x * (10 * p) + (y * 10 + d)) by (nonlinear_arith);
        assert(digits_value(a + b) == digits_value(a + c) * 10 + d);
        assert(digits_value(b) == y * 10 + d);
    }
}

/// Digit strings of one length compare as their first difference does.
pub proof fn lemma_digits_compare(a: Seq<char>, b: Seq<char>, i: int)
    requires
        all_digit_chars(a),
        all_digit_chars(b),
        a.len() == b.len(),
        0 <= i < a.len(),
        a.take(i) == b.take(i),
        a[i] < b[i],
    ensures
        digits_value(a) < digits_value(b),
{
    let r = (a.len() - i - 1) as nat;
    let a1 = a.take(i + 1);
    let b1 = b.take(i + 1);
    let a2 = a.skip(i + 1);
    let b2 = b.skip(i + 1);
    assert(a =~= a1 + a2);
    assert(b =~= b1 + b2);
    assert(all_digit_chars(a2));
    assert(all_digit_chars(b2));
    lemma_digits_concat(a1, a2);
    lemma_digits_concat(b1, b2);
    lemma_digits_bounds(a2);
    assert(a1.drop_last() =~= a.take(i));
    assert(b1.drop_last() =~= b.take(i));
    assert(a1.last() == a[i] && b1.last() == b[i]);
    assert(is_digit(a[i]) && is_digit(b[i]));
    assert(digits_value(a1) + 1 <= digits_value(b1));
    let p = pow10(r);
    let va = digits_value(a1);
    let vb = digits_value(b1);
    let ra = digits_value(a2);
    let rb = digits_value(b2);
    assert(va * p + ra < vb * p + rb) by (nonlinear_arith)
        requires
            va + 1 <= vb,
            ra < p,
    ;
}


pub proof fn lemma_overflow_text()
    ensures
        overflow_text().len() == 309,
        overflow_text()[0] == '1',
        all_digit_chars(overflow_text()),
{
    reveal_strlit("179769313486231580793728971405303415079934132710037826936173778980444968292764750946649017977587207096330286416692887910946555547851940402630657488671505820681908902000708383676273854845817711531764475730270069855571366959622842914819860834936475292719074168444365510704342711559699508093042880177904174497792");
}


/// A number of `n` significant digits times `10^e` is finite when `n + e`
/// is at most 308, and overflows when it is at least 310.
proof fn lemma_magnitude(v: nat, n: nat, e: int)
    requires
        n >= 1,
        pow10((n - 1) as nat) <= v < pow10(n),
    ensures
        n + e <= 308 ==> below_limit(v, e),
        n + e >= 310 ==> !below_limit(v, e),
{
    lemma_overflow_text();
    lemma_digits_bounds(overflow_text());
    let l = overflow_limit();
    assert(pow10(308) <= l < pow10(309));
    if e >= 0 {
        let en = e as nat;
        lemma_pow10_add(en, 0);
        lemma_pow10_add(n, en);
        lemma_pow10_add((n - 1) as nat, en);
        if n + e <= 308 {
            lemma_pow10_mono(n + en, 308);
            assert(v * pow10(en) < pow10(n) * pow10(en)) by (nonlinear_arith)
                requires
                    v < pow10(n),
                    pow10(en) >= 1,
            ;
        }
        if n + e >= 310 {
            lemma_pow10_mono(309, (n - 1 + en) as nat);
            assert(v * pow10(en) >= pow10((n - 1) as nat) * pow10(en)) by (nonlinear_arith)
                requires
                    v >= pow10((n - 1) as nat),
                    pow10(en) >= 1,
            ;
        }
    } else {
        let en = (-e) as nat;
        lemma_pow10_add(en, 0);
        lemma_pow10_add(308, en);
        lemma_pow10_add(309, en);
        lemma_pow10_add(0, en);
        if n + e <= 308 {
            lemma_pow10_mono(n, 308 + en);
            assert(pow10(308) * pow10(en) <= l * pow10(en)) by (nonlinear_arith)
                requires
                    pow10(308) <= l,
            ;
        }
        if n + e >= 310 {
            lemma_pow10_mono(309 + en, (n - 1) as nat);
            assert(l * pow10(en) < pow10(309) * pow10(en)) by (nonlinear_arith)
                requires
                    l < pow10(309),
                    pow10(en) >= 1,
            ;
        }
    }
}

proof fn lemma_zeros(k: nat)
    ensures
        all_digit_chars(zeros(k as int)),
        digits_value(zeros(k as int)) == 0,
    decreases k,
{
    if k > 0 {
        lemma_zeros((k - 1) as nat);
        assert(zeros(k as int).drop_last() =~= zeros(k - 1));
    }
}

const SATURATION: u128 = 0x4_0000_0000_0000_0000;

pub open spec fn zeros(k: int) -> Seq<char> {
    Seq::new(k as nat, |i: int| '0')
}

/// The significant digits of the mantissa `t[lo..k]` (no point, no leading
/// zero), and the number of digits after its point if it has one.
fn significant_digits(t: &Vec<char>, lo: usize, k: usize) -> (r: (Vec<char>, usize, bool))
    requires
        lo <= k <= t@.len(),
        forall|j: int| lo <= j < k ==> is_digit(#[trigger] t@[j]) || t@[j] == '.',
    ensures
        all_digit_chars(r.0@),
        r.0@.len() > 0 ==> r.0@[0] != '0',
        r.0@.len() <= k - lo,
        r.1 <= k - lo,
        digits_value(r.0@) == digits_value(t@.subrange(lo as int, k as int)),
        point_digits(t@.subrange(lo as int, k as int)) == (if r.2 {
            Some(r.1 as nat)
        } else {
            None::<nat>
        }),
{
    let mut d: Vec<char> = Vec::new();
    let mut frac: usize = 0;
    let mut seen = false;
    let mut i: usize = lo;
    while i < k
        invariant
            lo <= i <= k <= t@.len(),
            forall|j: int| lo <= j < k ==> is_digit(#[trigger] t@[j]) || t@[j] == '.',
            all_digit_chars(d@),
            d@.len() > 0 ==> d@[0] != '0',
            d@.len() <= i - lo,
            digits_value(d@) == digits_value(t@.subrange(lo as int, i as int)),
            point_digits(t@.subrange(lo as int, i as int)) == (if seen {
                Some(frac as nat)
            } else {
                None::<nat>
            }),
            frac <= i - lo,
        decreases k - i,
    {
        let c = t[i];
        let ghost before = d@;
        assert(t@.subrange(lo as int, i + 1).drop_last() =~= t@.subrange(lo as int, i as int));
        assert(t@.subrange(lo as int, i + 1).last() == c);
        if c == '.' {
            seen = true;
            frac = 0;
        } else {
            if d.len() > 0 || c != '0' {
                d.push(c);
                assert(d@.drop_last() =~= before);
            }
            if seen {
                frac = frac + 1;
            }
        }
        i = i + 1;
    }
    (d, frac, seen)
}

/// The value of the digits `t[j0..hi]`, or `SATURATION` where it is larger.
fn saturated_value(t: &Vec<char>, j0: usize, hi: usize) -> (r: u128)
    requires
        j0 <= hi <= t@.len(),
        forall|q: int| j0 <= q < hi ==> is_digit(#[trigger] t@[q]),
    ensures
        r == if digits_value(t@.subrange(j0 as int, hi as int)) < SATURATION {
            digits_value(t@.subrange(j0 as int, hi as int))
        } else {
            SATURATION as nat
        },
{
    let mut sat: u128 = 0;
    let mut j: usize = j0;
    while j < hi
        invariant
            j0 <= j <= hi <= t@.len(),
            forall|q: int| j0 <= q < hi ==> is_digit(#[trigger] t@[q]),
            sat == if digits_value(t@.subrange(j0 as int, j as int)) < SATURATION {
                digits_value(t@.subrange(j0 as int, j as int))
            } else {
                SATURATION as nat
            },
        decreases hi - j,
    {
        let c = t[j];
        assert(t@.subrange(j0 as int, j + 1).drop_last() =~= t@.subrange(j0 as int, j as int));
        assert(t@.subrange(j0 as int, j + 1).last() == c);
        let dv = (c as u32 - '0' as u32) as u128;
        if sat < SATURATION {
            sat = sat * 10 + dv;
            if sat > SATURATION {
                sat = SATURATION;
            }
        }
        j = j + 1;
    }
    sat
}

/// Whether the digits `d`, filled out with zeros to the length of the limit,
/// are below the limit filled out with zeros to the length of `d`.
fn digits_below_limit(d: &Vec<char>) -> (r: bool)
    requires
        all_digit_chars(d@),
    ensures
        ({
            let w = if d@.len() > 309 { d@.len() as int } else { 309 };
            r == (digits_value(d@ + zeros(w - d@.len())) < digits_value(
                overflow_text() + zeros(w - 309),
            ))
        }),
{
    let lim = "179769313486231580793728971405303415079934132710037826936173778980444968292764750946649017977587207096330286416692887910946555547851940402630657488671505820681908902000708383676273854845817711531764475730270069855571366959622842914819860834936475292719074168444365510704342711559699508093042880177904174497792";
    proof {
        lemma_overflow_text();
    }
    assert(lim@ == overflow_text());
    let n = d.len();
    let w: usize = if n > 309 { n } else { 309 };
    let ghost a = d@ + zeros(w - n);
    let ghost b = overflow_text() + zeros(w - 309);
    proof {
        lemma_zeros((w - n) as nat);
        lemma_zeros((w - 309) as nat);
        assert forall|q: int| 0 <= q < a.len() implies is_digit(#[trigger] a[q]) by {
            if q < n {
                assert(a[q] == d@[q]);
            }
        }
        assert forall|q: int| 0 <= q < b.len() implies is_digit(#[trigger] b[q]) by {
            if q < 309 {
                assert(b[q] == overflow_text()[q]);
            }
        }
    }
    let mut q: usize = 0;
    while q < w
        invariant
            w == a.len() == b.len(),
            n == d@.len(),
            w == (if n > 309 { n } else { 309 }),
            lim@ == overflow_text(),
            overflow_text().len() == 309,
            all_digit_chars(a),
            all_digit_chars(b),
            a == d@ + zeros(w - n),
            b == overflow_text() + zeros(w - 309),
            q <= w,
            a.take(q as int) == b.take(q as int),
        decreases w - q,
    {
        let ca = if q < n { d[q] } else { '0' };
        let cb = if q < 309 { lim.get_char(q) } else { '0' };
        assert(ca == a[q as int] && cb == b[q as int]);
        if ca < cb {
            proof {
                lemma_digits_compare(a, b, q as int);
            }
            return true;
        }
        if cb < ca {
            proof {
                lemma_digits_compare(b, a, q as int);
            }
            return false;
        }
        assert(a.take(q + 1) =~= a.take(q as int).push(ca));
        assert(b.take(q + 1) =~= b.take(q as int).push(cb));
        q = q + 1;
    }
    assert(a =~= a.take(w as int));
    assert(b =~= b.take(w as int));
    false
}

/// Whether the literal with mantissa `t[lo..k]` and exponent part `t[k..hi]`
/// has a value below the overflow limit.
pub fn finite_ok(t: &Vec<char>, lo: usize, k: usize, hi: usize) -> (r: bool)
    requires
        lo <= k <= hi <= t@.len(),
        forall|j: int| lo <= j < k ==> is_digit(#[trigger] t@[j]) || t@[j] == '.',
        k < hi ==> (t@[k as int] == 'e' || t@[k as int] == 'E'),
        k < hi ==> forall|j: int|
            k + 1 <= j < hi ==> is_digit(#[trigger] t@[j]) || ((t@[j] == '+' || t@[j] == '-') && j
                == k + 1),
    ensures
        r == is_finite_value(t@.subrange(lo as int, k as int), t@.subrange(k as int, hi as int)),
{
    let ghost m = t@.subrange(lo as int, k as int);
    let ghost x = t@.subrange(k as int, hi as int);
    let (d, frac, seen) = significant_digits(t, lo, k);
    // The exponent, saturated far beyond any length a text can have.
    let mut neg = false;
    let mut sat: u128 = 0;
    let ghost mut j0: int = hi as int;
    if k < hi {
        let mut j: usize = k + 1;
        if j < hi && t[j] == '-' {
            neg = true;
            j = j + 1;
        } else if j < hi && t[j] == '+' {
            j = j + 1;
        }
        proof {
            j0 = j as int;
        }
        sat = saturated_value(t, j, hi);
        proof {
            let y = x.drop_first();
            if neg {
                assert(y.drop_first() =~= t@.subrange(j0, hi as int));
            } else if y.len() > 0 && y[0] == '+' {
                assert(y.drop_first() =~= t@.subrange(j0, hi as int));
            } else {
                assert(y =~= t@.subrange(j0, hi as int));
            }
        }
    } else {
        assert(t@.subrange(j0, hi as int) =~= Seq::<char>::empty());
    }
    let ghost xv = digits_value(t@.subrange(j0, hi as int));
    let ghost ex: int = exponent_value(x);
    assert(ex == if neg { -xv } else { xv as int });
    assert(sat == if xv < SATURATION { xv } else { SATURATION as nat });
    let n = d.len();
    let ghost e = ex - if seen { frac as int } else { 0 };
    assert(is_finite_value(m, x) == below_limit(digits_value(d@), e));
    if n == 0 {
        proof {
            lemma_overflow_text();
            lemma_digits_bounds(overflow_text());
            lemma_pow10_add(308, 0);
            lemma_pow10_add(0, 0);
            if e >= 0 {
                assert(0 * pow10(e as nat) == 0) by (nonlinear_arith);
            }
            if e < 0 {
                lemma_pow10_add((-e) as nat, 0);
                assert(overflow_limit() * pow10((-e) as nat) >= 1) by (nonlinear_arith)
                    requires
                        overflow_limit() >= 1,
                        pow10((-e) as nat) >= 1,
                ;
            }
        }
        return true;
    }
    let f: i128 = if seen { frac as i128 } else { 0 };
    let xs: i128 = if neg { -(sat as i128) } else { sat as i128 };
    let mag: i128 = n as i128 + xs - f;
    proof {
        lemma_digits_bounds(d@);
        lemma_magnitude(digits_value(d@), n as nat, e);
    }
    if mag <= 308 {
        return true;
    }
    if mag >= 310 {
        return false;
    }
    assert(n + e == 309);
    let below = digits_below_limit(&d);
    proof {
        let w = if n > 309 { n as int } else { 309 };
        lemma_zeros((w - n) as nat);
        lemma_zeros((w - 309) as nat);
        lemma_digits_concat(d@, zeros(w - n));
        lemma_digits_concat(overflow_text(), zeros(w - 309));
        lemma_pow10_add(0, 0);
        if n <= 309 {
            assert(e >= 0 && e == w - n);
        } else {
            assert(e < 0 && -e == w - 309);
        }
    }
    below
}

} // verus!
