//! JSON numbers: the RFC 8259 number grammar, and the RFC 8785 canonical text
//! of a number (the ECMAScript `Number::toString` form of the nearest IEEE-754
//! double).
//!
//! Floating-point arithmetic stays outside the library: the double nearest to a
//! literal, and its shortest round-trip decimal digits, come from `serde_json`
//! (see [`render_double`]). Everything after that — reading the rendered digits,
//! the underflow rule and the ECMAScript layout — is verified here.

use vstd::prelude::*;
use crate::text::{chars_of, string_from_chars};

verus! {

pub open spec fn is_digit(c: char) -> bool {
    '0' <= c && c <= '9'
}

pub open spec fn is_nonzero_digit(c: char) -> bool {
    '1' <= c && c <= '9'
}

/// The first index at or after `i` that does not hold a decimal digit.
pub open spec fn digits_end(s: Seq<char>, i: int) -> int
    decreases s.len() - i,
{
    if 0 <= i < s.len() && is_digit(s[i]) {
        digits_end(s, i + 1)
    } else {
        i
    }
}

/// The end of the RFC 8259 number that starts at `i`:
/// `-? (0 | [1-9][0-9]*) (. [0-9]+)? ([eE] [+-]? [0-9]+)?`.
/// A leading `+`, leading zeros of the integer part (`01` stops after `0`),
/// an empty fraction and an empty exponent are not numbers.
pub open spec fn number_end(s: Seq<char>, i: int) -> Option<int> {
    let a = if 0 <= i < s.len() && s[i] == '-' { i + 1 } else { i };
    if !(0 <= a < s.len() && is_digit(s[a])) {
        None
    } else {
        let b = if s[a] == '0' { a + 1 } else { digits_end(s, a + 1) };
        let has_frac = b < s.len() && s[b] == '.';
        let c = if has_frac { digits_end(s, b + 1) } else { b };
        if has_frac && c == b + 1 {
            None
        } else if c < s.len() && (s[c] == 'e' || s[c] == 'E') {
            let d = if c + 1 < s.len() && (s[c + 1] == '+' || s[c + 1] == '-') {
                c + 2
            } else {
                c + 1
            };
            let e = digits_end(s, d);
            if e == d {
                None
            } else {
                Some(e)
            }
        } else {
            Some(c)
        }
    }
}

/// `t` is exactly one JSON number literal.
pub open spec fn valid_number_token(t: Seq<char>) -> bool {
    number_end(t, 0) == Some(t.len() as int)
}

/// The literal's significand (the part before any `e`/`E`) holds a nonzero
/// digit; digits of the exponent do not count (`0e5` is an exact zero).
pub open spec fn significand_has_nonzero_digit(t: Seq<char>) -> bool {
    exists|k: int|
        0 <= k < t.len() && is_nonzero_digit(#[trigger] t[k]) && forall|j: int|
            0 <= j <= k ==> t[j] != 'e' && t[j] != 'E'
}

/// What `serde_json` renders for the double nearest to the JSON number literal
/// `token` (`None` when `serde_json` rejects the literal, e.g. when it is beyond
/// the double range).
pub uninterp spec fn rendered_double(token: Seq<char>) -> Option<Seq<char>>;

/// A finite decimal `(-1)^negative × 0.d1d2…dk × 10^point`; `digits` carries no
/// leading or trailing zero, and is empty for zero.
pub struct Decimal {
    pub negative: bool,
    pub digits: Seq<char>,
    pub point: int,
}

/// Value of a run of decimal digits.
pub open spec fn digits_value(s: Seq<char>) -> nat
    decreases s.len(),
{
    if s.len() == 0 {
        0
    } else {
        digits_value(s.drop_last()) * 10 + ((s.last() as u32 - '0' as u32) as nat)
    }
}

/// The first index at or after `i` that does not hold `'0'`.
pub open spec fn lead_end(m: Seq<char>, i: int) -> int
    decreases m.len() - i,
{
    if 0 <= i < m.len() && m[i] == '0' {
        lead_end(m, i + 1)
    } else {
        i
    }
}

/// The start of the run of `'0'`s that ends at `j`, not going below `lo`.
pub open spec fn trail_start(m: Seq<char>, lo: int, j: int) -> int
    decreases j - lo,
{
    if lo < j <= m.len() && m[j - 1] == '0' {
        trail_start(m, lo, j - 1)
    } else {
        j
    }
}

/// The exponent suffix of a rendered number starting at `p` (`0` when absent);
/// `None` when the suffix is malformed or has more than nine digits.
pub open spec fn exponent_of(t: Seq<char>, p: int) -> Option<int> {
    if p == t.len() {
        Some(0)
    } else if 0 <= p < t.len() && (t[p] == 'e' || t[p] == 'E') {
        let neg = p + 1 < t.len() && t[p + 1] == '-';
        let q = if p + 1 < t.len() && (t[p + 1] == '+' || t[p + 1] == '-') {
            p + 2
        } else {
            p + 1
        };
        let r = digits_end(t, q);
        if r == q || r != t.len() || r - q > 9 {
            None
        } else if neg {
            Some(-(digits_value(t.subrange(q, r)) as int))
        } else {
            Some(digits_value(t.subrange(q, r)) as int)
        }
    } else {
        None
    }
}

/// The decimal value written by a plain decimal rendering
/// `-? [0-9]+ (. [0-9]+)? ([eE] [+-]? [0-9]+)?`.
pub open spec fn decimal_of_text(t: Seq<char>) -> Option<Decimal> {
    let a: int = if t.len() > 0 && t[0] == '-' { 1 } else { 0 };
    let e1 = digits_end(t, a);
    let has_frac = e1 < t.len() && t[e1] == '.';
    let e2 = if has_frac { digits_end(t, e1 + 1) } else { e1 };
    let f: int = if has_frac { e2 - e1 - 1 } else { 0 };
    let m = if has_frac { t.subrange(a, e1) + t.subrange(e1 + 1, e2) } else { t.subrange(a, e1) };
    if e1 == a || (has_frac && f == 0) {
        None
    } else {
        match exponent_of(t, e2) {
            None => None,
            Some(x) => {
                let lead = lead_end(m, 0);
                let trail = trail_start(m, lead, m.len() as int);
                Some(
                    Decimal {
                        negative: a == 1,
                        digits: m.subrange(lead, trail),
                        point: (m.len() - lead) + x - f,
                    },
                )
            },
        }
    }
}

pub open spec fn digit_chars() -> Seq<char> {
    seq!['0', '1', '2', '3', '4', '5', '6', '7', '8', '9']
}

/// Decimal digits of `v`, without leading zeros.
pub open spec fn nat_text(v: nat) -> Seq<char>
    decreases v,
{
    if v < 10 {
        seq![digit_chars()[v as int]]
    } else {
        nat_text(v / 10) + seq![digit_chars()[(v % 10) as int]]
    }
}

pub open spec fn zeros(n: int) -> Seq<char> {
    Seq::new(n as nat, |_i: int| '0')
}

pub open spec fn abs_int(v: int) -> nat {
    if v < 0 {
        (-v) as nat
    } else {
        v as nat
    }
}

/// ECMAScript `Number::toString` layout of a decimal (RFC 8785 §3.2.2.3):
/// positional up to 21 integer digits, `0.000ddd` down to six leading zeros,
/// exponential `d.ddde±x` otherwise; zero (of either sign) is `0`.
pub open spec fn ecma_text(d: Decimal) -> Seq<char> {
    let ds = d.digits;
    let k = ds.len() as int;
    let n = d.point;
    if k == 0 {
        seq!['0']
    } else {
        let body = if k <= n && n <= 21 {
            ds + zeros(n - k)
        } else if 0 < n && n <= 21 {
            ds.subrange(0, n) + seq!['.'] + ds.subrange(n, k)
        } else if -6 < n && n <= 0 {
            seq!['0', '.'] + zeros(-n) + ds
        } else {
            let e = n - 1;
            let mant = if k == 1 {
                ds
            } else {
                ds.subrange(0, 1) + seq!['.'] + ds.subrange(1, k)
            };
            mant + seq!['e'] + (if e >= 0 {
                seq!['+']
            } else {
                seq!['-']
            }) + nat_text(abs_int(e))
        };
        if d.negative {
            seq!['-'] + body
        } else {
            body
        }
    }
}

/// Canonical text of the number literal `token` given the rendering of its
/// nearest double: `None` when the rendering is not a plain decimal, or when a
/// literal whose significand has a nonzero digit rounded to zero (underflow).
pub open spec fn canonical_from_rendering(token: Seq<char>, rendered: Seq<char>) -> Option<
    Seq<char>,
> {
    match decimal_of_text(rendered) {
        None => None,
        Some(d) => if d.digits.len() == 0 && significand_has_nonzero_digit(token) {
            None
        } else {
            Some(ecma_text(d))
        },
    }
}

/// RFC 8785 canonical text of the JSON number literal `token`, or `None` when
/// `token` is not a number literal or lies outside the finite double domain.
pub open spec fn number_text(token: Seq<char>) -> Option<Seq<char>> {
    if !valid_number_token(token) {
        None
    } else {
        match rendered_double(token) {
            None => None,
            Some(r) => canonical_from_rendering(token, r),
        }
    }
}

pub open spec fn opt_string_view(o: Option<String>) -> Option<Seq<char>> {
    match o {
        Some(s) => Some(s@),
        None => None,
    }
}

/// Two decimals denote the same number (zero of either sign counts as one).
pub open spec fn same_number(a: Decimal, b: Decimal) -> bool {
    &&& a.digits == b.digits
    &&& a.digits.len() > 0 ==> a.negative == b.negative && a.point == b.point
}

/// A decimal as [`decimal_of_text`] reads it: decimal digits, the first of
/// them not `0`.
pub open spec fn decimal_wf(d: Decimal) -> bool {
    &&& forall|k: int| 0 <= k < d.digits.len() ==> is_digit(#[trigger] d.digits[k])
    &&& d.digits.len() > 0 ==> d.digits[0] != '0'
}

/// The rendering `rendered` reads back: its value spelt the ECMAScript way
/// renders to the same number again.
pub open spec fn rendering_round_trips(rendered: Seq<char>) -> bool {
    decimal_of_text(rendered) matches Some(d) ==> (rendered_double(ecma_text(d)) matches Some(r2)
        && decimal_of_text(r2) matches Some(d2) && same_number(d2, d))
}

proof fn lemma_lead_end(m: Seq<char>, i: int)
    requires
        0 <= i <= m.len(),
    ensures
        i <= lead_end(m, i) <= m.len(),
        lead_end(m, i) < m.len() ==> m[lead_end(m, i)] != '0',
    decreases m.len() - i,
{
    if i < m.len() && m[i] == '0' {
        lemma_lead_end(m, i + 1);
    }
}

proof fn lemma_trail_start(m: Seq<char>, lo: int, j: int)
    requires
        0 <= lo <= j <= m.len(),
    ensures
        lo <= trail_start(m, lo, j) <= j,
    decreases j - lo,
{
    if lo < j && m[j - 1] == '0' {
        lemma_trail_start(m, lo, j - 1);
    }
}

/// What [`decimal_of_text`] reads is well formed.
pub proof fn lemma_decimal_of_text_wf(t: Seq<char>)
    requires
        decimal_of_text(t) is Some,
    ensures
        decimal_wf(decimal_of_text(t).unwrap()),
{
    let a: int = if t.len() > 0 && t[0] == '-' { 1 } else { 0 };
    lemma_digits_end_props(t, a);
    let e1 = digits_end(t, a);
    let has_frac = e1 < t.len() && t[e1] == '.';
    if has_frac {
        lemma_digits_end_props(t, e1 + 1);
    }
    let e2 = if has_frac { digits_end(t, e1 + 1) } else { e1 };
    let m = if has_frac { t.subrange(a, e1) + t.subrange(e1 + 1, e2) } else { t.subrange(a, e1) };
    assert forall|k: int| 0 <= k < m.len() implies is_digit(#[trigger] m[k]) by {
        if has_frac && k >= e1 - a {
            assert(m[k] == t[e1 + 1 + (k - (e1 - a))]);
        } else {
            assert(m[k] == t[a + k]);
        }
    }
    lemma_lead_end(m, 0);
    let lead = lead_end(m, 0);
    lemma_trail_start(m, lead, m.len() as int);
    let d = decimal_of_text(t).unwrap();
    assert(d.digits == m.subrange(lead, trail_start(m, lead, m.len() as int)));
}

proof fn lemma_digits_end_run(s: Seq<char>, i: int, j: int)
    requires
        0 <= i <= j <= s.len(),
        forall|k: int| i <= k < j ==> is_digit(#[trigger] s[k]),
        j == s.len() || !is_digit(s[j]),
    ensures
        digits_end(s, i) == j,
    decreases j - i,
{
    if i < j {
        lemma_digits_end_run(s, i + 1, j);
    }
}

proof fn lemma_digit_chars(x: int)
    requires
        0 <= x < 10,
    ensures
        is_digit(digit_chars()[x]),
{
    assert(digit_chars()[0] == '0' && digit_chars()[1] == '1' && digit_chars()[2] == '2'
        && digit_chars()[3] == '3' && digit_chars()[4] == '4' && digit_chars()[5] == '5'
        && digit_chars()[6] == '6' && digit_chars()[7] == '7' && digit_chars()[8] == '8'
        && digit_chars()[9] == '9');
}

proof fn lemma_nat_text_digits(v: nat)
    ensures
        nat_text(v).len() > 0,
        forall|k: int| 0 <= k < nat_text(v).len() ==> is_digit(#[trigger] nat_text(v)[k]),
    decreases v,
{
    lemma_digit_chars((v % 10) as int);
    if v < 10 {
        lemma_digit_chars(v as int);
    } else {
        lemma_nat_text_digits(v / 10);
        let p = nat_text(v / 10);
        let q = seq![digit_chars()[(v % 10) as int]];
        assert forall|k: int| 0 <= k < nat_text(v).len() implies is_digit(#[trigger] nat_text(v)[k]) by {
            if k < p.len() {
                assert(nat_text(v)[k] == p[k]);
            } else {
                assert(nat_text(v)[k] == q[0]);
            }
        }
    }
}

/// The ECMAScript text of a well-formed decimal is one JSON number literal.
pub proof fn lemma_ecma_text_valid(d: Decimal)
    requires
        decimal_wf(d),
    ensures
        valid_number_token(ecma_text(d)),
{
    let ds = d.digits;
    let k = ds.len() as int;
    let n = d.point;
    let s = ecma_text(d);
    if k == 0 {
        assert(s == seq!['0']);
        lemma_digits_end_run(s, 1, 1);
    } else {
        let body = if k <= n && n <= 21 {
            ds + zeros(n - k)
        } else if 0 < n && n <= 21 {
            ds.subrange(0, n) + seq!['.'] + ds.subrange(n, k)
        } else if -6 < n && n <= 0 {
            seq!['0', '.'] + zeros(-n) + ds
        } else {
            let e = n - 1;
            let mant = if k == 1 {
                ds
            } else {
                ds.subrange(0, 1) + seq!['.'] + ds.subrange(1, k)
            };
            mant + seq!['e'] + (if e >= 0 {
                seq!['+']
            } else {
                seq!['-']
            }) + nat_text(abs_int(e))
        };
        let a: int = if d.negative { 1 } else { 0 };
        assert(s.len() == a + body.len());
        assert forall|x: int| 0 <= x < body.len() implies #[trigger] s[a + x] == body[x] by {
            if d.negative {
                assert(s == seq!['-'] + body);
            } else {
                assert(s == body);
            }
        }
        if d.negative {
            assert(s[0] == '-');
        } else {
            assert(s[0] == body[0]);
        }
        if k <= n && n <= 21 {
            assert(body[0] == ds[0]);
            assert forall|x: int| a + 1 <= x < s.len() implies is_digit(#[trigger] s[x]) by {
                assert(s[a + (x - a)] == body[x - a]);
                if x - a < k {
                    assert(body[x - a] == ds[x - a]);
                } else {
                    assert(body[x - a] == '0');
                }
            }
            lemma_digits_end_run(s, a + 1, s.len() as int);
        } else if 0 < n && n <= 21 {
            assert(body[0] == ds[0]);
            assert(body[n] == '.');
            assert(s[a + n] == '.');
            assert forall|x: int| a + 1 <= x < a + n implies is_digit(#[trigger] s[x]) by {
                assert(s[a + (x - a)] == body[x - a]);
                assert(body[x - a] == ds[x - a]);
            }
            lemma_digits_end_run(s, a + 1, a + n);
            assert forall|x: int| a + n + 1 <= x < s.len() implies is_digit(#[trigger] s[x]) by {
                assert(s[a + (x - a)] == body[x - a]);
                assert(body[x - a] == ds[x - a - 1]);
            }
            lemma_digits_end_run(s, a + n + 1, s.len() as int);
        } else if -6 < n && n <= 0 {
            assert(body[0] == '0');
            assert(body[1] == '.');
            assert(s[a] == '0');
            assert(s[a + 1] == '.');
            assert forall|x: int| a + 2 <= x < s.len() implies is_digit(#[trigger] s[x]) by {
                assert(s[a + (x - a)] == body[x - a]);
                if x - a - 2 < -n {
                    assert(body[x - a] == '0');
                } else {
                    assert(body[x - a] == ds[x - a - 2 + n]);
                }
            }
            lemma_digits_end_run(s, a + 2, s.len() as int);
        } else {
            let e = n - 1;
            let mant = if k == 1 {
                ds
            } else {
                ds.subrange(0, 1) + seq!['.'] + ds.subrange(1, k)
            };
            let sign = if e >= 0 {
                seq!['+']
            } else {
                seq!['-']
            };
            let nt = nat_text(abs_int(e));
            lemma_nat_text_digits(abs_int(e));
            let ml = mant.len() as int;
            assert(body == mant + seq!['e'] + sign + nt);
            assert(body[0] == ds[0]);
            assert(body[ml] == 'e');
            assert(s[a + ml] == 'e');
            assert(body[ml + 1] == sign[0]);
            assert(s[a + ml + 1] == '+' || s[a + ml + 1] == '-');
            if k == 1 {
                assert(ml == 1);
                lemma_digits_end_run(s, a + 1, a + 1);
            } else {
                assert(body[1] == '.');
                assert(s[a + 1] == '.');
                lemma_digits_end_run(s, a + 1, a + 1);
                assert forall|x: int| a + 2 <= x < a + ml implies is_digit(#[trigger] s[x]) by {
                    assert(s[a + (x - a)] == body[x - a]);
                    assert(body[x - a] == ds[x - a - 1]);
                }
                lemma_digits_end_run(s, a + 2, a + ml);
            }
            assert forall|x: int| a + ml + 2 <= x < s.len() implies is_digit(#[trigger] s[x]) by {
                assert(s[a + (x - a)] == body[x - a]);
                assert(body[x - a] == nt[x - a - ml - 2]);
            }
            lemma_digits_end_run(s, a + ml + 2, s.len() as int);
        }
    }
}

/// The canonical text of a number literal, when the rendering it came from
/// reads back, is its own canonical text.
pub proof fn lemma_canonical_number_stable(token: Seq<char>)
    requires
        number_text(token) is Some,
        rendering_round_trips(rendered_double(token).unwrap()),
    ensures
        number_text(number_text(token).unwrap()) == number_text(token),
{
    let r = rendered_double(token).unwrap();
    let d = decimal_of_text(r).unwrap();
    let n = ecma_text(d);
    lemma_decimal_of_text_wf(r);
    lemma_ecma_text_valid(d);
    let r2 = rendered_double(n).unwrap();
    let d2 = decimal_of_text(r2).unwrap();
    if d.digits.len() == 0 {
        assert(n == seq!['0']);
        assert(!significand_has_nonzero_digit(n));
        assert(ecma_text(d2) == n);
    } else {
        assert(d2 == d);
    }
}

/// The double nearest to the JSON number literal `token`, rendered by
/// `serde_json` as its shortest round-trip decimal.
///
/// Trusted: parses with `serde_json::Number::from_str` (correctly rounded under
/// the `float_roundtrip` feature; `None` for a literal whose magnitude overflows
/// the double range), takes the value as a double with `Number::as_f64`, and
/// renders it through `Number::from_f64` and `Display` (the shortest decimal
/// that reads back to that double). The result is only named (see
/// [`rendered_double`]); the one further claim is that the rendering reads
/// back: the same value spelt another way (its ECMAScript spelling) parses to
/// the same double and so renders to the same number again
/// ([`rendering_round_trips`]). Nothing about the rendering's shape is assumed.
#[verifier::external_body]
fn render_double(token: &str) -> (r: Option<String>)
    ensures
        opt_string_view(r) == rendered_double(token@),
        r matches Some(rs) ==> rendering_round_trips(rs@),
{
    match <serde_json::Number as core::str::FromStr>::from_str(token) {
        Ok(n) => n.as_f64().and_then(serde_json::Number::from_f64).map(|d| d.to_string()),
        Err(_) => None,
    }
}

/// Index of the first non-digit at or after `i`.
pub fn scan_digits(s: &[char], i: usize) -> (r: usize)
    requires
        i <= s.len(),
    ensures
        r as int == digits_end(s@, i as int),
        i <= r <= s.len(),
{
    let mut j = i;
    while j < s.len() && '0' <= s[j] && s[j] <= '9'
        invariant
            i <= j <= s.len(),
            digits_end(s@, j as int) == digits_end(s@, i as int),
        decreases s.len() - j,
    {
        j = j + 1;
    }
    j
}

/// End of the JSON number literal that starts at `i` (see [`number_end`]).
pub fn number_token_end(s: &[char], i: usize) -> (r: Option<usize>)
    requires
        i <= s.len(),
    ensures
        match r {
            Some(e) => number_end(s@, i as int) == Some(e as int) && i < e <= s.len(),
            None => number_end(s@, i as int) is None,
        },
{
    let a = if i < s.len() && s[i] == '-' {
        i + 1
    } else {
        i
    };
    if !(a < s.len() && '0' <= s[a] && s[a] <= '9') {
        return None;
    }
    let b = if s[a] == '0' {
        a + 1
    } else {
        scan_digits(s, a + 1)
    };
    let has_frac = b < s.len() && s[b] == '.';
    let c = if has_frac {
        scan_digits(s, b + 1)
    } else {
        b
    };
    if has_frac && c == b + 1 {
        return None;
    }
    if c < s.len() && (s[c] == 'e' || s[c] == 'E') {
        let d = if c + 1 < s.len() && (s[c + 1] == '+' || s[c + 1] == '-') {
            c + 2
        } else {
            c + 1
        };
        let e = scan_digits(s, d);
        if e == d {
            None
        } else {
            Some(e)
        }
    } else {
        Some(c)
    }
}

/// Appends `t[lo..hi]` to `out`.
pub fn push_range(t: &[char], lo: usize, hi: usize, out: &mut Vec<char>)
    requires
        lo <= hi <= t.len(),
    ensures
        final(out)@ == old(out)@ + t@.subrange(lo as int, hi as int),
{
    let mut j = lo;
    while j < hi
        invariant
            lo <= j <= hi <= t.len(),
            out@ == old(out)@ + t@.subrange(lo as int, j as int),
        decreases hi - j,
    {
        out.push(t[j]);
        assert(t@.subrange(lo as int, j + 1) =~= t@.subrange(lo as int, j as int) + seq![t@[j as int]]);
        j = j + 1;
    }
}

/// The exponent suffix of a rendering (see [`exponent_of`]).
fn exponent_suffix(t: &[char], p: usize) -> (r: Option<i64>)
    requires
        p <= t.len(),
    ensures
        match r {
            Some(x) => exponent_of(t@, p as int) == Some(x as int),
            None => exponent_of(t@, p as int) is None,
        },
{
    if p == t.len() {
        return Some(0);
    }
    if !(t[p] == 'e' || t[p] == 'E') {
        return None;
    }
    let neg = p + 1 < t.len() && t[p + 1] == '-';
    let q = if p + 1 < t.len() && (t[p + 1] == '+' || t[p + 1] == '-') {
        p + 2
    } else {
        p + 1
    };
    let r = scan_digits(t, q);
    if r == q || r != t.len() || r - q > 9 {
        return None;
    }
    proof {
        lemma_digits_end_props(t@, q as int);
    }
    let mut v: i64 = 0;
    let mut j = q;
    while j < r
        invariant
            q <= j <= r <= t.len(),
            r - q <= 9,
            forall|k: int| q <= k < r ==> is_digit(#[trigger] t@[k]),
            v == digits_value(t@.subrange(q as int, j as int)),
            0 <= v,
            v < pow10((j - q) as nat),
        decreases r - j,
    {
        let d = (t[j] as u32 - '0' as u32) as i64;
        assert(t@.subrange(q as int, j + 1).drop_last() =~= t@.subrange(q as int, j as int));
        assert(pow10((j + 1 - q) as nat) == pow10((j - q) as nat) * 10);
        assert(v * 10 + d < pow10((j + 1 - q) as nat)) by (nonlinear_arith)
            requires
                v < pow10((j - q) as nat),
                0 <= d < 10,
                pow10((j + 1 - q) as nat) == pow10((j - q) as nat) * 10,
        ;
        assert(pow10((j + 1 - q) as nat) <= 1_000_000_000) by {
            lemma_pow10_mono((j + 1 - q) as nat, 9);
            reveal_with_fuel(pow10, 10);
        }
        v = v * 10 + d;
        j = j + 1;
    }
    if neg {
        Some(-v)
    } else {
        Some(v)
    }
}

/// Reads a plain decimal rendering (see [`decimal_of_text`]).
fn decimal_from_text(t: &[char]) -> (r: Option<(bool, Vec<char>, i128)>)
    ensures
        match r {
            Some((neg, ds, pt)) => decimal_of_text(t@) == Some(
                Decimal { negative: neg, digits: ds@, point: pt as int },
            ),
            None => decimal_of_text(t@) is None,
        },
        r matches Some((neg, ds, pt)) ==> -0x1_0000_0000_0000_0000_0000 < pt
            < 0x1_0000_0000_0000_0000_0000,
{
    let a: usize = if t.len() > 0 && t[0] == '-' {
        1
    } else {
        0
    };
    let e1 = scan_digits(t, a);
    let has_frac = e1 < t.len() && t[e1] == '.';
    let e2 = if has_frac {
        scan_digits(t, e1 + 1)
    } else {
        e1
    };
    if e1 == a || (has_frac && e2 == e1 + 1) {
        return None;
    }
    let f: usize = if has_frac {
        e2 - e1 - 1
    } else {
        0
    };
    let mut m: Vec<char> = Vec::new();
    push_range(t, a, e1, &mut m);
    if has_frac {
        push_range(t, e1 + 1, e2, &mut m);
    }
    let ghost sm = if has_frac {
        t@.subrange(a as int, e1 as int) + t@.subrange(e1 + 1, e2 as int)
    } else {
        t@.subrange(a as int, e1 as int)
    };
    assert(m@ =~= sm);
    let x = match exponent_suffix(t, e2) {
        Some(x) => x,
        None => {
            return None;
        },
    };
    let mut lead: usize = 0;
    while lead < m.len() && m[lead] == '0'
        invariant
            lead <= m.len(),
            lead_end(m@, lead as int) == lead_end(m@, 0),
        decreases m.len() - lead,
    {
        lead = lead + 1;
    }
    let mut trail: usize = m.len();
    while trail > lead && m[trail - 1] == '0'
        invariant
            lead <= trail <= m.len(),
            trail_start(m@, lead as int, trail as int) == trail_start(
                m@,
                lead as int,
                m.len() as int,
            ),
        decreases trail,
    {
        trail = trail - 1;
    }
    let mut ds: Vec<char> = Vec::new();
    push_range(m.as_slice(), lead, trail, &mut ds);
    assert(x <= 1_000_000_000 && x >= -1_000_000_000) by {
        lemma_exponent_bound(t@, e2 as int);
    }
    let point: i128 = (m.len() - lead) as i128 + x as i128 - f as i128;
    Some((a == 1, ds, point))
}

proof fn lemma_exponent_bound(t: Seq<char>, p: int)
    requires
        exponent_of(t, p) is Some,
    ensures
        -1_000_000_000 <= exponent_of(t, p).unwrap() <= 1_000_000_000,
{
    if p != t.len() {
        let q = if p + 1 < t.len() && (t[p + 1] == '+' || t[p + 1] == '-') {
            p + 2
        } else {
            p + 1
        };
        let r = digits_end(t, q);
        lemma_digits_end_props(t, q);
        assert forall|k: int| 0 <= k < t.subrange(q, r).len() implies is_digit(
            t.subrange(q, r)[k],
        ) by {
            assert(t.subrange(q, r)[k] == t[q + k]);
        }
        lemma_digits_value_bound(t.subrange(q, r));
        lemma_pow10_mono((r - q) as nat, 9);
        reveal_with_fuel(pow10, 10);
    }
}

proof fn lemma_digits_value_bound(s: Seq<char>)
    ensures
        digits_value(s) < pow10(s.len()) || exists|k: int| 0 <= k < s.len() && !is_digit(s[k]),
    decreases s.len(),
{
    if s.len() > 0 {
        lemma_digits_value_bound(s.drop_last());
        if exists|k: int| 0 <= k < s.drop_last().len() && !is_digit(s.drop_last()[k]) {
            let k = choose|k: int| 0 <= k < s.drop_last().len() && !is_digit(s.drop_last()[k]);
            assert(!is_digit(s[k]));
        } else if is_digit(s.last()) {
            let d = (s.last() as u32 - '0' as u32) as nat;
            assert(digits_value(s.drop_last()) * 10 + d < pow10(s.len())) by (nonlinear_arith)
                requires
                    digits_value(s.drop_last()) < pow10(s.drop_last().len()),
                    d < 10,
                    pow10(s.len()) == 10 * pow10(s.drop_last().len()),
            ;
        } else {
            assert(!is_digit(s[s.len() - 1]));
        }
    }
}

fn digit_char_of(v: u128) -> (c: char)
    requires
        v < 10,
    ensures
        c == digit_chars()[v as int],
{
    if v == 0 {
        '0'
    } else if v == 1 {
        '1'
    } else if v == 2 {
        '2'
    } else if v == 3 {
        '3'
    } else if v == 4 {
        '4'
    } else if v == 5 {
        '5'
    } else if v == 6 {
        '6'
    } else if v == 7 {
        '7'
    } else if v == 8 {
        '8'
    } else {
        '9'
    }
}

/// Decimal digits of `v` (see [`nat_text`]).
fn nat_text_of(v: u128) -> (r: Vec<char>)
    ensures
        r@ == nat_text(v as nat),
    decreases v,
{
    if v < 10 {
        let mut r: Vec<char> = Vec::new();
        r.push(digit_char_of(v));
        assert(r@ =~= nat_text(v as nat));
        r
    } else {
        let mut r = nat_text_of(v / 10);
        r.push(digit_char_of(v % 10));
        assert(r@ =~= nat_text(v as nat));
        r
    }
}

fn push_zeros(out: &mut Vec<char>, count: usize)
    ensures
        final(out)@ == old(out)@ + zeros(count as int),
{
    let mut j: usize = 0;
    while j < count
        invariant
            j <= count,
            out@ =~= old(out)@ + zeros(j as int),
        decreases count - j,
    {
        out.push('0');
        j = j + 1;
    }
}

/// ECMAScript layout of a decimal (see [`ecma_text`]).
fn ecma_layout(neg: bool, ds: &[char], point: i128) -> (r: Vec<char>)
    requires
        -0x1_0000_0000_0000_0000_0000 < point < 0x1_0000_0000_0000_0000_0000,
    ensures
        r@ == ecma_text(Decimal { negative: neg, digits: ds@, point: point as int }),
{
    let ghost d = Decimal { negative: neg, digits: ds@, point: point as int };
    let k = ds.len();
    if k == 0 {
        let mut z: Vec<char> = Vec::new();
        z.push('0');
        assert(z@ =~= ecma_text(d));
        return z;
    }
    let kk = k as i128;
    let n = point;
    let mut body: Vec<char> = Vec::new();
    if kk <= n && n <= 21 {
        push_range(ds, 0, k, &mut body);
        push_zeros(&mut body, (n - kk) as usize);
        assert(ds@.subrange(0, k as int) =~= ds@);
    } else if 0 < n && n <= 21 {
        push_range(ds, 0, n as usize, &mut body);
        body.push('.');
        push_range(ds, n as usize, k, &mut body);
    } else if -6 < n && n <= 0 {
        body.push('0');
        body.push('.');
        push_zeros(&mut body, (-n) as usize);
        push_range(ds, 0, k, &mut body);
        assert(ds@.subrange(0, k as int) =~= ds@);
    } else {
        let e = n - 1;
        push_range(ds, 0, 1, &mut body);
        if k > 1 {
            body.push('.');
            push_range(ds, 1, k, &mut body);
        } else {
            assert(ds@.subrange(0, 1) =~= ds@);
        }
        body.push('e');
        if e >= 0 {
            body.push('+');
        } else {
            body.push('-');
        }
        let ae: u128 = if e < 0 {
            (-e) as u128
        } else {
            e as u128
        };
        let digits = nat_text_of(ae);
        push_range(digits.as_slice(), 0, digits.len(), &mut body);
        assert(digits@.subrange(0, digits@.len() as int) =~= digits@);
    }
    let ghost expected_body = if k <= n && n <= 21 {
        ds@ + zeros(n - k)
    } else if 0 < n && n <= 21 {
        ds@.subrange(0, n as int) + seq!['.'] + ds@.subrange(n as int, k as int)
    } else if -6 < n && n <= 0 {
        seq!['0', '.'] + zeros(-n) + ds@
    } else {
        let e = n - 1;
        let mant = if k == 1 {
            ds@
        } else {
            ds@.subrange(0, 1) + seq!['.'] + ds@.subrange(1, k as int)
        };
        mant + seq!['e'] + (if e >= 0 {
            seq!['+']
        } else {
            seq!['-']
        }) + nat_text(abs_int(e as int))
    };
    assert(body@ =~= expected_body);
    if neg {
        let mut out: Vec<char> = Vec::new();
        out.push('-');
        push_range(body.as_slice(), 0, body.len(), &mut out);
        assert(body@.subrange(0, body@.len() as int) =~= body@);
        assert(out@ =~= ecma_text(d));
        out
    } else {
        assert(body@ =~= ecma_text(d));
        body
    }
}

/// RFC 8785 canonical text of the number literal `token`, given what
/// `serde_json` renders for its nearest double (see
/// [`canonical_from_rendering`]).
pub fn canonical_number_from_rendering(token: &str, rendered: &str) -> (r: Option<String>)
    ensures
        opt_string_view(r) == canonical_from_rendering(token@, rendered@),
{
    let t = chars_of(rendered);
    let dec = match decimal_from_text(t.as_slice()) {
        Some(d) => d,
        None => {
            return None;
        },
    };
    let (neg, ds, point) = dec;
    if ds.len() == 0 {
        let tok = chars_of(token);
        let mut j: usize = 0;
        let mut found = false;
        while j < tok.len() && !found && tok[j] != 'e' && tok[j] != 'E'
            invariant
                j <= tok.len(),
                tok@ == token@,
                found ==> significand_has_nonzero_digit(token@),
                forall|k: int| 0 <= k < j ==> tok@[k] != 'e' && tok@[k] != 'E',
                !found ==> forall|k: int| 0 <= k < j ==> !is_nonzero_digit(#[trigger] tok@[k]),
            decreases tok.len() - j,
        {
            if '1' <= tok[j] && tok[j] <= '9' {
                assert(is_nonzero_digit(tok@[j as int]));
                assert(forall|i: int| 0 <= i <= j ==> tok@[i] != 'e' && tok@[i] != 'E');
                found = true;
            }
            j = j + 1;
        }
        if !found {
            assert(!significand_has_nonzero_digit(token@)) by {
                if significand_has_nonzero_digit(token@) {
                    let k = choose|k: int|
                        0 <= k < token@.len() && is_nonzero_digit(#[trigger] token@[k]) && forall|i: int|
                            0 <= i <= k ==> token@[i] != 'e' && token@[i] != 'E';
                    if k < j {
                        assert(!is_nonzero_digit(tok@[k]));
                    } else {
                        assert(token@[j as int] != 'e' && token@[j as int] != 'E');
                    }
                }
            }
        }
        if found {
            return None;
        }
    }
    let out = ecma_layout(neg, ds.as_slice(), point);
    Some(string_from_chars(out.as_slice()))
}

/// RFC 8785 canonical text of the JSON number literal `token` (see
/// [`number_text`]): `None` when `token` is not a number literal, is beyond the
/// double range, or underflows to zero.
pub fn canonical_number(token: &str) -> (r: Option<String>)
    ensures
        opt_string_view(r) == number_text(token@),
        r matches Some(n) ==> number_text(n@) == Some(n@),
{
    let t = chars_of(token);
    match number_token_end(t.as_slice(), 0) {
        Some(e) => {
            if e != t.len() {
                return None;
            }
        },
        None => {
            return None;
        },
    }
    match render_double(token) {
        Some(rendered) => {
            let r = canonical_number_from_rendering(token, rendered.as_str());
            proof {
                if r is Some {
                    lemma_canonical_number_stable(token@);
                }
            }
            r
        },
        None => None,
    }
}

pub open spec fn pow10(n: nat) -> int
    decreases n,
{
    if n == 0 {
        1
    } else {
        10 * pow10((n - 1) as nat)
    }
}

proof fn lemma_pow10_mono(a: nat, b: nat)
    requires
        a <= b,
    ensures
        1 <= pow10(a) <= pow10(b),
    decreases b,
{
    if a < b {
        lemma_pow10_mono(a, (b - 1) as nat);
    } else if a > 0 {
        lemma_pow10_mono((a - 1) as nat, (a - 1) as nat);
    }
}

pub proof fn lemma_digits_end_props(s: Seq<char>, i: int)
    requires
        0 <= i <= s.len(),
    ensures
        i <= digits_end(s, i) <= s.len(),
        forall|k: int| i <= k < digits_end(s, i) ==> is_digit(#[trigger] s[k]),
        digits_end(s, i) < s.len() ==> !is_digit(s[digits_end(s, i)]),
    decreases s.len() - i,
{
    if i < s.len() && is_digit(s[i]) {
        lemma_digits_end_props(s, i + 1);
    }
}

/// RFC 8785 number layout: the ECMAScript text of a nonzero number uses the
/// exponent form exactly when its decimal point position `n` (the value is
/// `0.d1d2…dk × 10^n`) is at most -6 or above 21, whatever the number of
/// digits; otherwise it is written positionally.
pub proof fn lemma_ecma_exponent_form(d: Decimal)
    requires
        decimal_wf(d),
        d.digits.len() > 0,
    ensures
        ecma_text(d).contains('e') <==> (d.point <= -6 || d.point > 21),
{
    let ds = d.digits;
    let k = ds.len() as int;
    let n = d.point;
    let s = ecma_text(d);
    let body = if k <= n && n <= 21 {
        ds + zeros(n - k)
    } else if 0 < n && n <= 21 {
        ds.subrange(0, n) + seq!['.'] + ds.subrange(n, k)
    } else if -6 < n && n <= 0 {
        seq!['0', '.'] + zeros(-n) + ds
    } else {
        let e = n - 1;
        let mant = if k == 1 {
            ds
        } else {
            ds.subrange(0, 1) + seq!['.'] + ds.subrange(1, k)
        };
        mant + seq!['e'] + (if e >= 0 {
            seq!['+']
        } else {
            seq!['-']
        }) + nat_text(abs_int(e))
    };
    let a: int = if d.negative { 1 } else { 0 };
    if d.negative {
        assert(s == seq!['-'] + body);
    } else {
        assert(s == body);
    }
    assert forall|x: int| 0 <= x < body.len() implies #[trigger] s[a + x] == body[x] by {}
    if -6 < n && n <= 21 {
        assert forall|i: int| 0 <= i < s.len() implies s[i] != 'e' by {
            if i >= a {
                let x = i - a;
                assert(s[a + x] == body[x]);
                if k <= n && n <= 21 {
                    if x < k {
                        assert(is_digit(ds[x]));
                    }
                } else if 0 < n && n <= 21 {
                    if x < n {
                        assert(is_digit(ds[x]));
                    } else if x > n {
                        assert(body[x] == ds[x - 1]);
                        assert(is_digit(ds[x - 1]));
                    }
                } else {
                    if x >= 2 - n {
                        assert(body[x] == ds[x - 2 + n]);
                        assert(is_digit(ds[x - 2 + n]));
                    }
                }
            }
        }
    } else {
        let mant = if k == 1 {
            ds
        } else {
            ds.subrange(0, 1) + seq!['.'] + ds.subrange(1, k)
        };
        assert(body[mant.len() as int] == 'e');
        assert(s[a + mant.len()] == 'e');
    }
}

proof fn lemma_lead_end_run(m: Seq<char>, i: int, j: int)
    requires
        0 <= i <= j <= m.len(),
        forall|x: int| i <= x < j ==> #[trigger] m[x] == '0',
        j == m.len() || m[j] != '0',
    ensures
        lead_end(m, i) == j,
    decreases j - i,
{
    if i < j {
        lemma_lead_end_run(m, i + 1, j);
    }
}

proof fn lemma_trail_start_run(m: Seq<char>, lo: int, j: int, j2: int)
    requires
        0 <= lo <= j2 <= j <= m.len(),
        forall|x: int| j2 <= x < j ==> #[trigger] m[x] == '0',
        j2 == lo || m[j2 - 1] != '0',
    ensures
        trail_start(m, lo, j) == j2,
    decreases j - j2,
{
    if j2 < j {
        lemma_trail_start_run(m, lo, j - 1, j2);
    }
}

proof fn lemma_digit_chars_value(x: int)
    requires
        0 <= x < 10,
    ensures
        (digit_chars()[x] as u32 - '0' as u32) as nat == x,
        is_digit(digit_chars()[x]),
{
    assert(digit_chars()[0] == '0' && digit_chars()[1] == '1' && digit_chars()[2] == '2'
        && digit_chars()[3] == '3' && digit_chars()[4] == '4' && digit_chars()[5] == '5'
        && digit_chars()[6] == '6' && digit_chars()[7] == '7' && digit_chars()[8] == '8'
        && digit_chars()[9] == '9');
}

proof fn lemma_nat_text_value(v: nat)
    ensures
        digits_value(nat_text(v)) == v,
    decreases v,
{
    lemma_digit_chars_value((v % 10) as int);
    if v < 10 {
        let t = nat_text(v);
        lemma_digit_chars_value(v as int);
        assert(t.drop_last() =~= Seq::<char>::empty());
        assert(digits_value(Seq::<char>::empty()) == 0);
        assert(digits_value(t) == digits_value(t.drop_last()) * 10 + ((t.last() as u32 - '0' as u32) as nat));
    } else {
        lemma_nat_text_value(v / 10);
        let t = nat_text(v);
        assert(t.drop_last() =~= nat_text(v / 10));
        assert(t.last() == digit_chars()[(v % 10) as int]);
        assert(digits_value(t) == digits_value(t.drop_last()) * 10 + ((t.last() as u32 - '0' as u32) as nat));
        assert((v / 10) * 10 + v % 10 == v);
    }
}

proof fn lemma_nat_text_short(v: nat, m: nat)
    requires
        1 <= m,
        v < pow10(m),
    ensures
        nat_text(v).len() <= m,
    decreases v,
{
    if v >= 10 {
        assert(m >= 2) by {
            if m == 1 {
                assert(pow10(1) == 10 * pow10(0));
            }
        }
        assert(pow10(m) == 10 * pow10((m - 1) as nat));
        assert(v / 10 < pow10((m - 1) as nat));
        lemma_nat_text_short(v / 10, (m - 1) as nat);
    }
}

/// A decimal in lowest terms: well formed, and its last digit is not `0`.
pub open spec fn decimal_normal(d: Decimal) -> bool {
    &&& decimal_wf(d)
    &&& d.digits.len() > 0 ==> d.digits[d.digits.len() - 1] != '0'
}

/// `body` with a leading `-` when `negative`.
pub open spec fn signed(negative: bool, body: Seq<char>) -> Seq<char> {
    if negative {
        seq!['-'] + body
    } else {
        body
    }
}

proof fn lemma_signed(negative: bool, body: Seq<char>)
    requires
        body.len() > 0,
        body[0] != '-',
    ensures
        ({
            let t = signed(negative, body);
            let a: int = if negative { 1 } else { 0 };
            &&& t.len() == a + body.len()
            &&& forall|x: int| 0 <= x < body.len() ==> #[trigger] t[a + x] == body[x]
            &&& (t.len() > 0 && t[0] == '-') == negative
        }),
{
    let t = signed(negative, body);
    let a: int = if negative { 1 } else { 0 };
    assert forall|x: int| 0 <= x < body.len() implies #[trigger] t[a + x] == body[x] by {}
    assert(t[a] == body[0]);
}

#[verifier::spinoff_prover]
proof fn lemma_denotes_integer(d: Decimal)
    requires
        decimal_normal(d),
        d.digits.len() > 0,
        d.digits.len() <= d.point <= 21,
    ensures
        decimal_of_text(signed(d.negative, d.digits + zeros(d.point - d.digits.len()))) == Some(d),
{
    let ds = d.digits;
    let k = ds.len() as int;
    let n = d.point;
    let body = ds + zeros(n - k);
    assert(body[0] == ds[0]);
    lemma_signed(d.negative, body);
    let t = signed(d.negative, body);
    let a: int = if d.negative { 1 } else { 0 };
    assert forall|x: int| a <= x < t.len() implies is_digit(#[trigger] t[x]) by {
        assert(t[a + (x - a)] == body[x - a]);
        if x - a < k {
            assert(body[x - a] == ds[x - a]);
        } else {
            assert(body[x - a] == '0');
        }
    }
    lemma_digits_end_run(t, a, t.len() as int);
    let m = t.subrange(a, t.len() as int);
    assert forall|x: int| 0 <= x < m.len() implies #[trigger] m[x] == body[x] by {
        assert(t[a + x] == body[x]);
    }
    assert(m =~= body);
    lemma_lead_end_run(m, 0, 0);
    assert forall|x: int| k <= x < n implies #[trigger] m[x] == '0' by {
        assert(m[x] == body[x]);
    }
    assert(m[k - 1] == ds[k - 1]);
    lemma_trail_start_run(m, 0, n, k);
    assert(m.subrange(0, k) =~= ds);
}

#[verifier::spinoff_prover]
proof fn lemma_denotes_fraction(d: Decimal)
    requires
        decimal_normal(d),
        0 < d.point < d.digits.len(),
        d.point <= 21,
    ensures
        decimal_of_text(
            signed(
                d.negative,
                d.digits.subrange(0, d.point) + seq!['.'] + d.digits.subrange(d.point, d.digits.len() as int),
            ),
        ) == Some(d),
{
    let ds = d.digits;
    let k = ds.len() as int;
    let n = d.point;
    let body = ds.subrange(0, n) + seq!['.'] + ds.subrange(n, k);
    assert(body[0] == ds[0]);
    lemma_signed(d.negative, body);
    let t = signed(d.negative, body);
    let a: int = if d.negative { 1 } else { 0 };
    assert forall|x: int| a <= x < a + n implies is_digit(#[trigger] t[x]) by {
        assert(t[a + (x - a)] == body[x - a]);
        assert(body[x - a] == ds[x - a]);
    }
    assert(t[a + n] == body[n]);
    lemma_digits_end_run(t, a, a + n);
    assert forall|x: int| a + n + 1 <= x < t.len() implies is_digit(#[trigger] t[x]) by {
        assert(t[a + (x - a)] == body[x - a]);
        assert(body[x - a] == ds[x - a - 1]);
    }
    lemma_digits_end_run(t, a + n + 1, t.len() as int);
    let m = t.subrange(a, a + n) + t.subrange(a + n + 1, t.len() as int);
    assert forall|x: int| 0 <= x < k implies #[trigger] m[x] == ds[x] by {
        if x < n {
            assert(m[x] == t[a + x]);
            assert(body[x] == ds[x]);
        } else {
            assert(m[x] == t[a + x + 1]);
            assert(body[x + 1] == ds[x]);
        }
    }
    assert(m =~= ds);
    lemma_lead_end_run(m, 0, 0);
    lemma_trail_start_run(m, 0, k, k);
    assert(m.subrange(0, k) =~= ds);
}

#[verifier::spinoff_prover]
proof fn lemma_denotes_small(d: Decimal)
    requires
        decimal_normal(d),
        d.digits.len() > 0,
        -6 < d.point <= 0,
    ensures
        decimal_of_text(signed(d.negative, seq!['0', '.'] + zeros(-d.point) + d.digits)) == Some(d),
{
    let ds = d.digits;
    let k = ds.len() as int;
    let n = d.point;
    let z = -n;
    let body = seq!['0', '.'] + zeros(z) + ds;
    assert(body[0] == '0');
    lemma_signed(d.negative, body);
    let t = signed(d.negative, body);
    let a: int = if d.negative { 1 } else { 0 };
    assert(t[a] == '0');
    assert(t[a + 1] == body[1]);
    lemma_digits_end_run(t, a, a + 1);
    assert forall|x: int| a + 2 <= x < t.len() implies is_digit(#[trigger] t[x]) by {
        assert(t[a + (x - a)] == body[x - a]);
        if x - a - 2 < z {
            assert(body[x - a] == '0');
        } else {
            assert(body[x - a] == ds[x - a - 2 - z]);
        }
    }
    lemma_digits_end_run(t, a + 2, t.len() as int);
    let m = t.subrange(a, a + 1) + t.subrange(a + 2, t.len() as int);
    assert(m.len() == 1 + z + k);
    assert forall|x: int| 0 <= x < 1 + z implies #[trigger] m[x] == '0' by {
        if x == 0 {
            assert(m[0] == t[a]);
        } else {
            assert(m[x] == t[a + x + 1]);
            assert(body[x + 1] == '0');
        }
    }
    assert forall|x: int| 0 <= x < k implies #[trigger] m[1 + z + x] == ds[x] by {
        assert(m[1 + z + x] == t[a + 2 + z + x]);
        assert(body[2 + z + x] == ds[x]);
    }
    assert(m[1 + z] == ds[0]);
    lemma_lead_end_run(m, 0, 1 + z);
    assert(m[1 + z + k - 1] == ds[k - 1]);
    lemma_trail_start_run(m, 1 + z, 1 + z + k, 1 + z + k);
    assert(m.subrange(1 + z, 1 + z + k) =~= ds);
}

pub open spec fn exponent_body(ds: Seq<char>, n: int) -> Seq<char> {
    let k = ds.len() as int;
    let e = n - 1;
    let mant = if k == 1 {
        ds
    } else {
        ds.subrange(0, 1) + seq!['.'] + ds.subrange(1, k)
    };
    mant + seq!['e'] + (if e >= 0 {
        seq!['+']
    } else {
        seq!['-']
    }) + nat_text(abs_int(e))
}

#[verifier::spinoff_prover]
#[verifier::rlimit(40)]
proof fn lemma_denotes_exponent(d: Decimal)
    requires
        decimal_normal(d),
        d.digits.len() > 0,
        -1_000_000_000 < d.point - 1 < 1_000_000_000,
    ensures
        decimal_of_text(signed(d.negative, exponent_body(d.digits, d.point))) == Some(d),
{
    let ds = d.digits;
    let k = ds.len() as int;
    let n = d.point;
    let e = n - 1;
    let mant = if k == 1 {
        ds
    } else {
        ds.subrange(0, 1) + seq!['.'] + ds.subrange(1, k)
    };
    let sign = if e >= 0 {
        seq!['+']
    } else {
        seq!['-']
    };
    let nt = nat_text(abs_int(e));
    let body = exponent_body(ds, n);
    assert(body =~= mant + seq!['e'] + sign + nt);
    let ml = mant.len() as int;
    assert(body[0] == ds[0]);
    lemma_signed(d.negative, body);
    let t = signed(d.negative, body);
    let a: int = if d.negative { 1 } else { 0 };
    lemma_nat_text_digits(abs_int(e));
    reveal_with_fuel(pow10, 10);
    assert(pow10(9) == 1_000_000_000);
    lemma_nat_text_short(abs_int(e), 9);
    lemma_nat_text_value(abs_int(e));
    assert(body[ml] == 'e');
    assert(t[a + ml] == 'e');
    assert(body[ml + 1] == sign[0]);
    assert(t[a + ml + 1] == sign[0]);
    assert forall|x: int| a + ml + 2 <= x < t.len() implies is_digit(#[trigger] t[x]) by {
        assert(t[a + (x - a)] == body[x - a]);
        assert(body[x - a] == nt[x - a - ml - 2]);
    }
    lemma_digits_end_run(t, a + ml + 2, t.len() as int);
    assert forall|x: int| 0 <= x < nt.len() implies #[trigger] t.subrange(a + ml + 2, t.len() as int)[x] == nt[x] by {
        assert(t[a + ml + 2 + x] == body[ml + 2 + x]);
    }
    assert(t.subrange(a + ml + 2, t.len() as int) =~= nt);
    assert(exponent_of(t, a + ml) == Some(e));
    if k == 1 {
        assert(t[a + 1] == body[1]);
        lemma_digits_end_run(t, a, a + 1);
        let m = t.subrange(a, a + 1);
        assert(m[0] == t[a]);
        assert(m =~= ds);
        lemma_lead_end_run(m, 0, 0);
        lemma_trail_start_run(m, 0, 1, 1);
        assert(m.subrange(0, 1) =~= ds);
    } else {
        assert(t[a + 1] == body[1]);
        assert(body[1] == '.');
        lemma_digits_end_run(t, a, a + 1);
        assert forall|x: int| a + 2 <= x < a + ml implies is_digit(#[trigger] t[x]) by {
            assert(t[a + (x - a)] == body[x - a]);
            assert(body[x - a] == ds[x - a - 1]);
        }
        assert(t[a + ml] == 'e');
        lemma_digits_end_run(t, a + 2, a + ml);
        let m = t.subrange(a, a + 1) + t.subrange(a + 2, a + ml);
        assert forall|x: int| 0 <= x < k implies #[trigger] m[x] == ds[x] by {
            if x == 0 {
                assert(m[0] == t[a]);
            } else {
                assert(m[x] == t[a + x + 1]);
                assert(body[x + 1] == ds[x]);
            }
        }
        assert(m =~= ds);
        lemma_lead_end_run(m, 0, 0);
        lemma_trail_start_run(m, 0, k, k);
        assert(m.subrange(0, k) =~= ds);
    }
}

/// The ECMAScript text of a nonzero decimal in lowest terms denotes that very
/// decimal: reading it back gives the same sign, digits and point (for points
/// whose exponent fits in nine digits). Zero is written `0`.
pub proof fn lemma_ecma_text_denotes(d: Decimal)
    requires
        decimal_normal(d),
        -1_000_000_000 < d.point - 1 < 1_000_000_000,
    ensures
        d.digits.len() > 0 ==> decimal_of_text(ecma_text(d)) == Some(d),
        d.digits.len() == 0 ==> ecma_text(d) == seq!['0'],
{
    let ds = d.digits;
    let k = ds.len() as int;
    let n = d.point;
    if k > 0 {
        if k <= n && n <= 21 {
            assert(ecma_text(d) == signed(d.negative, ds + zeros(n - k)));
            lemma_denotes_integer(d);
        } else if 0 < n && n <= 21 {
            assert(ecma_text(d) == signed(d.negative, ds.subrange(0, n) + seq!['.'] + ds.subrange(n, k)));
            lemma_denotes_fraction(d);
        } else if -6 < n && n <= 0 {
            assert(ecma_text(d) == signed(d.negative, seq!['0', '.'] + zeros(-n) + ds));
            lemma_denotes_small(d);
        } else {
            assert(ecma_text(d) == signed(d.negative, exponent_body(ds, n)));
            lemma_denotes_exponent(d);
        }
    }
}

} // verus!
