//! What a plain scalar stands for: null, a boolean, an integer, a floating-point
//! number (kept as its text), or a string.
use vstd::prelude::*;
use vstd::string::*;
use crate::ast::{ValueView, YamlValue};

verus! {

pub open spec fn is_digit(c: char) -> bool {
    '0' <= c && c <= '9'
}

pub open spec fn all_digits(d: Seq<char>) -> bool {
    forall|i: int| 0 <= i < d.len() ==> is_digit(#[trigger] d[i])
}

/// The number that a sequence of decimal digits writes.
pub open spec fn digits_value(d: Seq<char>) -> int
    decreases d.len(),
{
    if d.len() == 0 {
        0
    } else {
        digits_value(d.drop_last()) * 10 + (d.last() as int - 48)
    }
}

/// Whether `s` begins with the sign character `c`.
pub open spec fn has_sign(s: Seq<char>, c: char) -> bool {
    s.len() > 0 && s[0] == c
}

/// `s` without a leading `+` or `-`.
pub open spec fn strip_sign(s: Seq<char>) -> Seq<char> {
    if has_sign(s, '+') || has_sign(s, '-') {
        s.drop_first()
    } else {
        s
    }
}

/// The 64-bit signed integer that `s` writes in decimal (`i64::from_str`): an
/// optional sign, then one or more digits, within range.
pub open spec fn parse_int(s: Seq<char>) -> Option<i64> {
    let d = strip_sign(s);
    let v = if has_sign(s, '-') {
        -digits_value(d)
    } else {
        digits_value(d)
    };
    if d.len() == 0 || !all_digits(d) || v < i64::MIN || v > i64::MAX {
        None
    } else {
        Some(v as i64)
    }
}

pub open spec fn ascii_lower(c: char) -> char {
    if 'A' <= c && c <= 'Z' {
        ((c as u32) + 32) as char
    } else {
        c
    }
}

/// Whether `a` is the lowercase word `w` when ASCII letters are lowercased.
pub open spec fn eq_ignore_ascii_case(a: Seq<char>, w: Seq<char>) -> bool {
    a.len() == w.len() && forall|i: int| 0 <= i < a.len() ==> ascii_lower(#[trigger] a[i]) == w[i]
}

pub open spec fn is_exp_char(c: char) -> bool {
    c == 'e' || c == 'E'
}

/// The position of the first `e` or `E` in `b`, or its length.
pub open spec fn exp_index(b: Seq<char>) -> int
    decreases b.len(),
{
    if b.len() == 0 {
        0
    } else if is_exp_char(b[0]) {
        0
    } else {
        1 + exp_index(b.drop_first())
    }
}

/// Digits with at most one `.`, and at least one digit.
pub open spec fn is_mantissa(m: Seq<char>) -> bool {
    &&& forall|i: int| 0 <= i < m.len() ==> is_digit(#[trigger] m[i]) || m[i] == '.'
    &&& forall|i: int, j: int| 0 <= i < j < m.len() ==> !(#[trigger] m[i] == '.' && #[trigger] m[j] == '.')
    &&& exists|i: int| 0 <= i < m.len() && is_digit(#[trigger] m[i])
}

/// Empty, or `e` / `E`, an optional sign and one or more digits.
pub open spec fn is_exponent(x: Seq<char>) -> bool {
    x.len() == 0 || (is_exp_char(x[0]) && strip_sign(x.drop_first()).len() > 0 && all_digits(
        strip_sign(x.drop_first()),
    ))
}

pub open spec fn is_number(b: Seq<char>) -> bool {
    is_mantissa(b.take(exp_index(b))) && is_exponent(b.skip(exp_index(b)))
}

/// Whether `s` is the text of a floating-point number (`f64::from_str`): an
/// optional sign, then `inf`, `infinity` or `nan` in any case, or decimal digits
/// with at most one point and an optional exponent.
pub open spec fn is_float_text(s: Seq<char>) -> bool {
    let b = strip_sign(s);
    eq_ignore_ascii_case(b, "inf"@) || eq_ignore_ascii_case(b, "infinity"@) || eq_ignore_ascii_case(
        b,
        "nan"@,
    ) || is_number(b)
}

/// What a plain scalar's text stands for.
pub open spec fn interpret(s: Seq<char>) -> ValueView {
    if s == "null"@ || s == "~"@ || s.len() == 0 {
        ValueView::Null
    } else if s == "true"@ || s == "yes"@ {
        ValueView::Bool(true)
    } else if s == "false"@ || s == "no"@ {
        ValueView::Bool(false)
    } else if parse_int(s) is Some {
        ValueView::Int(parse_int(s)->0)
    } else if is_float_text(s) {
        ValueView::Float(s)
    } else {
        ValueView::Str(s)
    }
}

/// The characters of `s`.
pub fn chars_of(s: &str) -> (v: Vec<char>)
    ensures
        v@ == s@,
{
    let mut v: Vec<char> = Vec::new();
    for c in it: s.chars()
        invariant
            v@ == it.seq().take(it.index() as int),
    {
        v.push(c);
    }
    v
}

/// Whether the characters in `v` are exactly those of `w`.
pub fn is_word(v: &Vec<char>, w: &str) -> (b: bool)
    ensures
        b == (v@ == w@),
{
    let n = w.unicode_len();
    if n != v.len() {
        return false;
    }
    let mut i: usize = 0;
    while i < n
        invariant
            n == w@.len(),
            n == v.len(),
            i <= n,
            forall|j: int| 0 <= j < i ==> v@[j] == w@[j],
        decreases n - i,
    {
        if v[i] != w.get_char(i) {
            return false;
        }
        i = i + 1;
    }
    assert(v@ =~= w@);
    true
}

fn lower(c: char) -> (r: char)
    ensures
        r == ascii_lower(c),
{
    if 'A' <= c && c <= 'Z' {
        let u: u32 = (c as u32) + 32;
        let b: u8 = u as u8;
        b as char
    } else {
        c
    }
}

/// Whether `v[from..]` equals the lowercase word `w` when ASCII letters are lowercased.
fn is_word_ignore_case(v: &Vec<char>, from: usize, w: &str) -> (b: bool)
    requires
        from <= v.len(),
    ensures
        b == eq_ignore_ascii_case(v@.skip(from as int), w@),
{
    let n = w.unicode_len();
    if n != v.len() - from {
        return false;
    }
    let mut i: usize = 0;
    while i < n
        invariant
            n == w@.len(),
            n == v.len() - from,
            from <= v.len(),
            i <= n,
            forall|j: int| 0 <= j < i ==> ascii_lower(v@[from + j]) == w@[j],
        decreases n - i,
    {
        if lower(v[from + i]) != w.get_char(i) {
            assert(ascii_lower(v@.skip(from as int)[i as int]) != w@[i as int]);
            return false;
        }
        i = i + 1;
    }
    true
}

pub proof fn lemma_digits_value_push(d: Seq<char>, c: char)
    ensures
        digits_value(d.push(c)) == digits_value(d) * 10 + (c as int - 48),
{
    assert(d.push(c).drop_last() =~= d);
}

pub proof fn lemma_digits_value_nonneg(d: Seq<char>)
    requires
        all_digits(d),
    ensures
        digits_value(d) >= 0,
    decreases d.len(),
{
    if d.len() > 0 {
        assert(all_digits(d.drop_last()));
        lemma_digits_value_nonneg(d.drop_last());
    }
}

/// Once the digits read so far exceed `bound`, more digits keep the value above it.
pub proof fn lemma_digits_value_grows(d: Seq<char>, k: int)
    requires
        all_digits(d),
        0 <= k <= d.len(),
    ensures
        digits_value(d) >= digits_value(d.take(k)),
    decreases d.len() - k,
{
    if k < d.len() {
        lemma_digits_value_grows(d, k + 1);
        lemma_digits_value_push(d.take(k), d[k]);
        assert(d.take(k + 1) =~= d.take(k).push(d[k]));
        assert(all_digits(d.take(k)));
        lemma_digits_value_nonneg(d.take(k));
    } else {
        assert(d.take(k) =~= d);
    }
}

/// The integer that `v` writes (`i64::from_str`), if any.
#[verifier::loop_isolation(false)]
pub fn parse_int_chars(v: &Vec<char>) -> (r: Option<i64>)
    ensures
        r == parse_int(v@),
{
    let neg = v.len() > 0 && v[0] == '-';
    let start: usize = if v.len() > 0 && (v[0] == '+' || v[0] == '-') {
        1
    } else {
        0
    };
    let ghost d = strip_sign(v@);
    assert(d =~= v@.skip(start as int));
    if start == v.len() {
        return None;
    }
    // The magnitude may reach 2^63 for a negative number.
    let limit: u64 = if neg {
        9223372036854775808u64
    } else {
        9223372036854775807u64
    };
    let mut acc: u64 = 0;
    let mut i: usize = start;
    while i < v.len()
        invariant
            start <= i <= v.len(),
            d == v@.skip(start as int),
            acc as int == digits_value(d.take(i - start)),
            acc <= limit,
            all_digits(d.take(i - start)),
            limit == if neg { 9223372036854775808u64 } else { 9223372036854775807u64 },
        decreases v.len() - i,
    {
        let c = v[i];
        if !('0' <= c && c <= '9') {
            assert(!all_digits(d)) by {
                assert(d[i - start] == c);
            }
            return None;
        }
        let dv: u64 = (c as u32 - 48) as u64;
        proof {
            lemma_digits_value_push(d.take(i - start), c);
            assert(d.take(i - start + 1) =~= d.take(i - start).push(c));
        }
        if acc > (limit - dv) / 10 {
            proof {
                assert(acc * 10 + dv > limit) by (nonlinear_arith)
                    requires
                        acc > (limit - dv) / 10,
                        dv <= 9,
                        limit >= 9,
                ;
                if all_digits(d) {
                    lemma_digits_value_grows(d, i - start + 1);
                }
            }
            return None;
        }
        assert(acc * 10 + dv <= limit) by (nonlinear_arith)
            requires
                acc <= (limit - dv) / 10,
                dv <= 9,
                limit >= 9,
        ;
        acc = acc * 10 + dv;
        i = i + 1;
    }
    assert(d.take(i - start) =~= d);
    if neg {
        if acc == 9223372036854775808u64 {
            Some(i64::MIN)
        } else {
            let a: i64 = acc as i64;
            Some(-a)
        }
    } else {
        Some(acc as i64)
    }
}

proof fn lemma_exp_index_bounds(b: Seq<char>)
    ensures
        0 <= exp_index(b) <= b.len(),
        forall|i: int| 0 <= i < exp_index(b) ==> !is_exp_char(#[trigger] b[i]),
        exp_index(b) < b.len() ==> is_exp_char(b[exp_index(b)]),
    decreases b.len(),
{
    if b.len() > 0 && !is_exp_char(b[0]) {
        lemma_exp_index_bounds(b.drop_first());
        assert forall|i: int| 0 <= i < exp_index(b) implies !is_exp_char(#[trigger] b[i]) by {
            if i > 0 {
                assert(b[i] == b.drop_first()[i - 1]);
            }
        }
    }
}

/// Whether the characters of `v` from `from` on are an exponent part.
#[verifier::loop_isolation(false)]
fn is_exponent_at(v: &Vec<char>, from: usize) -> (b: bool)
    requires
        from <= v.len(),
    ensures
        b == is_exponent(v@.skip(from as int)),
{
    let ghost x = v@.skip(from as int);
    if from == v.len() {
        return true;
    }
    if !(v[from] == 'e' || v[from] == 'E') {
        return false;
    }
    let mut j = from + 1;
    if j < v.len() && (v[j] == '+' || v[j] == '-') {
        j = j + 1;
    }
    let ghost r = strip_sign(x.drop_first());
    assert(r =~= v@.skip(j as int));
    if j == v.len() {
        return false;
    }
    let mut i = j;
    while i < v.len()
        invariant
            j <= i <= v.len(),
            r == v@.skip(j as int),
            forall|k: int| j <= k < i ==> is_digit(v@[k]),
        decreases v.len() - i,
    {
        if !('0' <= v[i] && v[i] <= '9') {
            assert(!is_digit(r[i - j]));
            return false;
        }
        i = i + 1;
    }
    assert forall|k: int| 0 <= k < r.len() implies is_digit(#[trigger] r[k]) by {
        assert(r[k] == v@[j + k]);
    }
    true
}

/// Whether `v` is the text of a floating-point number (`f64::from_str`).
#[verifier::loop_isolation(false)]
#[verifier::spinoff_prover]
#[verifier::rlimit(40)]
pub fn is_float_chars(v: &Vec<char>) -> (b: bool)
    ensures
        b == is_float_text(v@),
{
    let start: usize = if v.len() > 0 && (v[0] == '+' || v[0] == '-') {
        1
    } else {
        0
    };
    let ghost b = strip_sign(v@);
    assert(b =~= v@.skip(start as int));
    if is_word_ignore_case(v, start, "inf") || is_word_ignore_case(v, start, "infinity")
        || is_word_ignore_case(v, start, "nan") {
        return true;
    }
    proof {
        lemma_exp_index_bounds(b);
    }
    let mut i: usize = start;
    let mut dots: usize = 0;
    let mut digits: usize = 0;
    while i < v.len() && !(v[i] == 'e' || v[i] == 'E')
        invariant
            start <= i <= v.len(),
            b == v@.skip(start as int),
            0 <= exp_index(b) <= b.len(),
            forall|k: int| 0 <= k < exp_index(b) ==> !is_exp_char(#[trigger] b[k]),
            exp_index(b) < b.len() ==> is_exp_char(b[exp_index(b)]),
            i - start <= exp_index(b),
            forall|k: int| start <= k < i ==> is_digit(#[trigger] v@[k]) || v@[k] == '.',
            dots <= 1,
            dots == 0 ==> forall|k: int| start <= k < i ==> #[trigger] v@[k] != '.',
            dots == 1 ==> exists|k: int| start <= k < i && #[trigger] v@[k] == '.',
            forall|k1: int, k2: int| start <= k1 < k2 < i ==> !(#[trigger] v@[k1] == '.' && #[trigger] v@[k2] == '.'),
            digits <= i - start,
            digits == 0 ==> forall|k: int| start <= k < i ==> !is_digit(#[trigger] v@[k]),
            digits > 0 ==> exists|k: int| start <= k < i && is_digit(#[trigger] v@[k]),
        decreases v.len() - i,
    {
        let c = v[i];
        assert(b[i - start] == c);
        if c == '.' {
            if dots == 1 {
                proof {
                    let k = choose|k: int| start <= k < i && #[trigger] v@[k] == '.';
                    let m = b.take(exp_index(b));
                    assert(m[k - start] == '.' && m[i - start] == '.');
                }
                return false;
            }
            dots = 1;
        } else if '0' <= c && c <= '9' {
            digits = digits + 1;
        } else {
            proof {
                let m = b.take(exp_index(b));
                assert(!is_exp_char(c));
                assert(m[i - start] == c);
            }
            return false;
        }
        i = i + 1;
    }
    let ghost m = b.take(exp_index(b));
    if i < v.len() {
        assert(b[i - start] == v@[i as int]);
    }
    assert(i - start == exp_index(b));
    if digits == 0 {
        assert(!is_mantissa(m)) by {
            assert forall|k: int| 0 <= k < m.len() implies !is_digit(#[trigger] m[k]) by {
                assert(m[k] == v@[start + k]);
            }
        }
        return false;
    }
    assert(is_mantissa(m)) by {
        assert forall|k: int| 0 <= k < m.len() implies is_digit(#[trigger] m[k]) || m[k] == '.' by {
            assert(m[k] == v@[start + k]);
        }
        assert forall|k1: int, k2: int| 0 <= k1 < k2 < m.len() implies !(#[trigger] m[k1] == '.'
            && #[trigger] m[k2] == '.') by {
            assert(m[k1] == v@[start + k1]);
            assert(m[k2] == v@[start + k2]);
        }
        let k = choose|k: int| start <= k < i && is_digit(#[trigger] v@[k]);
        assert(is_digit(m[k - start]));
    }
    assert(b.skip(exp_index(b)) =~= v@.skip(i as int));
    is_exponent_at(v, i)
}

/// What the plain scalar `s` stands for.
pub fn interpret_scalar(s: &str) -> (v: YamlValue)
    ensures
        v@ == interpret(s@),
{
    let cs = chars_of(s);
    if is_word(&cs, "null") || is_word(&cs, "~") || cs.len() == 0 {
        return YamlValue::Null;
    }
    if is_word(&cs, "true") || is_word(&cs, "yes") {
        return YamlValue::Bool(true);
    }
    if is_word(&cs, "false") || is_word(&cs, "no") {
        return YamlValue::Bool(false);
    }
    if let Some(i) = parse_int_chars(&cs) {
        return YamlValue::Int(i);
    }
    if is_float_chars(&cs) {
        return YamlValue::Float(s.to_owned());
    }
    YamlValue::String(s.to_owned())
}

} // verus!
