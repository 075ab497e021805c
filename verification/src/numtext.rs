//! The decimal number syntax that `f64::from_str` accepts.
use vstd::prelude::*;

verus! {

/// ASCII lowercase of a byte.
pub open spec fn lower(c: u8) -> u8 {
    if 65 <= c <= 90 { (c + 32) as u8 } else { c }
}

pub open spec fn is_digit(c: u8) -> bool {
    48 <= c <= 57
}

pub open spec fn is_sign(c: u8) -> bool {
    c == 43 || c == 45
}

/// `t` equals the lowercase word `word`, ignoring ASCII case.
pub open spec fn eq_ignore_case(t: Seq<u8>, word: Seq<u8>) -> bool {
    t.len() == word.len() && forall|i: int| 0 <= i < t.len() ==> lower(#[trigger] t[i]) == word[i]
}

/// The first position at or after `p` that does not hold a digit.
pub open spec fn digit_run_end(t: Seq<u8>, p: int) -> int
    decreases t.len() - p,
{
    if 0 <= p < t.len() && is_digit(t[p]) {
        digit_run_end(t, p + 1)
    } else {
        p
    }
}

/// `e`-less exponent body starting at `p`: an optional sign and at least one digit, to the end.
pub open spec fn exponent_text(t: Seq<u8>, p: int) -> bool {
    let q = if p < t.len() && is_sign(t[p]) { p + 1 } else { p };
    let e = digit_run_end(t, q);
    e > q && e == t.len()
}

/// `Digit+ | Digit+ '.' Digit* | Digit* '.' Digit+`, then an optional exponent.
pub open spec fn unsigned_number_text(t: Seq<u8>) -> bool {
    let k = digit_run_end(t, 0);
    let has_point = k < t.len() && t[k] == 46;
    let r = if has_point { digit_run_end(t, k + 1) } else { k };
    let mantissa = if has_point { k > 0 || r > k + 1 } else { k > 0 };
    mantissa && (r == t.len() || (lower(t[r]) == 101 && exponent_text(t, r + 1)))
}

/// The strings that `f64::from_str` parses: an optional sign, then `inf`, `infinity`,
/// `nan` or a decimal number, letters in any case.
pub open spec fn float_text(s: Seq<u8>) -> bool {
    let t = if s.len() > 0 && is_sign(s[0]) { s.subrange(1, s.len() as int) } else { s };
    ||| eq_ignore_case(t, seq![105u8, 110, 102])
    ||| eq_ignore_case(t, seq![105u8, 110, 102, 105, 110, 105, 116, 121])
    ||| eq_ignore_case(t, seq![110u8, 97, 110])
    ||| unsigned_number_text(t)
}

fn lower_byte(c: u8) -> (r: u8)
    ensures
        r == lower(c),
{
    if 65 <= c && c <= 90 { c + 32 } else { c }
}

fn digit_run(t: &[u8], p: usize) -> (r: usize)
    requires
        p <= t@.len(),
    ensures
        r == digit_run_end(t@, p as int),
        p <= r <= t@.len(),
{
    let mut q = p;
    while q < t.len() && 48 <= t[q] && t[q] <= 57
        invariant
            p <= q <= t@.len(),
            digit_run_end(t@, q as int) == digit_run_end(t@, p as int),
        decreases t@.len() - q,
    {
        q = q + 1;
    }
    q
}

fn word_ignore_case(t: &[u8], word: &[u8]) -> (r: bool)
    ensures
        r == eq_ignore_case(t@, word@),
{
    if t.len() != word.len() {
        return false;
    }
    let mut i: usize = 0;
    while i < t.len()
        invariant
            t@.len() == word@.len(),
            i <= t@.len(),
            forall|j: int| 0 <= j < i ==> lower(#[trigger] t@[j]) == word@[j],
        decreases t@.len() - i,
    {
        if lower_byte(t[i]) != word[i] {
            return false;
        }
        i = i + 1;
    }
    true
}

fn exponent(t: &[u8], p: usize) -> (r: bool)
    requires
        p <= t@.len(),
    ensures
        r == exponent_text(t@, p as int),
{
    let q = if p < t.len() && (t[p] == 43 || t[p] == 45) { p + 1 } else { p };
    let e = digit_run(t, q);
    e > q && e == t.len()
}

fn unsigned_number(t: &[u8]) -> (r: bool)
    ensures
        r == unsigned_number_text(t@),
{
    let k = digit_run(t, 0);
    let has_point = k < t.len() && t[k] == 46;
    let r = if has_point { digit_run(t, k + 1) } else { k };
    let mantissa = if has_point { k > 0 || r > k + 1 } else { k > 0 };
    mantissa && (r == t.len() || (lower_byte(t[r]) == 101 && exponent(t, r + 1)))
}

/// Whether `f64::from_str` accepts the text `s`.
pub fn is_float_text(s: &[u8]) -> (r: bool)
    ensures
        r == float_text(s@),
{
    let t = if s.len() > 0 && (s[0] == 43 || s[0] == 45) {
        vstd::slice::slice_subrange(s, 1, s.len())
    } else {
        s
    };
    let inf: [u8; 3] = [105, 110, 102];
    let infinity: [u8; 8] = [105, 110, 102, 105, 110, 105, 116, 121];
    let nan: [u8; 3] = [110, 97, 110];
    assert(inf@ == seq![105u8, 110, 102]);
    assert(infinity@ == seq![105u8, 110, 102, 105, 110, 105, 116, 121]);
    assert(nan@ == seq![110u8, 97, 110]);
    word_ignore_case(t, inf.as_slice()) || word_ignore_case(t, infinity.as_slice())
        || word_ignore_case(t, nan.as_slice()) || unsigned_number(t)
}

} // verus!
