//! Merchant category risk, kept in basis points (1/10 000).
use vstd::prelude::*;
use vstd::string::StringSliceAdditionalSpecFns;

verus! {

/// Risk of a category that is not in the table, or of unreadable text.
pub const DEFAULT_MCC_RISK: u16 = 5000;

/// The known categories, ordered by code, with their risk.
pub open spec fn mcc_risk_spec() -> Seq<(u16, u16)> {
    seq![
        (4511u16, 3500u16),
        (5311, 2500),
        (5411, 1500),
        (5812, 3000),
        (5912, 2000),
        (5944, 4500),
        (5999, 5000),
        (7801, 8000),
        (7802, 7500),
        (7995, 8500),
    ]
}

/// The category table; codes strictly increase, as a binary search needs.
pub fn mcc_risk_table() -> (r: [(u16, u16); 10])
    ensures
        r@ == mcc_risk_spec(),
        forall|i: int, j: int| 0 <= i < j < 10 ==> r@[i].0 < r@[j].0,
{
    let r: [(u16, u16); 10] = [
        (4511, 3500),
        (5311, 2500),
        (5411, 1500),
        (5812, 3000),
        (5912, 2000),
        (5944, 4500),
        (5999, 5000),
        (7801, 8000),
        (7802, 7500),
        (7995, 8500),
    ];
    assert(r@ =~= mcc_risk_spec());
    r
}

pub open spec fn is_digit(c: u8) -> bool {
    48 <= c <= 57
}

/// The value of the decimal digits `t[0..n]`.
pub open spec fn digits_value(t: Seq<u8>, n: int) -> int
    decreases n,
{
    if n <= 0 { 0 } else { digits_value(t, n - 1) * 10 + (t[n - 1] - 48) }
}

/// The digits after an optional leading `+` (a lone `+` keeps it).
pub open spec fn unsigned_digits(s: Seq<u8>) -> Seq<u8> {
    if s.len() > 1 && s[0] == 43 { s.drop_first() } else { s }
}

/// What `u16::from_str` gives: an optional `+`, then at least one decimal
/// digit and nothing else, with a value that fits.
pub open spec fn spec_parse_u16(s: Seq<u8>) -> Option<u16> {
    let t = unsigned_digits(s);
    if t.len() == 0 || !(forall|i: int| 0 <= i < t.len() ==> is_digit(#[trigger] t[i])) || digits_value(
        t,
        t.len() as int,
    ) > 65535 {
        None
    } else {
        Some(digits_value(t, t.len() as int) as u16)
    }
}

proof fn lemma_digits_value_nonneg(t: Seq<u8>, n: int)
    requires
        0 <= n <= t.len(),
        forall|i: int| 0 <= i < n ==> is_digit(#[trigger] t[i]),
    ensures
        digits_value(t, n) >= 0,
    decreases n,
{
    if n > 0 {
        lemma_digits_value_nonneg(t, n - 1);
    }
}

proof fn lemma_digits_value_monotone(t: Seq<u8>, m: int, n: int)
    requires
        0 <= m <= n <= t.len(),
        forall|i: int| 0 <= i < n ==> is_digit(#[trigger] t[i]),
    ensures
        digits_value(t, m) <= digits_value(t, n),
    decreases n - m,
{
    if m < n {
        lemma_digits_value_monotone(t, m, n - 1);
        lemma_digits_value_nonneg(t, n - 1);
    }
}

/// Parses a `u16` as `u16::from_str` does.
pub fn parse_u16(text: &str) -> (r: Option<u16>)
    ensures
        r == spec_parse_u16(text.spec_bytes()),
{
    let bytes = text.as_bytes();
    let ghost s = bytes@;
    let n = bytes.len();
    let start: usize = if n > 1 && bytes[0] == 43 { 1 } else { 0 };
    let ghost t = unsigned_digits(s);
    assert(t =~= s.subrange(start as int, n as int));
    if start == n {
        return None;
    }
    let mut value: u32 = 0;
    let mut i = start;
    while i < n
        invariant
            start <= i <= n == s.len(),
            bytes@ == s,
            s == text.spec_bytes(),
            t == unsigned_digits(s),
            t == s.subrange(start as int, n as int),
            forall|k: int| 0 <= k < i - start ==> is_digit(#[trigger] t[k]),
            value == digits_value(t, i - start),
            value <= 65535,
        decreases n - i,
    {
        let c = bytes[i];
        if c < 48 || c > 57 {
            assert(!is_digit(t[i - start]));
            return None;
        }
        let next = value * 10 + (c - 48) as u32;
        if next > 65535 {
            proof {
                assert(is_digit(t[i - start]));
                assert(digits_value(t, i - start + 1) == next);
                if forall|k: int| 0 <= k < t.len() ==> is_digit(#[trigger] t[k]) {
                    lemma_digits_value_monotone(t, i - start + 1, t.len() as int);
                }
            }
            return None;
        }
        value = next;
        i = i + 1;
    }
    Some(value as u16)
}

/// The risk the table gives `code`, if it holds it.
pub open spec fn table_risk(table: Seq<(u16, u16)>, code: u16) -> Option<u16> {
    if exists|i: int| 0 <= i < table.len() && #[trigger] table[i].0 == code {
        Some(table[choose|i: int| 0 <= i < table.len() && #[trigger] table[i].0 == code].1)
    } else {
        None
    }
}

/// The risk of a merchant category given as text: its table entry when the
/// text reads as a known code, else the default.
pub open spec fn spec_mcc_risk(mcc: Seq<u8>) -> u16 {
    match spec_parse_u16(mcc) {
        Some(code) => match table_risk(mcc_risk_spec(), code) {
            Some(risk) => risk,
            None => DEFAULT_MCC_RISK,
        },
        None => DEFAULT_MCC_RISK,
    }
}

/// Binary search of `code` among the table's codes.
fn find_code(table: &[(u16, u16); 10], code: u16) -> (r: Option<usize>)
    requires
        forall|i: int, j: int| 0 <= i < j < 10 ==> table@[i].0 < table@[j].0,
    ensures
        r matches Some(i) ==> i < 10 && table@[i as int].0 == code,
        r is None ==> forall|i: int| 0 <= i < 10 ==> table@[i].0 != code,
{
    let mut low: usize = 0;
    let mut high: usize = 10;
    while low < high
        invariant
            low <= high <= 10,
            forall|i: int, j: int| 0 <= i < j < 10 ==> table@[i].0 < table@[j].0,
            forall|i: int| 0 <= i < low ==> table@[i].0 < code,
            forall|i: int| high <= i < 10 ==> table@[i].0 > code,
        decreases high - low,
    {
        let middle = low + (high - low) / 2;
        let key = table[middle].0;
        if key == code {
            return Some(middle);
        } else if key < code {
            low = middle + 1;
        } else {
            high = middle;
        }
    }
    None
}

/// The risk of a merchant category, in basis points.
pub fn mcc_risk(mcc: &str) -> (r: u16)
    ensures
        r == spec_mcc_risk(mcc.spec_bytes()),
{
    let code = match parse_u16(mcc) {
        Some(code) => code,
        None => return DEFAULT_MCC_RISK,
    };
    let table = mcc_risk_table();
    match find_code(&table, code) {
        Some(index) => {
            let ghost t = mcc_risk_spec();
            proof {
                let k = choose|i: int| 0 <= i < t.len() && #[trigger] t[i].0 == code;
                assert(t[index as int].0 == code);
                if k != index {
                    assert(t[k].0 != t[index as int].0);
                }
            }
            table[index].1
        },
        None => DEFAULT_MCC_RISK,
    }
}

} // verus!
