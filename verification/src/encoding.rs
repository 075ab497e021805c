//! The integer parts of turning a request into a vector: whether the merchant
//! is known, and the whole minutes since the previous transaction.
use vstd::prelude::*;
use vstd::string::StringSliceAdditionalSpecFns;

use crate::dto::{Customer, LastTransaction, Merchant};
use crate::timestamp::{FastTimestamp, spec_total_seconds};

verus! {

broadcast use vstd::slice::group_slice_axioms;

/// `needle` occurs in `haystack` at `i`.
pub open spec fn occurs_at(haystack: Seq<u8>, needle: Seq<u8>, i: int) -> bool {
    0 <= i && i + needle.len() <= haystack.len() && haystack.subrange(i, i + needle.len()) == needle
}

/// `needle` occurs somewhere in `haystack` (the empty text occurs everywhere).
pub open spec fn text_contains(haystack: Seq<u8>, needle: Seq<u8>) -> bool {
    exists|i: int| #[trigger] occurs_at(haystack, needle, i)
}

fn matches_at(haystack: &[u8], needle: &[u8], i: usize) -> (r: bool)
    requires
        i + needle.len() <= haystack.len(),
    ensures
        r == occurs_at(haystack@, needle@, i as int),
{
    let mut k: usize = 0;
    while k < needle.len()
        invariant
            i + needle.len() <= haystack.len(),
            k <= needle@.len(),
            forall|j: int| 0 <= j < k ==> haystack@[i + j] == needle@[j],
        decreases needle@.len() - k,
    {
        if haystack[i + k] != needle[k] {
            assert(haystack@.subrange(i as int, i + needle@.len())[k as int] != needle@[k as int]);
            return false;
        }
        k = k + 1;
    }
    assert(haystack@.subrange(i as int, i + needle@.len()) =~= needle@);
    true
}

/// Substring search, as `str::contains` with a `&str` pattern.
pub fn contains_text(haystack: &str, needle: &str) -> (r: bool)
    ensures
        r == text_contains(haystack.spec_bytes(), needle.spec_bytes()),
{
    let h = haystack.as_bytes();
    let n = needle.as_bytes();
    if n.len() > h.len() {
        return false;
    }
    let last = h.len() - n.len();
    let mut i: usize = 0;
    loop
        invariant
            h@ == haystack.spec_bytes(),
            n@ == needle.spec_bytes(),
            last == h@.len() - n@.len(),
            i <= last,
            forall|j: int| 0 <= j < i ==> !#[trigger] occurs_at(h@, n@, j),
        decreases last - i,
    {
        if matches_at(h, n, i) {
            return true;
        }
        if i == last {
            assert forall|j: int| !#[trigger] occurs_at(h@, n@, j) by {
                if j > last {
                    assert(!(j + n@.len() <= h@.len()));
                }
            }
            return false;
        }
        i = i + 1;
    }
}

/// The merchant's id occurs in the text of the customer's known merchants.
pub fn merchant_is_known(customer: &Customer, merchant: &Merchant) -> (r: bool)
    ensures
        r == text_contains(customer.known_merchants.spec_bytes(), merchant.id.spec_bytes()),
{
    contains_text(customer.known_merchants, merchant.id)
}

/// Whole minutes from `last` to `now`, rounded toward zero, and never negative.
pub open spec fn spec_minutes_between(now: FastTimestamp, last: FastTimestamp) -> int {
    let diff = spec_total_seconds(now) - spec_total_seconds(last);
    if diff > 0 { diff / 60 } else { 0 }
}

/// The minutes since the previous transaction, when there was one.
pub fn minutes_since_last(requested_at: FastTimestamp, last_transaction: Option<LastTransaction>) -> (r: Option<i64>)
    ensures
        match last_transaction {
            None => r is None,
            Some(last) => r == Some(spec_minutes_between(requested_at, last.timestamp) as i64),
        },
{
    match last_transaction {
        None => None,
        Some(last) => {
            let now = requested_at.total_seconds();
            let then = last.timestamp.total_seconds();
            let diff = now - then;
            let minutes = diff / 60;
            Some(if minutes > 0 { minutes } else { 0 })
        },
    }
}

} // verus!
