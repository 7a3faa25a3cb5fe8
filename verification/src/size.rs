//! Checked aggregate size arithmetic for synthesis builders. Aggregates over
//! caller-supplied lengths fail closed with `FormatError::TooLarge`.

use crate::error::FormatError;
use crate::error::Result;
use vstd::prelude::*;

verus! {

/// The mathematical sum of a sequence of lengths.
pub open spec fn sum(s: Seq<u64>) -> int
    decreases s.len(),
{
    if s.len() == 0 {
        0
    } else {
        sum(s.drop_last()) + s.last()
    }
}

/// A prefix of a sequence of lengths sums to no more than the whole.
pub proof fn sum_prefix(s: Seq<u64>, n: int)
    requires
        0 <= n <= s.len(),
    ensures
        0 <= sum(s.take(n)) <= sum(s),
    decreases s.len(),
{
    if n == s.len() {
        assert(s.take(n) =~= s);
        if s.len() > 0 {
            sum_prefix(s.drop_last(), s.len() - 1);
        }
    } else {
        sum_prefix(s.drop_last(), n);
        assert(s.drop_last().take(n) =~= s.take(n));
    }
}

/// `a + b`, mapping `u64` overflow to `FormatError::TooLarge`.
pub fn checked_add(a: u64, b: u64) -> (r: Result<u64>)
    ensures
        match r {
            Ok(v) => v == a + b,
            Err(e) => e == FormatError::TooLarge && a + b > u64::MAX,
        },
{
    match a.checked_add(b) {
        Some(v) => Ok(v),
        None => Err(FormatError::TooLarge),
    }
}

/// The sum of `items`, mapping any `u64` overflow to `FormatError::TooLarge`.
pub fn checked_sum(items: &[u64]) -> (r: Result<u64>)
    ensures
        match r {
            Ok(v) => v == sum(items@),
            Err(e) => e == FormatError::TooLarge && sum(items@) > u64::MAX,
        },
{
    let mut acc: u64 = 0;
    let mut i: usize = 0;
    while i < items.len()
        invariant
            i <= items@.len(),
            acc == sum(items@.take(i as int)),
        decreases items@.len() - i,
    {
        proof {
            assert(items@.take(i + 1).drop_last() =~= items@.take(i as int));
            sum_prefix(items@, i + 1);
        }
        match checked_add(acc, items[i]) {
            Ok(v) => {
                acc = v;
            },
            Err(e) => {
                return Err(e);
            },
        }
        i = i + 1;
    }
    assert(items@.take(i as int) =~= items@);
    Ok(acc)
}

} // verus!
