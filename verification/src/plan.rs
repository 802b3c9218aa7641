//! Sizing: how many buckets a run gets.
//!
//! The count is fixed before any line is read, from the stored size of the
//! input and the ceiling on the size of an output file. Lines are then
//! assigned to buckets at random, so the ceiling is met on average only: a
//! small input, or lines of very uneven length, can make an output file
//! clearly larger or smaller than the ceiling.

use vstd::prelude::*;

verus! {

/// Bytes in one mebibyte, the unit of the configured ceiling.
pub const BYTES_PER_MB: usize = 1048576;

/// Sum of the first `n` sizes.
pub open spec fn sum_of(sizes: Seq<usize>) -> nat
    decreases sizes.len(),
{
    if sizes.len() == 0 {
        0
    } else {
        sum_of(sizes.drop_last()) + sizes.last() as nat
    }
}

/// Number of buckets for `total` bytes under a ceiling of `ceiling` bytes:
/// the quotient rounded up, and never less than one.
pub open spec fn buckets_for(total: nat, ceiling: nat) -> nat
    recommends
        ceiling > 0,
{
    let full: nat = total / ceiling;
    let rounded: nat = if total % ceiling == 0 {
        full
    } else {
        full + 1
    };
    if rounded == 0 {
        1
    } else {
        rounded
    }
}

/// Adds up the stored sizes of the input files. `None` when the sum does not
/// fit the machine word.
pub fn estimate_total_input_size(sizes: &Vec<usize>) -> (total: Option<usize>)
    ensures
        match total {
            Some(t) => t == sum_of(sizes@),
            None => sum_of(sizes@) > usize::MAX,
        },
{
    let mut acc: usize = 0;
    let mut i: usize = 0;
    while i < sizes.len()
        invariant
            i <= sizes.len(),
            acc == sum_of(sizes@.take(i as int)),
        decreases sizes.len() - i,
    {
        proof {
            assert(sizes@.take(i as int + 1).drop_last() =~= sizes@.take(i as int));
            lemma_sum_of_prefix(sizes@, i as int + 1);
        }
        match acc.checked_add(sizes[i]) {
            Some(next) => {
                acc = next;
            },
            None => {
                return None;
            },
        }
        i = i + 1;
    }
    proof {
        assert(sizes@.take(sizes.len() as int) =~= sizes@);
    }
    Some(acc)
}

/// A prefix never sums to more than the whole.
pub proof fn lemma_sum_of_prefix(sizes: Seq<usize>, n: int)
    requires
        0 <= n <= sizes.len(),
    ensures
        sum_of(sizes.take(n)) <= sum_of(sizes),
    decreases sizes.len() - n,
{
    if n == sizes.len() {
        assert(sizes.take(n) =~= sizes);
    } else {
        assert(sizes.take(n + 1).drop_last() =~= sizes.take(n));
        lemma_sum_of_prefix(sizes, n + 1);
    }
}

/// The ceiling in bytes for a ceiling given in mebibytes. `None` when the
/// product does not fit the machine word.
pub fn max_output_bytes(max_size_mb: usize) -> (bytes: Option<usize>)
    ensures
        match bytes {
            Some(b) => b == max_size_mb * BYTES_PER_MB,
            None => max_size_mb * BYTES_PER_MB > usize::MAX,
        },
{
    max_size_mb.checked_mul(BYTES_PER_MB)
}

/// Number of buckets for an input of `total` bytes and a ceiling of
/// `ceiling` bytes per output file.
pub fn bucket_count(total: usize, ceiling: usize) -> (count: usize)
    requires
        ceiling > 0,
    ensures
        count == buckets_for(total as nat, ceiling as nat),
        count >= 1,
{
    let full: usize = total / ceiling;
    let rest: usize = total % ceiling;
    proof {
        lemma_quotient_bound(total as nat, ceiling as nat);
    }
    if full == 0 && rest == 0 {
        1
    } else if rest == 0 {
        full
    } else {
        full + 1
    }
}

/// What a plan for `sizes` and a ceiling of `max_size_mb` mebibytes is: the
/// bucket count where the ceiling is above zero and both the ceiling in
/// bytes and the total size fit the machine word, and nothing otherwise.
pub open spec fn planned_buckets(sizes: Seq<usize>, max_size_mb: usize) -> Option<nat> {
    let ceiling: nat = (max_size_mb * BYTES_PER_MB) as nat;
    if max_size_mb == 0 || ceiling > usize::MAX || sum_of(sizes) > usize::MAX {
        None
    } else {
        Some(buckets_for(sum_of(sizes), ceiling))
    }
}

/// Plans a run: the number of buckets for input files of the given stored
/// sizes and a ceiling of `max_size_mb` mebibytes per output file.
pub fn plan_buckets(sizes: &Vec<usize>, max_size_mb: usize) -> (count: Option<usize>)
    ensures
        match count {
            Some(c) => planned_buckets(sizes@, max_size_mb) == Some(c as nat) && c >= 1,
            None => planned_buckets(sizes@, max_size_mb) is None,
        },
{
    match max_output_bytes(max_size_mb) {
        None => None,
        Some(ceiling) => {
            if ceiling == 0 {
                assert(max_size_mb == 0) by (nonlinear_arith)
                    requires
                        max_size_mb * BYTES_PER_MB == 0,
                        BYTES_PER_MB == 1048576,
                ;
                None
            } else {
                assert(max_size_mb != 0) by (nonlinear_arith)
                    requires
                        max_size_mb * BYTES_PER_MB != 0,
                ;
                match estimate_total_input_size(sizes) {
                    None => None,
                    Some(total) => Some(bucket_count(total, ceiling)),
                }
            }
        },
    }
}

/// With a remainder left, the quotient is strictly below the dividend.
proof fn lemma_quotient_bound(total: nat, ceiling: nat)
    requires
        ceiling > 0,
    ensures
        total % ceiling != 0 ==> total / ceiling < total,
{
    assert(total % ceiling != 0 ==> total / ceiling < total) by (nonlinear_arith)
        requires
            ceiling > 0,
    ;
}

} // verus!
