//! A pattern that is hard for a matcher that tries one way after the
//! other: `n` times "zero or one 1" followed by `n` times 1, to be matched
//! against `n` times 1.

use crate::regex::{cut, is_literal, matches_between, Regex};
use vstd::prelude::*;
use vstd::std_specs::cmp::PartialEqSpec;

verus! {

/// `p` is the part with index `idx` of the pattern for `n`: "zero or one
/// 1", greedy, for the first `n` parts, and 1 for the others.
pub open spec fn is_part(p: Regex<u32>, idx: int, n: int) -> bool {
    if idx < n {
        p matches Regex::ZeroOrOne(q, g) && g && is_literal(*q, 1u32)
    } else {
        is_literal(p, 1u32)
    }
}

/// `r` is the concatenation, nested to the left, of the first `k` parts of
/// the pattern for `n`.
pub open spec fn is_target(r: Regex<u32>, k: int, n: int) -> bool
    decreases k,
{
    if k <= 1 {
        is_part(r, 0, n)
    } else {
        r matches Regex::Concat(a, b) && is_target(*a, k - 1, n) && is_part(*b, k - 1, n)
    }
}

/// `n` times 1.
pub open spec fn ones(n: nat) -> Seq<u32> {
    Seq::new(n, |i: int| 1u32)
}

/// The pattern for `n`: `n` times "zero or one 1" and then `n` times 1.
pub fn build_target_vec_reg_with_size(n: usize) -> (r: Regex<u32>)
    requires
        n >= 1,
        2 * n <= usize::MAX,
    ensures
        is_target(r, 2 * n, n as int),
{
    let mut reg = Regex::zero_or_one(Regex::is(1u32), true);
    let mut k: usize = 1;
    while k < n
        invariant
            1 <= k <= n,
            is_target(reg, k as int, n as int),
        decreases n - k,
    {
        reg = Regex::concat(reg, Regex::zero_or_one(Regex::is(1u32), true));
        k += 1;
    }
    let mut j: usize = 0;
    while j < n
        invariant
            j <= n,
            2 * n <= usize::MAX,
            is_target(reg, n + j, n as int),
        decreases n - j,
    {
        reg = Regex::concat(reg, Regex::is(1u32));
        j += 1;
    }
    reg
}

/// The input for `n`: `n` times 1.
pub fn build_target_vec_reg_array_with_size(n: usize) -> (v: Vec<u32>)
    ensures
        v@ == ones(n as nat),
{
    let mut v: Vec<u32> = Vec::new();
    let mut i: usize = 0;
    while i < n
        invariant
            i <= n,
            v@ == ones(i as nat),
        decreases n - i,
    {
        v.push(1u32);
        i += 1;
        assert(v@ =~= ones(i as nat));
    }
    v
}

/// The first `k` parts of the pattern for `n` match the first `k - n`
/// elements of `n` times 1, or none where `k` is at most `n`.
pub proof fn lemma_target_matches(r: Regex<u32>, k: int, n: int)
    requires
        1 <= k <= 2 * n,
        is_target(r, k, n),
    ensures
        matches_between(
            r,
            ones(n as nat),
            0,
            if k <= n {
                0
            } else {
                k - n
            },
        ),
    decreases k,
{
    let xs = ones(n as nat);
    let end = if k <= n {
        0
    } else {
        k - n
    };
    if k > 1 {
        let a = crate::regex::inner(r);
        let b = crate::regex::second(r);
        lemma_target_matches(a, k - 1, n);
        let m = if k - 1 <= n {
            0
        } else {
            k - 1 - n
        };
        if k - 1 >= n {
            assert(xs[m] == 1u32);
            assert(matches_between(b, xs, m, m + 1));
        } else {
            assert(matches_between(b, xs, 0, 0));
        }
        assert(cut(m));
    }
}

/// The pattern for `n` matches the whole input for `n`.
pub proof fn law_target_matches_input(r: Regex<u32>, n: nat)
    requires
        n >= 1,
        is_target(r, 2 * (n as int), n as int),
    ensures
        matches_between(r, ones(n), 0, n as int),
{
    lemma_target_matches(r, 2 * (n as int), n as int);
}

} // verus!
