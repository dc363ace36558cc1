//! Counting facts behind the subset generator's output bound: binomial
//! coefficients, powers of two, and the row sum of Pascal's triangle.
use vstd::prelude::*;

verus! {

/// The binomial coefficient: how many size-k index combinations a set of n
/// positions has.
pub open spec fn binom(n: nat, k: nat) -> nat
    decreases n,
{
    if k == 0 {
        1
    } else if n == 0 {
        0
    } else {
        binom((n - 1) as nat, (k - 1) as nat) + binom((n - 1) as nat, k)
    }
}

/// Two to the n-th.
pub open spec fn pow2(n: nat) -> nat
    decreases n,
{
    if n == 0 {
        1
    } else {
        2 * pow2((n - 1) as nat)
    }
}

/// The sum of binom(n, l) for l from lo up to hi.
pub open spec fn binom_sum(n: nat, lo: nat, hi: int) -> nat
    decreases hi - lo + 1,
{
    if hi < lo {
        0
    } else {
        binom(n, hi as nat) + binom_sum(n, lo, hi - 1)
    }
}

/// Choosing more elements than there are positions is impossible.
pub proof fn lemma_binom_vanishes(n: nat, k: nat)
    requires
        k > n,
    ensures
        binom(n, k) == 0,
    decreases n,
{
    if n > 0 {
        lemma_binom_vanishes((n - 1) as nat, (k - 1) as nat);
        lemma_binom_vanishes((n - 1) as nat, k);
    }
}

/// There are exactly n single positions.
pub proof fn lemma_binom_one(n: nat)
    ensures
        binom(n, 1) == n,
    decreases n,
{
    if n > 0 {
        lemma_binom_one((n - 1) as nat);
        assert(binom(n, 1) == binom((n - 1) as nat, 0) + binom((n - 1) as nat, 1));
    } else {
        assert(binom(0, 1) == 0);
    }
}

/// Pascal's rule, lifted to prefix sums of a row.
proof fn lemma_binom_sum_pascal(n: nat, h: nat)
    requires
        n >= 1,
        h >= 1,
    ensures
        binom_sum(n, 0, h as int) == binom_sum((n - 1) as nat, 0, h - 1) + binom_sum(
            (n - 1) as nat,
            0,
            h as int,
        ),
    decreases h,
{
    let m = (n - 1) as nat;
    if h == 1 {
        assert(binom_sum(n, 0, -1) == 0);
        assert(binom_sum(m, 0, -1) == 0);
        assert(binom_sum(n, 0, 0) == binom(n, 0) + binom_sum(n, 0, -1));
        assert(binom_sum(m, 0, 0) == binom(m, 0) + binom_sum(m, 0, -1));
        assert(binom_sum(n, 0, 1) == binom(n, 1) + binom_sum(n, 0, 0));
        assert(binom_sum(m, 0, 1) == binom(m, 1) + binom_sum(m, 0, 0));
        assert(binom(n, 1) == binom(m, 0) + binom(m, 1));
    } else {
        lemma_binom_sum_pascal(n, (h - 1) as nat);
        assert(binom_sum(n, 0, h as int) == binom(n, h) + binom_sum(n, 0, h - 1));
        assert(binom_sum(m, 0, h as int) == binom(m, h) + binom_sum(m, 0, h - 1));
        assert(binom_sum(m, 0, h - 1) == binom(m, (h - 1) as nat) + binom_sum(m, 0, h - 2));
        assert(binom(n, h) == binom(m, (h - 1) as nat) + binom(m, h));
    }
}

/// A full row of Pascal's triangle sums to a power of two.
pub proof fn lemma_binom_row_sum(n: nat)
    ensures
        binom_sum(n, 0, n as int) == pow2(n),
    decreases n,
{
    if n == 0 {
        assert(binom_sum(0, 0, -1) == 0);
        assert(binom_sum(0, 0, 0) == binom(0, 0) + binom_sum(0, 0, -1));
    } else {
        let m = (n - 1) as nat;
        lemma_binom_sum_pascal(n, n);
        lemma_binom_row_sum(m);
        lemma_binom_vanishes(m, n);
        assert(binom_sum(m, 0, n as int) == binom(m, n) + binom_sum(m, 0, n - 1));
    }
}

/// A row sum from zero splits off its first two terms.
proof fn lemma_binom_sum_split(n: nat, h: int)
    requires
        h >= 1,
    ensures
        binom_sum(n, 0, h) == binom_sum(n, 2, h) + binom(n, 1) + binom(n, 0),
    decreases h,
{
    if h == 1 {
        assert(binom_sum(n, 2, 1) == 0);
        assert(binom_sum(n, 0, -1) == 0);
        assert(binom_sum(n, 0, 0) == binom(n, 0) + binom_sum(n, 0, -1));
        assert(binom_sum(n, 0, 1) == binom(n, 1) + binom_sum(n, 0, 0));
    } else {
        lemma_binom_sum_split(n, h - 1);
        assert(binom_sum(n, 0, h) == binom(n, h as nat) + binom_sum(n, 0, h - 1));
        assert(binom_sum(n, 2, h) == binom(n, h as nat) + binom_sum(n, 2, h - 1));
    }
}

/// The number of index combinations of sizes two to n: all 2^n subsets of
/// the positions, less the empty one and the n single ones.
pub proof fn lemma_binom_sum_from_two(n: nat)
    requires
        n >= 2,
    ensures
        binom_sum(n, 2, n as int) + n + 1 == pow2(n),
{
    lemma_binom_row_sum(n);
    lemma_binom_one(n);
    lemma_binom_sum_split(n, n as int);
}

} // verus!
