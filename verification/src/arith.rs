//! Falling factorials: the exact denominators of every path probability.
//!
//! A dealer or player state with `n` cards left and at most `k` draws to go
//! has path probabilities that are integer multiples of
//! `1 / (n * (n-1) * ... * (n-k+1))`.  This module defines that product and
//! proves the facts the engine needs about it.

use vstd::prelude::*;

verus! {

/// The falling factorial `n * (n-1) * ... * (n-k+1)`, the number of ordered
/// ways to deal `k` cards out of `n`.
pub open spec fn fall(n: int, k: nat) -> int
    decreases k,
{
    if k == 0 {
        1
    } else if n <= 0 {
        0
    } else {
        n * fall(n - 1, (k - 1) as nat)
    }
}

/// Splitting a run of `a + b` draws: deal `a` cards first, then `b` more
/// from what is left.
pub proof fn lemma_fall_split(n: int, a: nat, b: nat)
    requires
        0 <= n,
    ensures
        fall(n, a + b) == fall(n, a) * fall(n - a, b),
    decreases a,
{
    if a == 0 {
        assert(fall(n, b) == 1 * fall(n, b)) by (nonlinear_arith);
    } else if n == 0 {
        assert(fall(n, a + b) == 0);
        assert(fall(n, a) == 0);
    } else {
        lemma_fall_split(n - 1, (a - 1) as nat, b);
        assert(fall(n, (a + b) as nat) == n * fall(n - 1, ((a + b) - 1) as nat));
        assert(((a + b) - 1) as nat == ((a - 1) as nat) + b);
        assert(n * (fall(n - 1, (a - 1) as nat) * fall(n - 1 - ((a - 1) as nat), b)) == (n * fall(
            n - 1,
            (a - 1) as nat,
        )) * fall(n - a, b)) by (nonlinear_arith)
            requires
                n - 1 - ((a - 1) as nat) == n - a,
        ;
    }
}

/// A falling factorial is positive whenever there are enough cards for the
/// draws, and never negative.
pub proof fn lemma_fall_pos(n: int, k: nat)
    ensures
        0 <= fall(n, k),
        k <= n ==> 1 <= fall(n, k),
    decreases k,
{
    if k > 0 && n > 0 {
        lemma_fall_pos(n - 1, (k - 1) as nat);
        assert(0 <= n * fall(n - 1, (k - 1) as nat)) by (nonlinear_arith)
            requires
                0 <= n,
                0 <= fall(n - 1, (k - 1) as nat),
        ;
        if k <= n {
            assert(1 * 1 <= n * fall(n - 1, (k - 1) as nat)) by (nonlinear_arith)
                requires
                    1 <= n,
                    1 <= fall(n - 1, (k - 1) as nat),
            ;
        }
    }
}

/// More cards never shrink the product.
pub proof fn lemma_fall_mono_n(n1: int, n2: int, k: nat)
    requires
        0 <= n1 <= n2,
    ensures
        fall(n1, k) <= fall(n2, k),
    decreases k,
{
    if k > 0 && n1 > 0 {
        lemma_fall_mono_n(n1 - 1, n2 - 1, (k - 1) as nat);
        lemma_fall_pos(n1 - 1, (k - 1) as nat);
        assert(n1 * fall(n1 - 1, (k - 1) as nat) <= n2 * fall(n2 - 1, (k - 1) as nat))
            by (nonlinear_arith)
            requires
                0 < n1 <= n2,
                0 <= fall(n1 - 1, (k - 1) as nat) <= fall(n2 - 1, (k - 1) as nat),
        ;
    } else if k > 0 && n1 == 0 {
        lemma_fall_pos(n2, k);
    }
}

/// While draws stay within the cards available, a longer run has the
/// larger product.
pub proof fn lemma_fall_mono_k(n: int, k1: nat, k2: nat)
    requires
        k1 <= k2 <= n,
    ensures
        fall(n, k1) <= fall(n, k2),
    decreases k1,
{
    if k1 == 0 {
        lemma_fall_pos(n, k2);
    } else {
        lemma_fall_mono_k(n - 1, (k1 - 1) as nat, (k2 - 1) as nat);
        lemma_fall_pos(n - 1, (k1 - 1) as nat);
        assert(n * fall(n - 1, (k1 - 1) as nat) <= n * fall(n - 1, (k2 - 1) as nat))
            by (nonlinear_arith)
            requires
                0 < n,
                0 <= fall(n - 1, (k1 - 1) as nat) <= fall(n - 1, (k2 - 1) as nat),
        ;
    }
}

/// The engine's hard ceiling: with at most 156 cards in play and at most
/// 17 draws, every falling factorial stays below `2^124`, leaving room for
/// the halves and the per-branch weights the evaluators multiply in.
pub proof fn lemma_fall_limit(n: int, k: nat)
    requires
        0 <= n <= 156,
        k <= 17,
    ensures
        fall(n, k) <= fall(156, 17),
        fall(156, 17) < 0x10000000000000000000000000000000,
{
    lemma_fall_mono_n(n, 156, k);
    lemma_fall_mono_k(156, k, 17);
    assert(fall(139, 0) == 1);
    assert(fall(140, 1) == 140);
    assert(fall(141, 2) == 19740);
    assert(fall(142, 3) == 2803080);
    assert(fall(143, 4) == 400840440);
    assert(fall(144, 5) == 57721023360);
    assert(fall(145, 6) == 8369548387200);
    assert(fall(146, 7) == 1221954064531200);
    assert(fall(147, 8) == 179627247486086400);
    assert(fall(148, 9) == 26584832627940787200);
    assert(fall(149, 10) == 3961140061563177292800);
    assert(fall(150, 11) == 594171009234476593920000);
    assert(fall(151, 12) == 89719822394405965681920000);
    assert(fall(152, 13) == 13637413003949706783651840000);
    assert(fall(153, 14) == 2086524189604305137898731520000);
    assert(fall(154, 15) == 321324725199062991236404654080000);
    assert(fall(155, 16) == 49805332405854763641642721382400000);
    assert(fall(156, 17) == 7769631855313343128096264535654400000);
}

/// Runtime falling factorial.
pub fn fall_exec(n: u32, k: u32) -> (r: u128)
    requires
        fall(n as int, k as nat) <= u128::MAX,
    ensures
        r == fall(n as int, k as nat),
{
    if k > n {
        proof {
            lemma_fall_k_gt_n(n as int, k as nat);
        }
        return 0;
    }
    let mut acc: u128 = 1;
    let mut j: u32 = 0;
    while j < k
        invariant
            j <= k <= n,
            acc == fall_partial(n as int, j as nat),
            fall(n as int, k as nat) <= u128::MAX,
        decreases k - j,
    {
        proof {
            lemma_fall_partial_steps(n as int, j as nat, k as nat);
        }
        acc = acc * ((n - j) as u128);
        j += 1;
    }
    proof {
        lemma_fall_partial_full(n as int, k as nat);
    }
    acc
}

/// The first `j` factors of `fall(n, _)`, counted from `n` downward.
pub open spec fn fall_partial(n: int, j: nat) -> int
    decreases j,
{
    if j == 0 {
        1
    } else {
        fall_partial(n, (j - 1) as nat) * (n - (j - 1))
    }
}

proof fn lemma_fall_k_gt_n(n: int, k: nat)
    requires
        0 <= n < k,
    ensures
        fall(n, k) == 0,
    decreases k,
{
    if n > 0 {
        lemma_fall_k_gt_n(n - 1, (k - 1) as nat);
    }
}

proof fn lemma_fall_partial_full(n: int, k: nat)
    requires
        k <= n,
    ensures
        fall_partial(n, k) == fall(n, k),
    decreases k,
{
    lemma_fall_partial_is_prefix(n, k, k);
    assert(fall_partial(n, k) * 1 == fall_partial(n, k)) by (nonlinear_arith);
}

/// `fall_partial(n, j) * fall(n - j, k - j) == fall(n, k)` for `j <= k <= n`.
proof fn lemma_fall_partial_is_prefix(n: int, j: nat, k: nat)
    requires
        j <= k <= n,
    ensures
        fall_partial(n, j) * fall(n - j, (k - j) as nat) == fall(n, k),
    decreases j,
{
    if j == 0 {
        assert(1 * fall(n, k) == fall(n, k)) by (nonlinear_arith);
    } else {
        lemma_fall_partial_is_prefix(n, (j - 1) as nat, k);
        let p = fall_partial(n, (j - 1) as nat);
        let f = n - (j - 1);
        assert(fall(n - (j - 1), (k - (j - 1)) as nat) == f * fall(n - j, (k - j) as nat));
        assert(p * (f * fall(n - j, (k - j) as nat)) == (p * f) * fall(n - j, (k - j) as nat))
            by (nonlinear_arith);
    }
}

proof fn lemma_fall_partial_steps(n: int, j: nat, k: nat)
    requires
        j < k <= n,
    ensures
        fall_partial(n, j) * (n - j) == fall_partial(n, j + 1),
        0 <= fall_partial(n, j + 1) <= fall(n, k),
        0 <= fall_partial(n, j),
{
    lemma_fall_partial_is_prefix(n, j + 1, k);
    lemma_fall_partial_is_prefix(n, j, k);
    lemma_fall_pos(n - (j + 1), (k - (j + 1)) as nat);
    lemma_fall_pos(n - j, (k - j) as nat);
    lemma_fall_pos(n, k);
    let p = fall_partial(n, j + 1);
    let q = fall(n - (j + 1), (k - (j + 1)) as nat);
    let prev_part = fall_partial(n, j);
    let prev_rest = fall(n - j, (k - j) as nat);
    assert(0 <= prev_part) by (nonlinear_arith)
        requires
            prev_part * prev_rest == fall(n, k),
            0 <= fall(n, k),
            1 <= prev_rest,
    ;
    assert(0 <= p && p <= p * q) by (nonlinear_arith)
        requires
            p == prev_part * (n - j),
            0 <= prev_part,
            0 < n - j,
            1 <= q,
    ;
}

} // verus!
