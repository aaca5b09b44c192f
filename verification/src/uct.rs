//! Fixed-point integer arithmetic for the UCT selection rule: a
//! floor square root, a bit-length logarithm, and the key
//! `(score/visits + 1)/2 + C·sqrt(ln(parent)/visits)` scaled by 2^20,
//! with an unvisited child outranking every visited one.
//!
//! The natural logarithm is approximated at whole-bit granularity
//! (`bitlen(n)·ln 2`), and the exploration constant C = 1.8 is a design
//! parameter. Pure integer arithmetic keeps the search deterministic
//! across platforms and provable free of rounding surprises.

use vstd::prelude::*;
use vstd::arithmetic::div_mod::{lemma_div_is_ordered, lemma_div_multiples_vanish};
use vstd::arithmetic::power2::{pow2, lemma_pow2_unfold, lemma2_to64, lemma2_to64_rest};

verus! {

/// The fixed-point unit (2^20).
pub const SCALE: u128 = 1048576;

/// ln(2) in fixed point, rounded to nearest.
pub const LN2_FP: u128 = 726817;

/// The exploration constant 1.8 as the ratio 9 / 5.
pub const EXPLORE_NUM: u128 = 9;

/// The exploration constant 1.8 as the ratio 9 / 5.
pub const EXPLORE_DEN: u128 = 5;

/// The key of an unvisited child: larger than every computed key.
pub const UNVISITED_KEY: u128 = 1000000000000;

/// How many visits a node may accumulate before counting stops; the
/// accumulated score then always fits an `i64`.
pub const VISIT_CAP: u64 = 0x7fffffffffffffff;

/// The number of binary digits of `n`.
pub open spec fn bitlen(n: nat) -> nat
    decreases n,
{
    if n == 0 {
        0
    } else {
        1 + bitlen(n / 2)
    }
}

/// A number below 2^b has at most b binary digits.
pub proof fn lemma_bitlen_bound(n: nat, b: nat)
    requires
        n < pow2(b),
    ensures
        bitlen(n) <= b,
    decreases b,
{
    if n > 0 {
        assert(pow2(0) == 1) by {
            lemma2_to64();
        }
        assert(b > 0);
        lemma_pow2_unfold(b);
        lemma_bitlen_bound(n / 2, (b - 1) as nat);
    }
}

/// The floor of the square root of `n`.
pub open spec fn sqrt_floor(n: nat) -> nat
    decreases n,
{
    if n == 0 {
        0
    } else {
        let s = sqrt_floor((n - 1) as nat);
        if (s + 1) * (s + 1) <= n {
            s + 1
        } else {
            s
        }
    }
}

/// The defining window of the floor square root.
pub proof fn lemma_sqrt_floor_props(n: nat)
    ensures
        sqrt_floor(n) * sqrt_floor(n) <= n,
        n < (sqrt_floor(n) + 1) * (sqrt_floor(n) + 1),
    decreases n,
{
    if n > 0 {
        lemma_sqrt_floor_props((n - 1) as nat);
        let s = sqrt_floor((n - 1) as nat);
        assert(s * s <= n - 1 && ((n - 1) as nat) < ((s + 1) * (s + 1)));
        assert(sqrt_floor(n) == if (s + 1) * (s + 1) <= n {
            s + 1
        } else {
            s
        });
        if (s + 1) * (s + 1) <= n {
            assert(n <= (s + 1) * (s + 1)) by (nonlinear_arith)
                requires
                    ((n - 1) as nat) < ((s + 1) * (s + 1)),
                    n >= 1,
            ;
            assert((s + 1) * (s + 1) < ((s + 1) + 1) * ((s + 1) + 1)) by (nonlinear_arith);
            assert(sqrt_floor(n) == s + 1);
            assert(sqrt_floor(n) * sqrt_floor(n) <= n);
            assert(n < (sqrt_floor(n) + 1) * (sqrt_floor(n) + 1));
        } else {
            assert(s * s <= n) by (nonlinear_arith)
                requires
                    s * s <= (n - 1) as nat,
                    n >= 1,
            ;
            assert(sqrt_floor(n) == s);
            assert(sqrt_floor(n) * sqrt_floor(n) <= n);
            assert(n < (sqrt_floor(n) + 1) * (sqrt_floor(n) + 1));
        }
    } else {
        assert(sqrt_floor(0nat) == 0);
        assert((0nat + 1) * (0nat + 1) == 1) by (nonlinear_arith);
    }
}

/// The window pins the floor square root down.
pub proof fn lemma_sqrt_unique(n: nat, r: nat)
    requires
        r * r <= n,
        n < (r + 1) * (r + 1),
    ensures
        r == sqrt_floor(n),
{
    lemma_sqrt_floor_props(n);
    let s = sqrt_floor(n);
    assert(r == s) by (nonlinear_arith)
        requires
            r * r <= n,
            n < (r + 1) * (r + 1),
            s * s <= n,
            n < (s + 1) * (s + 1),
    ;
}

/// The number of binary digits of `n`, by repeated halving.
pub fn bit_length(n: u64) -> (b: u8)
    ensures
        b as nat == bitlen(n as nat),
        b <= 64,
{
    let mut x = n;
    let mut b: u8 = 0;
    proof {
        lemma2_to64();
        lemma2_to64_rest();
        lemma_bitlen_bound(n as nat, 64);
    }
    while x > 0
        invariant
            b as nat + bitlen(x as nat) == bitlen(n as nat),
            bitlen(n as nat) <= 64,
        decreases x,
    {
        x = x / 2;
        b = b + 1;
    }
    b
}

/// The floor square root, by binary search on the window.
pub fn isqrt(n: u128) -> (r: u128)
    requires
        n < 1125899906842624,  // 2^50
    ensures
        r as nat == sqrt_floor(n as nat),
        r < 33554432,  // 2^25
{
    let mut lo: u128 = 0;
    let mut hi: u128 = 33554432;  // 2^25
    proof {
        assert(33554432u128 * 33554432u128 == 1125899906842624u128);
    }
    while hi - lo > 1
        invariant
            lo < hi,
            hi <= 33554432,
            (lo as nat) * (lo as nat) <= n as nat,
            (n as nat) < (hi as nat) * (hi as nat),
        decreases hi - lo,
    {
        let mid = lo + (hi - lo) / 2;
        proof {
            assert(mid * mid < 1329227995784915872903807060280344576) by (nonlinear_arith)
                requires
                    mid <= 33554432u128,
            ;
        }
        if mid * mid <= n {
            lo = mid;
        } else {
            hi = mid;
        }
    }
    proof {
        lemma_sqrt_unique(n as nat, lo as nat);
    }
    lo
}

/// The UCT key of a child with `score`, `visits`, under a parent with
/// `parent_visits`, in fixed point: the score normalised to `[0, 1]`
/// plus the exploration bonus; an unvisited child gets the maximal key.
pub open spec fn uct_key(score: int, visits: int, parent_visits: int) -> int {
    if visits <= 0 {
        UNVISITED_KEY as int
    } else {
        (score + visits) * (SCALE as int) / (2 * visits) + (EXPLORE_NUM as int) * (sqrt_floor(
            ((bitlen(parent_visits as nat) * (LN2_FP as nat) * (SCALE as nat)) / (
            visits as nat)) as nat,
        ) as int) / (EXPLORE_DEN as int)
    }
}

/// Computes the UCT key of a visited child; always below the key of an
/// unvisited one.
pub fn uct_key_exec(score: i64, visits: u64, parent_visits: u64) -> (r: u128)
    requires
        1 <= visits,
        -(visits as int) <= score as int <= visits as int,
    ensures
        r as int == uct_key(score as int, visits as int, parent_visits as int),
        r < UNVISITED_KEY,
{
    let sv: u128 = (score as i128 + visits as i128) as u128;
    let v: u128 = visits as u128;
    let adjusted: u128 = sv * SCALE / (2 * v);
    proof {
        assert(sv * SCALE <= (2 * v) * SCALE) by (nonlinear_arith)
            requires
                sv <= 2 * v,
        ;
        lemma_div_is_ordered((sv * SCALE) as int, ((2 * v) * SCALE) as int, (2 * v) as int);
        lemma_div_multiples_vanish(SCALE as int, (2 * v) as int);
        assert((2 * v) * SCALE == (2 * v as int) * (SCALE as int)) by (nonlinear_arith);
        assert(adjusted <= SCALE);
    }
    let bl = bit_length(parent_visits);
    let t: u128 = ((bl as u128) * LN2_FP * SCALE) / v;
    proof {
        assert((bl as u128) * LN2_FP * SCALE <= 64 * LN2_FP * SCALE) by (nonlinear_arith)
            requires
                bl <= 64,
        ;
        lemma_div_is_ordered(
            ((bl as u128) * LN2_FP * SCALE) as int,
            (64 * LN2_FP * SCALE) as int,
            v as int,
        );
        assert(t < 1125899906842624);
    }
    let root = isqrt(t);
    let expl: u128 = EXPLORE_NUM * root / EXPLORE_DEN;
    proof {
        assert(expl <= 9 * 33554432 / 5) by (nonlinear_arith)
            requires
                root < 33554432u128,
                expl == 9 * root / 5,
        ;
    }
    adjusted + expl
}

} // verus!
