//! Arithmetic facts on blocks of `p` consecutive integers (cells of a given depth seen at the
//! deepest resolution).

use vstd::arithmetic::div_mod::*;
use vstd::arithmetic::mul::*;
use vstd::arithmetic::power2::*;
use vstd::prelude::*;

verus! {

/// `x / p == q` exactly when `x` lies in `[q * p, q * p + p[`.
pub proof fn lemma_div_char(x: int, p: int, q: int)
    requires
        p > 0,
    ensures
        (q * p <= x < q * p + p) <==> (x / p == q),
{
    lemma_fundamental_div_mod(x, p);
    lemma_mod_bound(x, p);
    lemma_mul_is_commutative(p, x / p);
    if q * p <= x < q * p + p {
        lemma_fundamental_div_mod_converse(x, p, q, x - q * p);
    }
}

/// Lower and upper bounds of the block holding `x`.
pub proof fn lemma_block_bounds(x: int, p: int)
    requires
        p > 0,
    ensures
        (x / p) * p <= x < (x / p) * p + p,
{
    lemma_div_char(x, p, x / p);
}

/// A multiple of `p` lower than or equal to `x` is at most the start of the block of `x`.
pub proof fn lemma_aligned_le(a: int, x: int, p: int)
    requires
        p > 0,
        a % p == 0,
        a <= x,
    ensures
        a <= (x / p) * p,
{
    lemma_fundamental_div_mod(a, p);
    lemma_mul_is_commutative(p, a / p);
    lemma_div_is_ordered(a, x, p);
    lemma_mul_inequality(a / p, x / p, p);
}

/// A multiple of `p` greater than `x` is at least the end of the block of `x`.
pub proof fn lemma_aligned_gt(b: int, x: int, p: int)
    requires
        p > 0,
        b % p == 0,
        x < b,
    ensures
        (x / p) * p + p <= b,
{
    lemma_fundamental_div_mod(b, p);
    lemma_mul_is_commutative(p, b / p);
    lemma_block_bounds(x, p);
    if b / p <= x / p {
        lemma_mul_inequality(b / p, x / p, p);
    }
    lemma_mul_inequality(x / p + 1, b / p, p);
    lemma_mul_is_distributive_add_other_way(p, x / p, 1);
}

/// If `x - 1` and `x` lie in different blocks, `x` is a multiple of `p`.
pub proof fn lemma_block_change(x: int, p: int)
    requires
        p > 0,
        (x - 1) / p != x / p,
    ensures
        x % p == 0,
{
    lemma_block_bounds(x, p);
    lemma_block_bounds(x - 1, p);
    let q = x / p;
    if x != q * p {
        // q * p < x, so x - 1 is in the same block
        lemma_div_char(x - 1, p, q);
    }
    lemma_fundamental_div_mod_converse(x, p, q, 0);
}

/// Multiples of `pow2(e2)` are multiples of `pow2(e1)` when `e1 <= e2`.
pub proof fn lemma_pow2_multiple(x: int, e1: nat, e2: nat)
    requires
        e1 <= e2,
        x % (pow2(e2) as int) == 0,
    ensures
        x % (pow2(e1) as int) == 0,
{
    lemma_pow2_pos(e1);
    lemma_pow2_pos(e2);
    lemma_pow2_adds(e1, (e2 - e1) as nat);
    let p1 = pow2(e1) as int;
    let m = pow2((e2 - e1) as nat) as int;
    lemma_fundamental_div_mod(x, pow2(e2) as int);
    // x == pow2(e2) * (x / pow2(e2)) == p1 * (m * (x / pow2(e2)))
    lemma_mul_is_associative(p1, m, x / (pow2(e2) as int));
    lemma_mul_is_commutative(p1, m * (x / (pow2(e2) as int)));
    lemma_mod_multiples_basic(m * (x / (pow2(e2) as int)), p1);
}

/// Rounding the range `[a, b[` outwards to whole blocks gives exactly the values sharing a
/// block with a value of `[a, b[`.
pub proof fn lemma_round_range(a: int, b: int, p: int, x: int)
    requires
        p > 0,
        0 <= a < b,
        0 <= x,
    ensures
        ((a / p) * p <= x < ((b - 1) / p) * p + p) <==> (exists|y: int| a <= y < b && #[trigger] (y / p) == x / p),
{
    lemma_block_bounds(a, p);
    lemma_block_bounds(b - 1, p);
    lemma_block_bounds(x, p);
    if (a / p) * p <= x < ((b - 1) / p) * p + p {
        let y = if x < a {
            a
        } else if x >= b {
            b - 1
        } else {
            x
        };
        if x < a {
            lemma_div_char(x, p, a / p);
        } else if x >= b {
            lemma_div_char(x, p, (b - 1) / p);
        }
        assert(a <= y < b && y / p == x / p);
    }
    if exists|y: int| a <= y < b && #[trigger] (y / p) == x / p {
        let y = choose|y: int| a <= y < b && #[trigger] (y / p) == x / p;
        lemma_div_is_ordered(a, y, p);
        lemma_div_is_ordered(y, b - 1, p);
        lemma_mul_inequality(a / p, x / p, p);
        lemma_mul_inequality(x / p, (b - 1) / p, p);
    }
}

} // verus!
