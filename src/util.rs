//! Bit helpers shared by the region arithmetic and the page-table code.
use vstd::arithmetic::div_mod::*;
use vstd::arithmetic::power2::*;
use vstd::prelude::*;

verus! {

/// Index of the lowest set bit of a positive number.
pub open spec fn lsb_nat(x: nat) -> nat
    decreases x,
{
    if x == 0 || x % 2 == 1 {
        0
    } else {
        1 + lsb_nat(x / 2)
    }
}

/// Index of the highest set bit of a positive number.
pub open spec fn msb_nat(x: nat) -> nat
    decreases x,
{
    if x <= 1 {
        0
    } else {
        1 + msb_nat(x / 2)
    }
}

/// `pow2(msb(x)) <= x < pow2(msb(x) + 1)` for every positive `x`.
pub proof fn lemma_msb_bounds(x: nat)
    requires
        x > 0,
    ensures
        pow2(msb_nat(x)) <= x < pow2(msb_nat(x) + 1),
    decreases x,
{
    lemma2_to64();
    if x > 1 {
        lemma_msb_bounds(x / 2);
        let k = msb_nat(x / 2);
        lemma_pow2_unfold(k + 1);
        lemma_pow2_unfold(k + 2);
    }
}

/// Every number divisible by `pow2(j)` is divisible by `pow2(k)` for `k <= j`.
pub proof fn lemma_pow2_divides(x: nat, k: nat, j: nat)
    requires
        k <= j,
        x % pow2(j) == 0,
    ensures
        x % pow2(k) == 0,
{
    lemma_pow2_pos(j);
    lemma_pow2_pos(k);
    lemma_pow2_adds(k, (j - k) as nat);
    lemma_fundamental_div_mod(x as int, pow2(j) as int);
    let m = x / pow2(j);
    assert(x == m * pow2(j));
    assert(x == (m * pow2((j - k) as nat)) * pow2(k)) by (nonlinear_arith)
        requires
            x == m * pow2(j),
            pow2(j) == pow2(k) * pow2((j - k) as nat),
    ;
    lemma_mod_multiples_basic((m * pow2((j - k) as nat)) as int, pow2(k) as int);
}

/// A positive number is a multiple of two to the index of its lowest set bit.
pub proof fn lemma_lsb_divides(x: nat)
    requires
        x > 0,
    ensures
        x % pow2(lsb_nat(x)) == 0,
    decreases x,
{
    lemma2_to64();
    if x % 2 == 1 {
    } else {
        let h = x / 2;
        lemma_lsb_divides(h);
        let k = lsb_nat(h);
        lemma_pow2_pos(k);
        lemma_fundamental_div_mod(h as int, pow2(k) as int);
        let m = h / pow2(k);
        assert(h == m * pow2(k)) by (nonlinear_arith)
            requires
                h == pow2(k) * (h / pow2(k)) + h % pow2(k),
                h % pow2(k) == 0,
                m == h / pow2(k),
        ;
        lemma_pow2_unfold(k + 1);
        assert(x == m * pow2(k + 1)) by (nonlinear_arith)
            requires
                h == m * pow2(k),
                x == 2 * h,
                pow2(k + 1) == 2 * pow2(k),
        ;
        lemma_mod_multiples_basic(m as int, pow2(k + 1) as int);
    }
}

/// `pow2` is monotone.
pub proof fn lemma_pow2_le(k: nat, j: nat)
    requires
        k <= j,
    ensures
        pow2(k) <= pow2(j),
{
    if k < j {
        lemma_pow2_strictly_increases(k, j);
    }
}

/// The index of the lowest set bit of `x`, or 64 when `x` is zero.
pub fn lsb(x: u64) -> (r: u64)
    ensures
        x == 0 ==> r == 64,
        x > 0 ==> r == lsb_nat(x as nat) && r < 64,
{
    if x == 0 {
        return 64;
    }
    let mut v: u64 = x;
    let mut n: u64 = 0;
    proof {
        lemma2_to64();
    }
    while v % 2 == 0
        invariant
            0 < v <= x,
            n < 64,
            lsb_nat(x as nat) == n + lsb_nat(v as nat),
            x as nat == v as nat * pow2(n as nat),
        decreases v,
    {
        proof {
            lemma_pow2_unfold((n + 1) as nat);
            assert(x as nat == (v / 2) as nat * pow2((n + 1) as nat)) by (nonlinear_arith)
                requires
                    x as nat == v as nat * pow2(n as nat),
                    v % 2 == 0,
                    pow2((n + 1) as nat) == 2 * pow2(n as nat),
            ;
            assert((v / 2) as nat * pow2((n + 1) as nat) >= pow2((n + 1) as nat)) by (nonlinear_arith)
                requires
                    v / 2 >= 1,
            ;
            if n + 1 >= 64 {
                lemma_pow2_le(64, (n + 1) as nat);
                lemma2_to64_rest();
            }
        }
        v = v / 2;
        n = n + 1;
    }
    n
}

/// The index of the highest set bit of `x`, which must be positive.
pub fn msb(x: u64) -> (r: u64)
    requires
        x > 0,
    ensures
        r == msb_nat(x as nat),
        r < 64,
{
    let mut v: u64 = x;
    let mut n: u64 = 0;
    proof {
        lemma2_to64();
    }
    while v > 1
        invariant
            0 < v <= x,
            n < 64,
            msb_nat(x as nat) == n + msb_nat(v as nat),
            v as nat * pow2(n as nat) <= x as nat,
        decreases v,
    {
        proof {
            lemma_pow2_unfold((n + 1) as nat);
            assert(pow2((n + 1) as nat) <= v as nat * pow2(n as nat)) by (nonlinear_arith)
                requires
                    v >= 2,
                    pow2((n + 1) as nat) == 2 * pow2(n as nat),
            ;
            assert((v / 2) as nat * pow2((n + 1) as nat) <= v as nat * pow2(n as nat)) by (nonlinear_arith)
                requires
                    pow2((n + 1) as nat) == 2 * pow2(n as nat),
            ;
            if n + 1 >= 64 {
                lemma_pow2_le(64, (n + 1) as nat);
                lemma2_to64_rest();
            }
        }
        v = v / 2;
        n = n + 1;
    }
    n
}

/// Rounds `n` up to the next multiple of `x`.
pub fn round_up(n: u64, x: u64) -> (r: u64)
    requires
        x > 0,
        n + x <= u64::MAX,
    ensures
        r as int == round_up_spec(n as int, x as int),
        r % x == 0,
        n <= r < n + x,
{
    let rem = n % x;
    proof {
        lemma_fundamental_div_mod(n as int, x as int);
        lemma_mod_multiples_basic(n as int / x as int + 1, x as int);
        assert(n - rem + x == (n as int / x as int + 1) * x) by (nonlinear_arith)
            requires
                n == x * (n as int / x as int) + rem,
        ;
    }
    if rem == 0 {
        n
    } else {
        n - rem + x
    }
}

/// The rounded value is a multiple of `x`, at or above `n` and below `n + x`.
pub proof fn lemma_round_up_aligned(n: int, x: int)
    requires
        n >= 0,
        x > 0,
    ensures
        round_up_spec(n, x) % x == 0,
        n <= round_up_spec(n, x) < n + x,
{
    lemma_fundamental_div_mod(n, x);
    lemma_mod_bound(n, x);
    lemma_mod_multiples_basic(n / x + 1, x);
    lemma_mod_multiples_basic(n / x, x);
    assert(n - n % x + x == (n / x + 1) * x) by (nonlinear_arith)
        requires
            n == x * (n / x) + n % x,
    ;
    assert(n - n % x == (n / x) * x) by (nonlinear_arith)
        requires
            n == x * (n / x) + n % x,
    ;
}

/// The least multiple of `x` that is not below `n`.
pub open spec fn round_up_spec(n: int, x: int) -> int {
    if n % x == 0 {
        n
    } else {
        n - n % x + x
    }
}

} // verus!
