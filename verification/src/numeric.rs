//! Small integer helpers shared by the sketch: powers of two and the
//! floor of the base-two logarithm, with exact contracts.

use vstd::prelude::*;
use vstd::arithmetic::power2::{pow2, lemma_pow2_adds, lemma_pow2_strictly_increases, lemma2_to64, lemma2_to64_rest};
use vstd::arithmetic::div_mod::lemma_div_is_ordered_by_denominator;

verus! {

/// Floor of the base-two logarithm; zero on zero.
pub open spec fn spec_floor_log2(n: nat) -> nat
    decreases n,
{
    if n <= 1 {
        0
    } else {
        1 + spec_floor_log2(n / 2)
    }
}

/// `spec_floor_log2(n)` names the unique exponent whose power of two
/// brackets `n`.
pub proof fn lemma_floor_log2_bounds(n: nat)
    requires
        n >= 1,
    ensures
        pow2(spec_floor_log2(n)) <= n,
        n < pow2(spec_floor_log2(n) + 1),
    decreases n,
{
    if n <= 1 {
        assert(pow2(0) == 1) by { lemma2_to64(); };
        assert(pow2(1) == 2) by { lemma2_to64(); };
    } else {
        lemma_floor_log2_bounds(n / 2);
        let e = spec_floor_log2(n / 2);
        lemma_pow2_adds(e, 1);
        lemma_pow2_adds(e + 1, 1);
        assert(pow2(e + 1) == pow2(e) * 2) by { lemma2_to64(); };
        assert(pow2(e + 2) == pow2(e + 1) * 2) by { lemma2_to64(); };
        assert(pow2(e) <= n / 2);
        assert(n / 2 < pow2(e + 1));
        assert(2 * (n / 2) <= n && n <= 2 * (n / 2) + 1) by {
            assert(n == 2 * (n / 2) + n % 2);
        };
    }
}

/// A value below a power of two has a strictly smaller floor logarithm.
pub proof fn lemma_floor_log2_lt(n: nat, k: nat)
    requires
        1 <= n,
        n < pow2(k),
    ensures
        spec_floor_log2(n) < k,
{
    lemma_floor_log2_bounds(n);
    let e = spec_floor_log2(n);
    if e >= k {
        if e > k {
            lemma_pow2_strictly_increases(k, e);
        }
        assert(pow2(k) <= pow2(e));
        assert(false);
    }
}

/// The floor logarithm is monotone.
pub proof fn lemma_floor_log2_mono(a: nat, b: nat)
    requires
        1 <= a <= b,
    ensures
        spec_floor_log2(a) <= spec_floor_log2(b),
    decreases a,
{
    if a <= 1 {
    } else {
        lemma_div_is_ordered_by_denominator(a as int, 2, 2);
        assert(a / 2 <= b / 2) by {
            vstd::arithmetic::div_mod::lemma_div_is_ordered(a as int, b as int, 2);
        };
        lemma_floor_log2_mono(a / 2, b / 2);
    }
}

/// Executable power of two in `u64`.
pub fn pow2_u64(e: usize) -> (r: u64)
    requires
        e <= 63,
    ensures
        r as nat == pow2(e as nat),
        r >= 1,
{
    let mut r: u64 = 1;
    let mut i: usize = 0;
    proof {
        lemma2_to64();
        lemma2_to64_rest();
    }
    while i < e
        invariant
            i <= e,
            e <= 63,
            r as nat == pow2(i as nat),
        decreases e - i,
    {
        proof {
            if (i + 1) as nat <= 63 {
                if ((i + 1) as nat) < 63 {
                    lemma_pow2_strictly_increases((i + 1) as nat, 63);
                }
                assert(pow2(63) == 0x8000000000000000) by {
                    lemma2_to64_rest();
                };
            }
            lemma_pow2_adds(i as nat, 1);
            assert(pow2(1) == 2) by { lemma2_to64(); };
        }
        r = r * 2;
        i = i + 1;
    }
    proof {
        vstd::arithmetic::power2::lemma_pow2_pos(e as nat);
    }
    r
}

/// Executable power of two in `u128`.
pub fn pow2_u128(e: usize) -> (r: u128)
    requires
        e <= 127,
    ensures
        r as nat == pow2(e as nat),
        r >= 1,
{
    let mut r: u128 = 1;
    let mut i: usize = 0;
    proof {
        lemma2_to64();
        lemma2_to64_rest();
    }
    while i < e
        invariant
            i <= e,
            e <= 127,
            r as nat == pow2(i as nat),
        decreases e - i,
    {
        proof {
            if (i + 1) as nat <= 127 {
                if ((i + 1) as nat) < 127 {
                    lemma_pow2_strictly_increases((i + 1) as nat, 127);
                }
                lemma_pow2_adds(63, 64);
                assert(pow2(63) == 0x8000000000000000) by {
                    lemma2_to64_rest();
                };
                assert(pow2(64) == 0x10000000000000000) by {
                    lemma2_to64_rest();
                };
            }
            lemma_pow2_adds(i as nat, 1);
            assert(pow2(1) == 2) by { lemma2_to64(); };
        }
        r = r * 2;
        i = i + 1;
    }
    proof {
        vstd::arithmetic::power2::lemma_pow2_pos(e as nat);
    }
    r
}

/// Executable power of two in `usize`, for register counts.
pub fn pow2_usize(e: usize) -> (r: usize)
    requires
        e <= 30,
    ensures
        r as nat == pow2(e as nat),
        r >= 1,
{
    let mut r: usize = 1;
    let mut i: usize = 0;
    proof {
        lemma2_to64();
    }
    while i < e
        invariant
            i <= e,
            e <= 30,
            r as nat == pow2(i as nat),
        decreases e - i,
    {
        proof {
            if ((i + 1) as nat) < 30 {
                lemma_pow2_strictly_increases((i + 1) as nat, 30);
            }
            assert(pow2(30) == 0x40000000) by { lemma2_to64(); };
            lemma_pow2_adds(i as nat, 1);
            assert(pow2(1) == 2) by { lemma2_to64(); };
        }
        r = r * 2;
        i = i + 1;
    }
    proof {
        vstd::arithmetic::power2::lemma_pow2_pos(e as nat);
    }
    r
}

/// Executable floor of the base-two logarithm.
pub fn floor_log2_u64(x: u64) -> (r: usize)
    requires
        x >= 1,
    ensures
        r as nat == spec_floor_log2(x as nat),
        r <= 63,
{
    let mut n: u64 = x;
    let mut e: usize = 0;
    proof {
        assert(pow2(0) == 1) by { lemma2_to64(); };
    }
    while n >= 2
        invariant
            n >= 1,
            e <= 63,
            spec_floor_log2(x as nat) == e + spec_floor_log2(n as nat),
            pow2(e as nat) * n <= x,
        decreases n,
    {
        proof {
            lemma_pow2_adds(e as nat, 1);
            assert(pow2(1) == 2) by { lemma2_to64(); };
            vstd::arithmetic::power2::lemma_pow2_pos(e as nat);
            assert(pow2((e + 1) as nat) <= pow2(e as nat) * (n as nat)) by (nonlinear_arith)
                requires
                    pow2((e + 1) as nat) == pow2(e as nat) * 2,
                    n as nat >= 2,
                    pow2(e as nat) >= 1,
            ;
            assert(pow2(64) == 0x10000000000000000) by { lemma2_to64_rest(); };
            if e + 1 >= 64 {
                if e + 1 > 64 {
                    lemma_pow2_strictly_increases(64, (e + 1) as nat);
                }
                assert(pow2((e + 1) as nat) >= pow2(64));
                assert(false);
            }
            assert(pow2((e + 1) as nat) * ((n / 2) as nat) <= pow2(e as nat) * (n as nat)) by (nonlinear_arith)
                requires
                    pow2((e + 1) as nat) == pow2(e as nat) * 2,
                    n as nat >= 2,
            {
                assert(2 * ((n / 2) as nat) <= n as nat);
            };
        }
        n = n / 2;
        e = e + 1;
    }
    e
}

} // verus!
