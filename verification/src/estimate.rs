//! Cardinality estimation from the register array.
//!
//! The raw estimate is the bias-corrected harmonic mean of the register
//! powers, `alpha_m * m^2 / sum(2^-reg)`, computed in exact integer
//! arithmetic with the hash-bit scale folded in.  A small-range
//! (linear-counting) correction `m * ln(m / V)` applies while zero
//! registers remain and the raw estimate is small, and a large-range
//! correction `-2^64 * ln(1 - E / 2^64)` applies near hash-space
//! exhaustion.  Logarithms are taken in 32-bit fixed point by the
//! classic square-and-normalize bit recurrence, and the executable
//! estimator is proved equal to the spec-level formula.

use vstd::prelude::*;
use vstd::arithmetic::power2::{pow2, lemma_pow2_adds, lemma_pow2_pos, lemma_pow2_strictly_increases, lemma2_to64, lemma2_to64_rest};
use vstd::arithmetic::div_mod::{
    lemma_multiply_divide_lt, lemma_div_is_ordered, lemma_div_is_ordered_by_denominator,
    lemma_div_multiples_vanish,
};
use crate::numeric::{spec_floor_log2, lemma_floor_log2_bounds, pow2_u64, pow2_u128, floor_log2_u64};
use crate::sketch::{Sketch, valid_precision, wf_regs, max_rank};

verus! {

/// `ln 2` in 32-bit fixed point.
pub const LN2_FIXED: u64 = 2977044472;

/// Fractional bits of the fixed-point base-two logarithm, produced by
/// the square-and-normalize recurrence from a mantissa in `[2^32, 2^33)`.
pub open spec fn spec_frac_bits(y: nat, n: nat) -> nat
    decreases n,
{
    if n == 0 {
        0
    } else {
        let z = (y * y) / pow2(32);
        if z >= pow2(33) {
            pow2((n - 1) as nat) + spec_frac_bits(z / 2, (n - 1) as nat)
        } else {
            spec_frac_bits(z, (n - 1) as nat)
        }
    }
}

/// The fractional bits never reach `2^n`.
pub proof fn lemma_frac_bits_bound(y: nat, n: nat)
    ensures
        spec_frac_bits(y, n) < pow2(n),
    decreases n,
{
    lemma_pow2_pos(n);
    if n == 0 {
    } else {
        let z = (y * y) / pow2(32);
        lemma_pow2_adds((n - 1) as nat, 1);
        lemma2_to64();
        if z >= pow2(33) {
            lemma_frac_bits_bound(z / 2, (n - 1) as nat);
        } else {
            lemma_frac_bits_bound(z, (n - 1) as nat);
            lemma_pow2_strictly_increases((n - 1) as nat, n);
        }
    }
}

/// Base-two logarithm of `x / 2^32` in 32-bit fixed point: integer part
/// from the floor logarithm, fractional part from the bit recurrence.
pub open spec fn spec_log2_fixed(x: nat) -> nat {
    let e = spec_floor_log2(x);
    let y = (x * pow2(32)) / pow2(e);
    if e >= 32 {
        ((e - 32) as nat) * pow2(32) + spec_frac_bits(y, 32)
    } else {
        spec_frac_bits(y, 32)
    }
}

/// Executable fixed-point base-two logarithm, equal to its spec.
pub fn log2_fixed(x: u64) -> (r: u64)
    requires
        x as nat >= pow2(32),
    ensures
        r as nat == spec_log2_fixed(x as nat),
        r < 0x2000000000,
{
    proof {
        lemma2_to64();
        lemma2_to64_rest();
    }
    let e = floor_log2_u64(x);
    proof {
        lemma_floor_log2_bounds(x as nat);
        if e < 32 {
            lemma_pow2_strictly_increases((e + 1) as nat, 32);
            assert(false);
        }
    }
    let pw_e = pow2_u64(e);
    let y128: u128 = ((x as u128) * 4294967296u128) / (pw_e as u128);
    proof {
        assert((x as nat) * pow2(32) >= pow2(e as nat) * pow2(32)) by (nonlinear_arith)
            requires
                x as nat >= pow2(e as nat),
                pow2(32) >= 1,
        ;
        lemma_pow2_adds(e as nat, 32);
        lemma_pow2_pos(e as nat);
        assert((pow2(e as nat) * pow2(32)) as int / pow2(e as nat) as int == pow2(32)) by {
            lemma_div_multiples_vanish(pow2(32) as int, pow2(e as nat) as int);
            assert(pow2(e as nat) * pow2(32) == pow2(32) * pow2(e as nat)) by (nonlinear_arith);
        };
        lemma_div_is_ordered((pow2(e as nat) * pow2(32)) as int, ((x as nat) * pow2(32)) as int, pow2(e as nat) as int);
        assert(y128 as nat >= pow2(32));
        assert(pow2((e + 1) as nat) * pow2(32) == pow2(e as nat) * pow2(33)) by {
            lemma_pow2_adds((e + 1) as nat, 32);
            lemma_pow2_adds(e as nat, 33);
        };
        assert((x as nat) * pow2(32) < pow2(e as nat) * pow2(33)) by (nonlinear_arith)
            requires
                (x as nat) < pow2((e + 1) as nat),
                pow2((e + 1) as nat) * pow2(32) == pow2(e as nat) * pow2(33),
                pow2(32) >= 1,
                pow2(e as nat) >= 1,
        ;
        lemma_multiply_divide_lt(((x as nat) * pow2(32)) as int, pow2(e as nat) as int, pow2(33) as int);
        assert((y128 as nat) < pow2(33));
    }
    let mut y: u64 = y128 as u64;
    let ghost y0 = y as nat;
    let mut acc: u64 = 0;
    let mut i: usize = 0;
    while i < 32
        invariant
            i <= 32,
            pow2(32) <= y as nat && (y as nat) < pow2(33),
            (acc as nat) < pow2(i as nat),
            spec_frac_bits(y0, 32) == (acc as nat) * pow2((32 - i) as nat) + spec_frac_bits(y as nat, (32 - i) as nat),
        decreases 32 - i,
    {
        proof {
            lemma2_to64();
            lemma2_to64_rest();
            assert(pow2(66) == pow2(33) * pow2(33)) by {
                lemma_pow2_adds(33, 33);
            };
            assert(pow2(64) == pow2(32) * pow2(32)) by {
                lemma_pow2_adds(32, 32);
            };
            assert((y as nat) * (y as nat) < pow2(66)) by (nonlinear_arith)
                requires
                    (y as nat) < pow2(33),
                    pow2(66) == pow2(33) * pow2(33),
            ;
            assert((y as nat) * (y as nat) >= pow2(64)) by (nonlinear_arith)
                requires
                    (y as nat) >= pow2(32),
                    pow2(64) == pow2(32) * pow2(32),
            ;
            assert(pow2(66) == pow2(32) * pow2(34)) by {
                lemma_pow2_adds(32, 34);
            };
            lemma_multiply_divide_lt(((y as nat) * (y as nat)) as int, pow2(32) as int, pow2(34) as int);
            assert(pow2(64) as int / pow2(32) as int == pow2(32)) by {
                lemma_pow2_adds(32, 32);
                lemma_div_multiples_vanish(pow2(32) as int, pow2(32) as int);
            };
            lemma_div_is_ordered(pow2(64) as int, ((y as nat) * (y as nat)) as int, pow2(32) as int);
        }
        let z128: u128 = ((y as u128) * (y as u128)) / 4294967296u128;
        let z: u64 = z128 as u64;
        let ghost y_prev = y as nat;
        let ghost acc_prev = acc as nat;
        let ghost n_rem = (32 - i) as nat;
        if z >= 8589934592u64 {
            y = z / 2;
            acc = acc * 2 + 1;
        } else {
            y = z;
            acc = acc * 2;
        }
        i = i + 1;
        proof {
            let ni = (32 - i) as nat;
            lemma_pow2_adds(ni, 1);
            assert(spec_frac_bits(y_prev, n_rem) == (if (z as nat) >= pow2(33) {
                pow2(ni) + spec_frac_bits((z as nat) / 2, ni)
            } else {
                spec_frac_bits(z as nat, ni)
            }));
            if (z as nat) >= pow2(33) {
                assert((2 * acc_prev + 1) * pow2(ni) == acc_prev * pow2((ni + 1) as nat) + pow2(ni)) by (nonlinear_arith)
                    requires
                        pow2((ni + 1) as nat) == pow2(ni) * 2,
                ;
                assert(z as nat / 2 < pow2(33));
            } else {
                assert((2 * acc_prev) * pow2(ni) == acc_prev * pow2((ni + 1) as nat)) by (nonlinear_arith)
                    requires
                        pow2((ni + 1) as nat) == pow2(ni) * 2,
                ;
            }
            assert((acc as nat) < pow2(i as nat)) by {
                lemma_pow2_adds((i - 1) as nat, 1);
            };
        }
    }
    proof {
        assert(spec_frac_bits(y0, 32) == acc as nat) by {
            assert((acc as nat) * pow2(0) == acc as nat);
        };
        assert(e - 32 <= 31);
        assert(acc < 0x100000000);
    }
    let ip: u64 = ((e - 32) as u64) * 4294967296u64;
    ip + acc
}

/// One register's contribution to the harmonic sum, at the scale of the
/// largest rank: `2^(max_rank(p) - reg)`.
pub open spec fn spec_harmonic_term(p: nat, reg: u8) -> nat {
    if reg as nat <= max_rank(p) {
        pow2((max_rank(p) - reg as nat) as nat)
    } else {
        1
    }
}

/// Scaled harmonic sum of all registers.
pub open spec fn spec_harmonic_sum(regs: Seq<u8>, p: nat) -> nat
    decreases regs.len(),
{
    if regs.len() == 0 {
        0
    } else {
        spec_harmonic_sum(regs.drop_last(), p) + spec_harmonic_term(p, regs.last())
    }
}

/// Number of registers still zero.
pub open spec fn spec_zero_count(regs: Seq<u8>) -> nat
    decreases regs.len(),
{
    if regs.len() == 0 {
        0
    } else {
        spec_zero_count(regs.drop_last()) + if regs.last() == 0u8 {
            1nat
        } else {
            0
        }
    }
}

/// Numerator of the bias constant `alpha_m`, per thousand(-scaled):
/// the classic constants for 16, 32 and 64 registers, and
/// `0.7213 / (1 + 1.079 / m)` beyond.
pub open spec fn spec_alpha_num(p: nat) -> nat {
    if p == 4 {
        673
    } else if p == 5 {
        697
    } else if p == 6 {
        709
    } else {
        7213 * pow2(p)
    }
}

/// Denominator of the bias constant `alpha_m`.
pub open spec fn spec_alpha_den(p: nat) -> nat {
    if p <= 6 {
        1000
    } else {
        10000 * pow2(p) + 10790
    }
}

/// Raw estimate: `alpha_m * m^2 / Z` with `Z` the harmonic mean sum,
/// everything scaled by `2^max_rank(p)` to stay integral.
pub open spec fn spec_raw_estimate(regs: Seq<u8>, p: nat) -> nat {
    spec_alpha_num(p) * pow2(p) * pow2(p) * pow2(max_rank(p)) / (spec_alpha_den(p) * spec_harmonic_sum(regs, p))
}

/// Whether the small-range (linear counting) correction applies: zero
/// registers remain and the raw estimate is at most `2.5 * m`.
pub open spec fn spec_uses_linear_counting(regs: Seq<u8>, p: nat) -> bool {
    spec_zero_count(regs) > 0 && 2 * spec_raw_estimate(regs, p) <= 5 * pow2(p)
}

/// Linear-counting estimate `m * ln(m / V)` in fixed point.
pub open spec fn spec_lc_estimate(p: nat, v: nat) -> nat {
    pow2(p) * spec_log2_fixed((pow2(p) * pow2(32)) / v) * (LN2_FIXED as nat) / pow2(64)
}

/// Large-range correction `-2^64 * ln(1 - E / 2^64)` in fixed point,
/// saturating at the largest representable estimate.
pub open spec fn spec_large_estimate(er: nat) -> nat {
    if er >= pow2(64) - pow2(32) {
        u64::MAX as nat
    } else {
        let t = spec_log2_fixed(pow2(96) / ((pow2(64) - er) as nat)) * (LN2_FIXED as nat);
        if t > u64::MAX {
            u64::MAX as nat
        } else {
            t
        }
    }
}

/// The estimate of a register array: the raw harmonic-mean estimate
/// with the small- and large-range corrections of its regimes.
pub open spec fn spec_estimate(regs: Seq<u8>, p: nat) -> nat {
    let er = spec_raw_estimate(regs, p);
    if spec_uses_linear_counting(regs, p) {
        spec_lc_estimate(p, spec_zero_count(regs))
    } else if 30 * er > pow2(64) {
        spec_large_estimate(er)
    } else {
        er
    }
}

impl Sketch {
    /// Approximate number of distinct items added so far, equal to the
    /// spec-level estimator on the current registers.
    pub fn estimate(&self) -> (r: u64)
        requires
            self.wf(),
        ensures
            r as nat == spec_estimate(self.registers@, self.precision as nat),
    {
        let p = self.precision;
        let ghost pn = p as nat;
        let ghost regs = self.registers@;
        proof {
            lemma2_to64();
            lemma2_to64_rest();
            lemma_pow2_pos(pn);
            assert(pow2(pn) <= pow2(24)) by {
                if pn < 24 {
                    lemma_pow2_strictly_increases(pn, 24);
                }
            };
            lemma_pow2_adds(pn, (65 - pn) as nat);
        }
        let n = self.registers.len();
        let mut sum: u128 = 0;
        let mut zeros: u64 = 0;
        let mut i: usize = 0;
        while i < n
            invariant
                self.wf(),
                p == self.precision,
                pn == self.precision as nat,
                regs == self.registers@,
                n == regs.len(),
                n as nat == pow2(pn),
                i <= n,
                sum == spec_harmonic_sum(regs.subrange(0, i as int), pn),
                zeros == spec_zero_count(regs.subrange(0, i as int)),
                sum <= (i as nat) * pow2((65 - pn) as nat),
                sum >= i,
                zeros <= i,
            decreases n - i,
        {
            let reg = self.registers[i];
            proof {
                assert(regs[i as int] as nat <= max_rank(pn));
            }
            let term = pow2_u64(65 - p - (reg as usize));
            proof {
                assert(term as nat == spec_harmonic_term(pn, reg));
                lemma_pow2_pos((65 - pn - reg as nat) as nat);
                assert(term as nat <= pow2((65 - pn) as nat)) by {
                    if (reg as nat) > 0 {
                        lemma_pow2_strictly_increases((65 - pn - reg as nat) as nat, (65 - pn) as nat);
                    }
                };
                assert((i as nat) * pow2((65 - pn) as nat) + pow2((65 - pn) as nat) == ((i + 1) as nat) * pow2((65 - pn) as nat)) by (nonlinear_arith);
                assert(((i + 1) as nat) * pow2((65 - pn) as nat) <= pow2(pn) * pow2((65 - pn) as nat)) by (nonlinear_arith)
                    requires
                        i + 1 <= pow2(pn),
                        pow2((65 - pn) as nat) >= 0,
                ;
                assert(pow2(pn) * pow2((65 - pn) as nat) == pow2(65)) by {
                    lemma_pow2_adds(pn, (65 - pn) as nat);
                };
                assert(pow2(65) == 0x20000000000000000) by {
                    lemma_pow2_adds(64, 1);
                    lemma2_to64();
                    lemma2_to64_rest();
                };
            }
            sum = sum + (term as u128);
            if reg == 0 {
                zeros = zeros + 1;
            }
            i = i + 1;
            proof {
                let pre = regs.subrange(0, i as int);
                assert(pre.drop_last() =~= regs.subrange(0, i - 1));
                assert(pre.last() == regs[i - 1]);
            }
        }
        proof {
            assert(regs.subrange(0, n as int) =~= regs);
            assert(sum == spec_harmonic_sum(regs, pn));
            assert(zeros == spec_zero_count(regs));
            assert(sum >= pow2(pn));
            assert((n as nat) * pow2((65 - pn) as nat) == pow2(65)) by (nonlinear_arith)
                requires
                    n as nat == pow2(pn),
                    pow2(pn) * pow2((65 - pn) as nat) == pow2(65),
            ;
            assert(sum <= pow2(65));
        }
        let alpha_num: u64 = if p == 4 {
            673
        } else if p == 5 {
            697
        } else {
            if p == 6 {
                709
            } else {
                7213 * pow2_u64(p)
            }
        };
        let alpha_den: u64 = if p <= 6 {
            1000
        } else {
            10000 * pow2_u64(p) + 10790
        };
        proof {
            assert(alpha_num as nat == spec_alpha_num(pn));
            assert(alpha_den as nat == spec_alpha_den(pn));
            assert(alpha_num as nat <= 7213 * pow2(pn)) by {
                if pn > 6 {
                } else {
                    lemma_pow2_pos(pn);
                    assert(pow2(pn) >= 16) by {
                        if pn > 4 {
                            lemma_pow2_strictly_increases(4, pn);
                        }
                    };
                }
            };
            assert(7213 * pow2(pn) <= 7213 * 0x1000000);
            assert(alpha_den as nat <= 10000 * 0x1000000 + 10790);
        }
        let m128: u128 = pow2_u128(p);
        proof {
            assert(pow2(pn) * pow2(pn) == pow2((2 * pn) as nat)) by {
                lemma_pow2_adds(pn, pn);
            };
            assert(pow2((2 * pn) as nat) * pow2(pn) == pow2((3 * pn) as nat)) by {
                lemma_pow2_adds((2 * pn) as nat, pn);
            };
            assert(pow2((3 * pn) as nat) * pow2((65 - pn) as nat) == pow2((65 + 2 * pn) as nat)) by {
                lemma_pow2_adds((3 * pn) as nat, (65 - pn) as nat);
            };
            assert(pow2((2 * pn) as nat) <= pow2(48)) by {
                if ((2 * pn) as nat) < 48 {
                    lemma_pow2_strictly_increases((2 * pn) as nat, 48);
                }
            };
            assert(pow2((65 + 2 * pn) as nat) <= pow2(113)) by {
                if ((65 + 2 * pn) as nat) < 113 {
                    lemma_pow2_strictly_increases((65 + 2 * pn) as nat, 113);
                }
            };
            assert(pow2(48) == 0x1000000000000) by {
                lemma2_to64_rest();
            };
            assert(pow2(113) == 0x20000000000000000000000000000) by {
                lemma_pow2_adds(64, 49);
                lemma2_to64();
                lemma2_to64_rest();
            };
            assert((alpha_num as nat) * pow2(pn) <= 7213 * pow2((2 * pn) as nat)) by (nonlinear_arith)
                requires
                    alpha_num as nat <= 7213 * pow2(pn),
                    pow2(pn) * pow2(pn) == pow2((2 * pn) as nat),
                    pow2(pn) >= 0,
            ;
        }
        let t1: u128 = (alpha_num as u128) * m128;
        proof {
            assert((t1 as nat) * pow2(pn) <= 7213 * pow2((3 * pn) as nat)) by (nonlinear_arith)
                requires
                    t1 as nat <= 7213 * pow2((2 * pn) as nat),
                    pow2((2 * pn) as nat) * pow2(pn) == pow2((3 * pn) as nat),
                    pow2(pn) >= 0,
            ;
            assert(7213 * (pow2((2 * pn) as nat) * pow2(pn)) <= 7213 * (pow2(48) * 0x1000000)) by (nonlinear_arith)
                requires
                    pow2((2 * pn) as nat) <= pow2(48),
                    pow2(pn) <= 0x1000000,
            ;
        }
        let t2: u128 = t1 * m128;
        let scale: u128 = pow2_u128(65 - p);
        proof {
            assert((t2 as nat) * (scale as nat) <= 7213 * pow2((65 + 2 * pn) as nat)) by (nonlinear_arith)
                requires
                    t2 as nat <= 7213 * pow2((3 * pn) as nat),
                    scale as nat == pow2((65 - pn) as nat),
                    pow2((3 * pn) as nat) * pow2((65 - pn) as nat) == pow2((65 + 2 * pn) as nat),
                    pow2((65 - pn) as nat) >= 0,
            ;
        }
        let num: u128 = t2 * scale;
        proof {
            assert(pow2(65) == 0x20000000000000000) by {
                lemma_pow2_adds(64, 1);
                lemma2_to64();
                lemma2_to64_rest();
            };
            assert((alpha_den as nat) * (sum as nat) <= (10000 * 0x1000000 + 10790) * 0x20000000000000000) by (nonlinear_arith)
                requires
                    alpha_den as nat <= 10000 * 0x1000000 + 10790,
                    sum as nat <= 0x20000000000000000,
            ;
            assert((alpha_den as nat) * (sum as nat) >= 1) by (nonlinear_arith)
                requires
                    alpha_den as nat >= 1000,
                    sum as nat >= 1,
            ;
        }
        let den: u128 = (alpha_den as u128) * sum;
        let est_raw: u128 = num / den;
        proof {
            assert(num as nat == spec_alpha_num(pn) * pow2(pn) * pow2(pn) * pow2(max_rank(pn)));
            assert(den as nat == spec_alpha_den(pn) * spec_harmonic_sum(regs, pn));
            assert(est_raw as nat == spec_raw_estimate(regs, pn));
            assert((alpha_den as nat) * (sum as nat) >= (alpha_den as nat) * pow2(pn)) by (nonlinear_arith)
                requires
                    sum as nat >= pow2(pn),
                    alpha_den as nat >= 0,
            ;
            if pn <= 6 {
                assert(num as nat <= 709 * (pow2(pn) * pow2(pn) * pow2((65 - pn) as nat))) by (nonlinear_arith)
                    requires
                        num as nat == spec_alpha_num(pn) * pow2(pn) * pow2(pn) * pow2((65 - pn) as nat),
                        spec_alpha_num(pn) <= 709,
                        pow2(pn) >= 0,
                        pow2((65 - pn) as nat) >= 0,
                ;
                assert(pow2(pn) * pow2(pn) * pow2((65 - pn) as nat) == pow2(pn) * pow2(65)) by (nonlinear_arith)
                    requires
                        pow2(pn) * pow2((65 - pn) as nat) == pow2(65),
                ;
                assert(num as nat <= 709 * (pow2(pn) * pow2(65)));
                assert((num as nat) < (1000 * pow2(pn)) * pow2(65)) by (nonlinear_arith)
                    requires
                        num as nat <= 709 * (pow2(pn) * pow2(65)),
                        pow2(pn) >= 1,
                        pow2(65) >= 1,
                ;
                assert(den as nat >= 1000 * pow2(pn)) by (nonlinear_arith)
                    requires
                        den as nat == spec_alpha_den(pn) * spec_harmonic_sum(regs, pn),
                        spec_alpha_den(pn) == 1000,
                        spec_harmonic_sum(regs, pn) >= pow2(pn),
                ;
                lemma_div_is_ordered_by_denominator(num as int, (1000 * pow2(pn)) as int, den as int);
                lemma_multiply_divide_lt(num as int, (1000 * pow2(pn)) as int, pow2(65) as int);
                assert((est_raw as nat) < pow2(65));
            } else {
                assert(num as nat == 7213 * (pow2(pn) * pow2(pn) * pow2(pn) * pow2((65 - pn) as nat))) by (nonlinear_arith)
                    requires
                        num as nat == (7213 * pow2(pn)) * pow2(pn) * pow2(pn) * pow2((65 - pn) as nat),
                ;
                assert(pow2(pn) * pow2(pn) * pow2(pn) * pow2((65 - pn) as nat) == pow2(pn) * pow2(pn) * pow2(65)) by (nonlinear_arith)
                    requires
                        pow2(pn) * pow2((65 - pn) as nat) == pow2(65),
                ;
                assert((num as nat) < (10000 * pow2(pn) * pow2(pn)) * pow2(65)) by (nonlinear_arith)
                    requires
                        num as nat == 7213 * (pow2(pn) * pow2(pn) * pow2(65)),
                        pow2(pn) >= 1,
                        pow2(65) >= 1,
                ;
                assert(den as nat >= 10000 * pow2(pn) * pow2(pn)) by (nonlinear_arith)
                    requires
                        den as nat == spec_alpha_den(pn) * spec_harmonic_sum(regs, pn),
                        spec_alpha_den(pn) >= 10000 * pow2(pn),
                        spec_harmonic_sum(regs, pn) >= pow2(pn),
                ;
                assert(10000 * pow2(pn) * pow2(pn) >= 1) by (nonlinear_arith)
                    requires
                        pow2(pn) >= 1,
                ;
                lemma_div_is_ordered_by_denominator(num as int, (10000 * pow2(pn) * pow2(pn)) as int, den as int);
                lemma_multiply_divide_lt(num as int, (10000 * pow2(pn) * pow2(pn)) as int, pow2(65) as int);
                assert((est_raw as nat) < pow2(65));
            }
        }
        let m64: u64 = pow2_u64(p);
        if zeros > 0 && 2 * est_raw <= 5 * m128 {
            let x: u64 = (m64 * 4294967296u64) / zeros;
            proof {
                assert((m64 as nat) * pow2(32) <= pow2(56)) by (nonlinear_arith)
                    requires
                        m64 as nat <= 0x1000000,
                        pow2(56) == 0x1000000 * pow2(32),
                ;
                assert(pow2(56) == 0x1000000 * pow2(32)) by {
                    lemma_pow2_adds(24, 32);
                };
                assert(zeros as nat <= pow2(pn)) by {
                    assert(zeros <= n);
                };
                assert(((m64 as nat) * pow2(32)) as int / (m64 as int) == pow2(32)) by {
                    lemma_div_multiples_vanish(pow2(32) as int, m64 as int);
                    assert((m64 as nat) * pow2(32) == pow2(32) * (m64 as nat)) by (nonlinear_arith);
                };
                lemma_div_is_ordered_by_denominator(((m64 as nat) * pow2(32)) as int, zeros as int, m64 as int);
                assert(x as nat >= pow2(32));
                assert(x as nat == (pow2(pn) * pow2(32)) / (zeros as nat));
            }
            let lg = log2_fixed(x);
            proof {
                assert((m64 as nat) * (lg as nat) * (LN2_FIXED as nat) < 0x1000001 * 0x2000000000 * 0x100000000) by (nonlinear_arith)
                    requires
                        m64 as nat <= 0x1000000,
                        lg < 0x2000000000,
                        LN2_FIXED < 0x100000000,
                ;
            }
            let t: u128 = (m64 as u128) * (lg as u128) * (LN2_FIXED as u128);
            let est: u128 = t / 18446744073709551616u128;
            proof {
                assert(pow2(64) == 18446744073709551616) by {
                    lemma_pow2_adds(32, 32);
                };
                assert(pow2(64) * pow2(64) == pow2(128)) by {
                    lemma_pow2_adds(64, 64);
                };
                assert(pow2(128) == 0x100000000000000000000000000000000) by {
                    lemma_pow2_adds(64, 64);
                    lemma2_to64_rest();
                };
                assert((t as nat) < pow2(64) * pow2(64)) by (nonlinear_arith)
                    requires
                        (t as nat) < 0x1000001 * 0x2000000000 * 0x100000000,
                        pow2(64) * pow2(64) == pow2(128),
                        pow2(128) > 0x1000001 * 0x2000000000 * 0x100000000,
                ;
                lemma_multiply_divide_lt(t as int, pow2(64) as int, pow2(64) as int);
                assert(est as nat == spec_lc_estimate(pn, zeros as nat));
                assert(est as nat == spec_estimate(regs, pn));
            }
            est as u64
        } else {
            if 30 * est_raw > 18446744073709551616u128 {
                proof {
                    assert(pow2(64) == 18446744073709551616);
                    assert(spec_estimate(regs, pn) == spec_large_estimate(est_raw as nat));
                }
                if est_raw >= 18446744069414584320u128 {
                    proof {
                        assert(pow2(64) - pow2(32) == 18446744069414584320);
                    }
                    u64::MAX
                } else {
                    let d: u128 = 18446744073709551616u128 - est_raw;
                    proof {
                        assert(d > 4294967296u128);
                        assert(pow2(32) * pow2(64) == pow2(96)) by {
                            lemma_pow2_adds(32, 64);
                        };
                        assert(pow2(64) * pow2(32) == pow2(96)) by {
                            lemma_pow2_adds(64, 32);
                        };
                        assert(pow2(96) as int / (d as int) < pow2(64)) by {
                            assert(pow2(96) < (d as nat) * pow2(64)) by (nonlinear_arith)
                                requires
                                    d as nat > pow2(32),
                                    pow2(32) * pow2(64) == pow2(96),
                                    pow2(64) >= 1,
                            ;
                            lemma_multiply_divide_lt(pow2(96) as int, d as int, pow2(64) as int);
                        };
                        assert(pow2(96) as int / (d as int) >= pow2(32)) by {
                            assert((d as nat) * pow2(32) <= pow2(96)) by (nonlinear_arith)
                                requires
                                    d as nat <= pow2(64),
                                    pow2(64) * pow2(32) == pow2(96),
                                    pow2(32) >= 1,
                            ;
                            lemma_div_multiples_vanish(pow2(32) as int, d as int);
                            assert((d as nat) * pow2(32) == pow2(32) * (d as nat)) by (nonlinear_arith);
                            lemma_div_is_ordered(((d as nat) * pow2(32)) as int, pow2(96) as int, d as int);
                        };
                    }
                    let x128: u128 = pow2_u128(96) / d;
                    let x: u64 = x128 as u64;
                    let lg = log2_fixed(x);
                    let t: u128 = (lg as u128) * (LN2_FIXED as u128);
                    proof {
                        assert((lg as nat) * (LN2_FIXED as nat) < 0x2000000000 * 0x100000000) by (nonlinear_arith)
                            requires
                                lg < 0x2000000000,
                                LN2_FIXED < 0x100000000,
                        ;
                    }
                    if t > u64::MAX as u128 {
                        u64::MAX
                    } else {
                        t as u64
                    }
                }
            } else {
                proof {
                    assert(est_raw as nat <= pow2(64) / 30) by {
                        assert((est_raw as nat) * 30 <= pow2(64)) by (nonlinear_arith)
                            requires
                                30 * (est_raw as nat) <= pow2(64),
                        ;
                        lemma_div_is_ordered(((est_raw as nat) * 30) as int, pow2(64) as int, 30);
                        lemma_div_multiples_vanish(est_raw as int, 30);
                    };
                    assert(pow2(64) / 30 < pow2(64));
                    assert(est_raw as nat <= u64::MAX as nat);
                    assert(spec_estimate(regs, pn) == est_raw as nat);
                }
                est_raw as u64
            }
        }
    }
}


/// Fewer registers are zero after registers grow.
pub proof fn lemma_zero_count_anti(a: Seq<u8>, b: Seq<u8>)
    requires
        a.len() == b.len(),
        forall|i: int| 0 <= i < a.len() ==> a[i] <= b[i],
    ensures
        spec_zero_count(a) >= spec_zero_count(b),
    decreases a.len(),
{
    if a.len() == 0 {
    } else {
        assert(forall|i: int| 0 <= i < a.drop_last().len() ==> a.drop_last()[i] <= b.drop_last()[i]);
        lemma_zero_count_anti(a.drop_last(), b.drop_last());
    }
}

/// No more registers are zero than exist.
pub proof fn lemma_zero_count_le_len(regs: Seq<u8>)
    ensures
        spec_zero_count(regs) <= regs.len(),
    decreases regs.len(),
{
    if regs.len() == 0 {
    } else {
        lemma_zero_count_le_len(regs.drop_last());
    }
}

/// The harmonic sum only shrinks as registers grow.
pub proof fn lemma_harmonic_sum_anti(a: Seq<u8>, b: Seq<u8>, p: nat)
    requires
        valid_precision(p),
        a.len() == b.len(),
        forall|i: int| 0 <= i < a.len() ==> a[i] <= b[i],
        forall|i: int| 0 <= i < b.len() ==> (#[trigger] b[i]) as nat <= max_rank(p),
    ensures
        spec_harmonic_sum(a, p) >= spec_harmonic_sum(b, p),
    decreases a.len(),
{
    if a.len() == 0 {
    } else {
        assert(forall|i: int| 0 <= i < a.drop_last().len() ==> a.drop_last()[i] <= b.drop_last()[i]);
        assert(forall|i: int| 0 <= i < b.drop_last().len() ==> (#[trigger] b.drop_last()[i]) as nat <= max_rank(p));
        lemma_harmonic_sum_anti(a.drop_last(), b.drop_last(), p);
        let ra = a.last() as nat;
        let rb = b.last() as nat;
        assert(a.last() <= b.last());
        assert(rb <= max_rank(p));
        if ra < rb {
            lemma_pow2_strictly_increases((max_rank(p) - rb) as nat, (max_rank(p) - ra) as nat);
        }
    }
}

/// Every register contributes at least one to the harmonic sum.
pub proof fn lemma_harmonic_sum_lower(regs: Seq<u8>, p: nat)
    ensures
        spec_harmonic_sum(regs, p) >= regs.len(),
    decreases regs.len(),
{
    if regs.len() == 0 {
    } else {
        lemma_harmonic_sum_lower(regs.drop_last(), p);
        lemma_pow2_pos((max_rank(p) - regs.last() as nat) as nat);
    }
}

/// The raw estimate is monotone under register growth.
pub proof fn lemma_raw_estimate_mono(a: Seq<u8>, b: Seq<u8>, p: nat)
    requires
        valid_precision(p),
        wf_regs(a, p),
        wf_regs(b, p),
        forall|i: int| 0 <= i < a.len() ==> a[i] <= b[i],
    ensures
        spec_raw_estimate(a, p) <= spec_raw_estimate(b, p),
{
    lemma_harmonic_sum_anti(a, b, p);
    lemma_harmonic_sum_lower(b, p);
    lemma_pow2_pos(p);
    let num = spec_alpha_num(p) * pow2(p) * pow2(p) * pow2(max_rank(p));
    let da = spec_alpha_den(p) * spec_harmonic_sum(a, p);
    let db = spec_alpha_den(p) * spec_harmonic_sum(b, p);
    assert(spec_alpha_den(p) >= 1000);
    assert(1 <= spec_alpha_den(p) * spec_harmonic_sum(b, p)) by (nonlinear_arith)
        requires
            spec_alpha_den(p) >= 1000,
            spec_harmonic_sum(b, p) >= 1,
    ;
    assert(spec_alpha_den(p) * spec_harmonic_sum(b, p) <= spec_alpha_den(p) * spec_harmonic_sum(a, p)) by (nonlinear_arith)
        requires
            spec_alpha_den(p) >= 0,
            spec_harmonic_sum(a, p) >= spec_harmonic_sum(b, p),
    ;
    lemma_div_is_ordered_by_denominator(num as int, db as int, da as int);
}

/// The fractional log bits are monotone in the mantissa.
pub proof fn lemma_frac_bits_mono(y1: nat, y2: nat, n: nat)
    requires
        y1 <= y2,
    ensures
        spec_frac_bits(y1, n) <= spec_frac_bits(y2, n),
    decreases n,
{
    if n == 0 {
    } else {
        let z1 = (y1 * y1) / pow2(32);
        let z2 = (y2 * y2) / pow2(32);
        lemma_pow2_pos(32);
        assert(y1 * y1 <= y2 * y2) by (nonlinear_arith)
            requires
                0 <= y1 <= y2,
        ;
        lemma_div_is_ordered((y1 * y1) as int, (y2 * y2) as int, pow2(32) as int);
        if z1 >= pow2(33) {
            lemma_frac_bits_mono(z1 / 2, z2 / 2, (n - 1) as nat);
            lemma_div_is_ordered(z1 as int, z2 as int, 2);
        } else if z2 >= pow2(33) {
            lemma_frac_bits_bound(z1, (n - 1) as nat);
        } else {
            lemma_frac_bits_mono(z1, z2, (n - 1) as nat);
        }
    }
}

/// The fixed-point logarithm is monotone on mantissas at or above one.
pub proof fn lemma_log2_fixed_mono(x1: nat, x2: nat)
    requires
        pow2(32) <= x1 <= x2,
    ensures
        spec_log2_fixed(x1) <= spec_log2_fixed(x2),
{
    let e1 = spec_floor_log2(x1);
    let e2 = spec_floor_log2(x2);
    lemma_pow2_pos(32);
    crate::numeric::lemma_floor_log2_mono(x1, x2);
    lemma_floor_log2_bounds(x1);
    lemma_floor_log2_bounds(x2);
    if e1 < 32 {
        lemma_pow2_strictly_increases(e1 + 1, 32);
        assert(false);
    }
    let y1 = (x1 * pow2(32)) / pow2(e1);
    let y2 = (x2 * pow2(32)) / pow2(e2);
    if e1 == e2 {
        lemma_pow2_pos(e1);
        assert(x1 * pow2(32) <= x2 * pow2(32)) by (nonlinear_arith)
            requires
                x1 <= x2,
                pow2(32) >= 1,
        ;
        lemma_div_is_ordered((x1 * pow2(32)) as int, (x2 * pow2(32)) as int, pow2(e1) as int);
        lemma_frac_bits_mono(y1, y2, 32);
        assert(spec_log2_fixed(x1) == ((e1 - 32) as nat) * pow2(32) + spec_frac_bits(y1, 32));
        assert(spec_log2_fixed(x2) == ((e2 - 32) as nat) * pow2(32) + spec_frac_bits(y2, 32));
        assert(spec_log2_fixed(x1) <= spec_log2_fixed(x2));
    } else {
        lemma_frac_bits_bound(y1, 32);
        assert(spec_frac_bits(y1, 32) < pow2(32));
        assert(spec_log2_fixed(x1) == ((e1 - 32) as nat) * pow2(32) + spec_frac_bits(y1, 32));
        assert(spec_log2_fixed(x2) == ((e2 - 32) as nat) * pow2(32) + spec_frac_bits(y2, 32));
        assert(spec_log2_fixed(x1) <= spec_log2_fixed(x2)) by (nonlinear_arith)
            requires
                spec_log2_fixed(x1) == ((e1 - 32) as nat) * pow2(32) + spec_frac_bits(y1, 32),
                spec_log2_fixed(x2) == ((e2 - 32) as nat) * pow2(32) + spec_frac_bits(y2, 32),
                spec_frac_bits(y1, 32) < pow2(32),
                e1 < e2,
                e1 >= 32,
                pow2(32) >= 0,
        ;
    }
}

/// The linear-counting estimate grows as zero registers disappear.
pub proof fn lemma_lc_estimate_mono(p: nat, v1: nat, v2: nat)
    requires
        valid_precision(p),
        1 <= v2 <= v1,
        v1 <= pow2(p),
    ensures
        spec_lc_estimate(p, v1) <= spec_lc_estimate(p, v2),
{
    let m = pow2(p);
    lemma_pow2_pos(p);
    lemma_pow2_pos(32);
    lemma_pow2_pos(64);
    let x1 = (m * pow2(32)) / v1;
    let x2 = (m * pow2(32)) / v2;
    lemma_div_is_ordered_by_denominator((m * pow2(32)) as int, v2 as int, v1 as int);
    assert((m * pow2(32)) as int / (m as int) == pow2(32)) by {
        lemma_div_multiples_vanish(pow2(32) as int, m as int);
        assert(m * pow2(32) == pow2(32) * m) by (nonlinear_arith);
    };
    lemma_div_is_ordered_by_denominator((m * pow2(32)) as int, v1 as int, m as int);
    assert(x1 >= pow2(32));
    lemma_log2_fixed_mono(x1, x2);
    assert(m * spec_log2_fixed(x1) * (LN2_FIXED as nat) <= m * spec_log2_fixed(x2) * (LN2_FIXED as nat)) by (nonlinear_arith)
        requires
            spec_log2_fixed(x1) <= spec_log2_fixed(x2),
            m >= 0,
            LN2_FIXED >= 0,
    ;
    lemma_div_is_ordered((m * spec_log2_fixed(x1) * (LN2_FIXED as nat)) as int, (m * spec_log2_fixed(x2) * (LN2_FIXED as nat)) as int, pow2(64) as int);
}

/// The large-range correction is monotone in the raw estimate.
pub proof fn lemma_large_estimate_mono(e1: nat, e2: nat)
    requires
        e1 <= e2,
    ensures
        spec_large_estimate(e1) <= spec_large_estimate(e2),
{
    lemma_pow2_pos(32);
    lemma_pow2_pos(64);
    if e1 >= pow2(64) - pow2(32) {
    } else if e2 >= pow2(64) - pow2(32) {
        assert(spec_large_estimate(e2) == u64::MAX as nat);
        assert(spec_large_estimate(e1) <= u64::MAX as nat);
    } else {
        let d1 = (pow2(64) - e1) as nat;
        let d2 = (pow2(64) - e2) as nat;
        assert(1 <= d2 <= d1);
        let x1 = pow2(96) / d1;
        let x2 = pow2(96) / d2;
        lemma_div_is_ordered_by_denominator(pow2(96) as int, d2 as int, d1 as int);
        assert(pow2(96) as int / pow2(64) as int == pow2(32)) by {
            lemma_pow2_adds(64, 32);
            lemma_div_multiples_vanish(pow2(32) as int, pow2(64) as int);
            assert(pow2(64) * pow2(32) == pow2(32) * pow2(64)) by (nonlinear_arith);
        };
        lemma_div_is_ordered_by_denominator(pow2(96) as int, d1 as int, pow2(64) as int);
        assert(x1 >= pow2(32));
        lemma_log2_fixed_mono(x1, x2);
        assert(spec_log2_fixed(x1) * (LN2_FIXED as nat) <= spec_log2_fixed(x2) * (LN2_FIXED as nat)) by (nonlinear_arith)
            requires
                spec_log2_fixed(x1) <= spec_log2_fixed(x2),
                LN2_FIXED >= 0,
        ;
    }
}

/// Which regime the estimator is in: small-range (linear counting),
/// mid-range (raw), or large-range correction.
pub open spec fn spec_regime(regs: Seq<u8>, p: nat) -> int {
    if spec_uses_linear_counting(regs, p) {
        0
    } else if 30 * spec_raw_estimate(regs, p) > pow2(64) {
        2
    } else {
        1
    }
}

/// Monotonicity of the estimate: adding items only raises registers,
/// and while the estimator stays in one regime a pointwise-larger
/// register array never yields a smaller estimate.  Crossing from the
/// linear-counting regime into the raw regime can lower the estimate,
/// so regime equality is required.
pub proof fn lemma_estimate_monotone(a: Seq<u8>, b: Seq<u8>, p: nat)
    requires
        valid_precision(p),
        wf_regs(a, p),
        wf_regs(b, p),
        forall|i: int| 0 <= i < a.len() ==> a[i] <= b[i],
        spec_regime(a, p) == spec_regime(b, p),
    ensures
        spec_estimate(a, p) <= spec_estimate(b, p),
{
    lemma_raw_estimate_mono(a, b, p);
    if spec_uses_linear_counting(a, p) {
        lemma_zero_count_anti(a, b);
        lemma_zero_count_le_len(a);
        lemma_lc_estimate_mono(p, spec_zero_count(a), spec_zero_count(b));
    } else if 30 * spec_raw_estimate(a, p) > pow2(64) {
        lemma_large_estimate_mono(spec_raw_estimate(a, p), spec_raw_estimate(b, p));
    } else {
    }
}

/// Adding one item never lowers the estimate while the estimator stays
/// in the same regime.
pub proof fn lemma_estimate_monotone_under_add(regs: Seq<u8>, p: nat, item: Seq<u8>)
    requires
        valid_precision(p),
        wf_regs(regs, p),
        spec_regime(regs, p) == spec_regime(crate::sketch::spec_add_regs(regs, p, item), p),
    ensures
        spec_estimate(regs, p) <= spec_estimate(crate::sketch::spec_add_regs(regs, p, item), p),
{
    crate::sketch::lemma_add_regs_wf(regs, p, item);
    lemma_estimate_monotone(regs, crate::sketch::spec_add_regs(regs, p, item), p);
}

} // verus!
