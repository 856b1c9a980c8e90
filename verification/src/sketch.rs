//! The probabilistic cardinality sketch.
//!
//! A `Sketch` is a register array of size `2^p`.  Adding an item hashes
//! it to 64 bits; the top `p` bits select a register and the position of
//! the highest set bit among the remaining `64 - p` bits gives a rank,
//! and the register keeps the maximum rank it has seen.  Union takes the
//! pointwise maximum of two register arrays, which makes it commutative,
//! associative and idempotent, and registers only ever grow.

use vstd::prelude::*;
use vstd::pervasive::VecAdditionalExecFns;
use vstd::arithmetic::power2::{pow2, lemma_pow2_adds, lemma_pow2_pos};
use vstd::arithmetic::div_mod::{lemma_multiply_divide_lt, lemma_mod_division_less_than_divisor};
use crate::hash::{spec_hash64, hash64};
use crate::numeric::{spec_floor_log2, lemma_floor_log2_lt, pow2_u64, pow2_usize, floor_log2_u64};

verus! {

/// Smallest supported precision (register-count exponent).
pub const MIN_PRECISION: usize = 4;

/// Largest supported precision.
pub const MAX_PRECISION: usize = 24;

/// A precision the sketch supports.
pub open spec fn valid_precision(p: nat) -> bool {
    MIN_PRECISION <= p <= MAX_PRECISION
}

/// Largest rank a register can hold at precision `p`: one more than the
/// number of hash bits left after bucket selection.
pub open spec fn max_rank(p: nat) -> nat {
    (65 - p) as nat
}

/// Register selected by a hash value: its top `p` bits.
pub open spec fn spec_bucket(h: u64, p: nat) -> nat {
    (h as nat) / pow2((64 - p) as nat)
}

/// Rank contributed by a hash value: one more than the number of leading
/// zeros among its low `64 - p` bits.
pub open spec fn spec_rank(h: u64, p: nat) -> nat {
    let q = (64 - p) as nat;
    let rem = (h as nat) % pow2(q);
    if rem == 0 {
        q + 1
    } else {
        (q - spec_floor_log2(rem)) as nat
    }
}

/// The all-zero register array of precision `p`.
pub open spec fn zero_regs(p: nat) -> Seq<u8> {
    Seq::new(pow2(p), |i: int| 0u8)
}

/// Register array after one item is added.
pub open spec fn spec_add_regs(regs: Seq<u8>, p: nat, item: Seq<u8>) -> Seq<u8> {
    let h = spec_hash64(item);
    let idx = spec_bucket(h, p) as int;
    let rk = spec_rank(h, p) as u8;
    if regs[idx] < rk {
        regs.update(idx, rk)
    } else {
        regs
    }
}

/// Pointwise maximum of two register arrays of equal length.
pub open spec fn spec_union_regs(a: Seq<u8>, b: Seq<u8>) -> Seq<u8> {
    Seq::new(a.len(), |i: int| if a[i] < b[i] { b[i] } else { a[i] })
}

/// A well-formed register array for precision `p`.
pub open spec fn wf_regs(regs: Seq<u8>, p: nat) -> bool {
    regs.len() == pow2(p) && forall|i: int| 0 <= i < regs.len() ==> (#[trigger] regs[i]) as nat <= max_rank(p)
}

/// The bucket of any hash fits the register array.
pub proof fn lemma_bucket_in_range(h: u64, p: nat)
    requires
        valid_precision(p),
    ensures
        spec_bucket(h, p) < pow2(p),
{
    lemma_pow2_adds(p, (64 - p) as nat);
    lemma_pow2_pos((64 - p) as nat);
    lemma_pow2_pos(p);
    assert((h as nat) < pow2(64)) by {
        vstd::arithmetic::power2::lemma2_to64_rest();
    };
    assert(pow2(p) * pow2((64 - p) as nat) == pow2((64 - p) as nat) * pow2(p)) by {
        vstd::arithmetic::mul::lemma_mul_is_commutative(pow2(p) as int, pow2((64 - p) as nat) as int);
    };
    lemma_multiply_divide_lt(h as int, pow2((64 - p) as nat) as int, pow2(p) as int);
}

/// The rank of any hash lies between 1 and `max_rank(p)`.
pub proof fn lemma_rank_in_range(h: u64, p: nat)
    requires
        valid_precision(p),
    ensures
        1 <= spec_rank(h, p) <= max_rank(p),
{
    let q = (64 - p) as nat;
    let rem = (h as nat) % pow2(q);
    lemma_pow2_pos(q);
    if rem != 0 {
        lemma_mod_division_less_than_divisor(h as int, pow2(q) as int);
        lemma_floor_log2_lt(rem, q);
    }
}

/// Adding an item preserves well-formedness and never lowers a register.
pub proof fn lemma_add_regs_wf(regs: Seq<u8>, p: nat, item: Seq<u8>)
    requires
        valid_precision(p),
        wf_regs(regs, p),
    ensures
        wf_regs(spec_add_regs(regs, p, item), p),
        spec_add_regs(regs, p, item).len() == regs.len(),
        forall|i: int| 0 <= i < regs.len() ==> regs[i] <= #[trigger] spec_add_regs(regs, p, item)[i],
{
    let h = spec_hash64(item);
    lemma_bucket_in_range(h, p);
    lemma_rank_in_range(h, p);
}

/// The union of well-formed register arrays is well-formed and never
/// lowers a register of either argument.
pub proof fn lemma_union_regs_wf(a: Seq<u8>, b: Seq<u8>, p: nat)
    requires
        wf_regs(a, p),
        wf_regs(b, p),
    ensures
        wf_regs(spec_union_regs(a, b), p),
        forall|i: int| 0 <= i < a.len() ==> a[i] <= #[trigger] spec_union_regs(a, b)[i],
        forall|i: int| 0 <= i < a.len() ==> b[i] <= #[trigger] spec_union_regs(a, b)[i],
{
}

/// Union is commutative: both orders give identical registers.
pub proof fn lemma_union_commutative(a: Seq<u8>, b: Seq<u8>)
    requires
        a.len() == b.len(),
    ensures
        spec_union_regs(a, b) == spec_union_regs(b, a),
{
    assert(spec_union_regs(a, b) =~= spec_union_regs(b, a));
}

/// Union is associative: both groupings give identical registers.
pub proof fn lemma_union_associative(a: Seq<u8>, b: Seq<u8>, c: Seq<u8>)
    requires
        a.len() == b.len(),
        b.len() == c.len(),
    ensures
        spec_union_regs(a, spec_union_regs(b, c)) == spec_union_regs(spec_union_regs(a, b), c),
{
    assert(spec_union_regs(a, spec_union_regs(b, c)) =~= spec_union_regs(spec_union_regs(a, b), c));
}

/// Union is idempotent: uniting a sketch with itself changes nothing.
pub proof fn lemma_union_idempotent(a: Seq<u8>)
    ensures
        spec_union_regs(a, a) == a,
{
    assert(spec_union_regs(a, a) =~= a);
}

/// The zeroed register array is a unit for union.
pub proof fn lemma_union_zero_identity(a: Seq<u8>, p: nat)
    requires
        a.len() == pow2(p),
    ensures
        spec_union_regs(zero_regs(p), a) == a,
        spec_union_regs(a, zero_regs(p)) == a,
{
    assert(spec_union_regs(zero_regs(p), a) =~= a);
    assert(spec_union_regs(a, zero_regs(p)) =~= a);
}

/// Adding to one side of a union is the same as adding after the union.
pub proof fn lemma_union_add(a: Seq<u8>, b: Seq<u8>, p: nat, item: Seq<u8>)
    requires
        valid_precision(p),
        a.len() == pow2(p),
        b.len() == pow2(p),
    ensures
        spec_union_regs(a, spec_add_regs(b, p, item)) == spec_add_regs(spec_union_regs(a, b), p, item),
{
    let h = spec_hash64(item);
    lemma_bucket_in_range(h, p);
    lemma_rank_in_range(h, p);
    assert(spec_union_regs(a, spec_add_regs(b, p, item)) =~= spec_add_regs(spec_union_regs(a, b), p, item));
}

/// Error raised where two sketches of different precision meet.
#[derive(Clone, Copy, Debug, PartialEq, Eq, Structural)]
pub enum SketchError {
    PrecisionMismatch,
}

/// HyperLogLog-style cardinality sketch: `2^precision` max-rank registers.
pub struct Sketch {
    pub precision: usize,
    pub registers: Vec<u8>,
}

impl Sketch {
    /// Structural invariant: supported precision, full register array,
    /// every register within rank range.
    pub open spec fn wf(&self) -> bool {
        valid_precision(self.precision as nat) && wf_regs(self.registers@, self.precision as nat)
    }

    /// A zeroed sketch of the given precision.
    pub fn new(p: usize) -> (r: Sketch)
        requires
            valid_precision(p as nat),
        ensures
            r.wf(),
            r.precision == p,
            r.registers@ == zero_regs(p as nat),
    {
        let m = pow2_usize(p);
        let mut registers: Vec<u8> = Vec::new();
        while registers.len() < m
            invariant
                registers@.len() <= m,
                forall|i: int| 0 <= i < registers@.len() ==> registers@[i] == 0u8,
            decreases m - registers@.len(),
        {
            registers.push(0u8);
        }
        let r = Sketch { precision: p, registers };
        proof {
            assert(r.registers@ =~= zero_regs(p as nat));
        }
        r
    }

    /// Add one item: hash it and raise the selected register to the
    /// item's rank if the rank is larger.
    pub fn add(&mut self, item: &[u8])
        requires
            old(self).wf(),
        ensures
            final(self).wf(),
            final(self).precision == old(self).precision,
            final(self).registers@ == spec_add_regs(old(self).registers@, old(self).precision as nat, item@),
    {
        let p = self.precision;
        let ghost pn = p as nat;
        let h = hash64(item);
        let q: usize = 64 - p;
        let pw = pow2_u64(q);
        let rem = h % pw;
        proof {
            lemma_bucket_in_range(h, pn);
            lemma_rank_in_range(h, pn);
            lemma_pow2_pos(q as nat);
            assert(pow2(pn) <= pow2(24)) by {
                if pn < 24 {
                    vstd::arithmetic::power2::lemma_pow2_strictly_increases(pn, 24);
                }
            };
            assert(pow2(24) == 0x1000000) by {
                vstd::arithmetic::power2::lemma2_to64();
            };
        }
        let idx = (h / pw) as usize;
        proof {
            assert(idx as nat == spec_bucket(h, pn));
        }
        let rank: u8 = if rem == 0 {
            (q + 1) as u8
        } else {
            proof {
                lemma_mod_division_less_than_divisor(h as int, pw as int);
                lemma_floor_log2_lt(rem as nat, q as nat);
            }
            let fl = floor_log2_u64(rem);
            (q - fl) as u8
        };
        proof {
            assert(rank as nat == spec_rank(h, pn));
        }
        if self.registers[idx] < rank {
            self.registers.set(idx, rank);
        }
    }

    /// Union with another sketch of the same precision: the pointwise
    /// register maximum.  Differing precisions are an error and leave
    /// the sketch unchanged.
    pub fn union(&mut self, other: &Sketch) -> (r: Result<(), SketchError>)
        requires
            old(self).wf(),
            other.wf(),
        ensures
            final(self).wf(),
            final(self).precision == old(self).precision,
            old(self).precision == other.precision ==> r == Ok::<(), SketchError>(())
                && final(self).registers@ == spec_union_regs(old(self).registers@, other.registers@),
            old(self).precision != other.precision ==> r == Err::<(), SketchError>(SketchError::PrecisionMismatch)
                && final(self).registers@ == old(self).registers@,
    {
        if self.precision != other.precision {
            return Err(SketchError::PrecisionMismatch);
        }
        let m = self.registers.len();
        let mut i: usize = 0;
        while i < m
            invariant
                m == self.registers@.len(),
                self.registers@.len() == old(self).registers@.len(),
                other.registers@.len() == m,
                i <= m,
                self.precision == old(self).precision,
                forall|j: int| 0 <= j < i ==> self.registers@[j] == #[trigger] spec_union_regs(old(self).registers@, other.registers@)[j],
                forall|j: int| i <= j < m ==> self.registers@[j] == #[trigger] old(self).registers@[j],
            decreases m - i,
        {
            let b = other.registers[i];
            if self.registers[i] < b {
                self.registers.set(i, b);
            }
            i = i + 1;
        }
        proof {
            assert(self.registers@ =~= spec_union_regs(old(self).registers@, other.registers@));
            lemma_union_regs_wf(old(self).registers@, other.registers@, self.precision as nat);
        }
        Ok(())
    }

    /// An independent copy with identical registers.
    pub fn duplicate(&self) -> (r: Sketch)
        requires
            self.wf(),
        ensures
            r.wf(),
            r.precision == self.precision,
            r.registers@ == self.registers@,
    {
        let mut registers: Vec<u8> = Vec::new();
        let m = self.registers.len();
        let mut i: usize = 0;
        while i < m
            invariant
                i <= m,
                m == self.registers@.len(),
                registers@ =~= self.registers@.subrange(0, i as int),
            decreases m - i,
        {
            registers.push(self.registers[i]);
            i = i + 1;
        }
        proof {
            assert(registers@ =~= self.registers@);
        }
        Sketch { precision: self.precision, registers }
    }
}

/// Whether `2^p` registers meet the target relative error, given as
/// parts per million: the standard error is about `1.04 / sqrt(2^p)`,
/// so `2^p` must reach `(1.04 / eps)^2`.
pub open spec fn precision_reaches(ppm: u64, p: nat) -> bool {
    pow2(p) * (ppm as nat) * (ppm as nat) >= 1040000 * 1040000
}

/// A zeroed sketch sized for a target relative error given in parts
/// per million, or `None` where the error rate asks for more registers
/// than the sketch supports.
pub fn sketch_for_error_ppm(ppm: u64) -> (r: Option<Sketch>)
    requires
        1 <= ppm < 1000000,
    ensures
        match r {
            Some(s) => s.wf() && precision_reaches(ppm, s.precision as nat)
                && s.registers@ == zero_regs(s.precision as nat),
            None => !precision_reaches(ppm, MAX_PRECISION as nat),
        },
{
    match precision_for_error_ppm(ppm) {
        Some(p) => Some(Sketch::new(p)),
        None => None,
    }
}

/// Smallest supported precision meeting a target relative error of
/// `ppm` parts per million, or `None` where even the largest supported
/// register array falls short.
pub fn precision_for_error_ppm(ppm: u64) -> (r: Option<usize>)
    requires
        1 <= ppm < 1000000,
    ensures
        match r {
            Some(p) => valid_precision(p as nat) && precision_reaches(ppm, p as nat)
                && (p == MIN_PRECISION || !precision_reaches(ppm, (p - 1) as nat)),
            None => !precision_reaches(ppm, MAX_PRECISION as nat),
        },
{
    proof {
        assert((ppm as nat) * (ppm as nat) < 0xE8D4A51000) by (nonlinear_arith)
            requires ppm < 1000000,
        ;
    }
    let sq: u128 = (ppm as u128) * (ppm as u128);
    let target: u128 = 1040000u128 * 1040000u128;
    let mut p: usize = MIN_PRECISION;
    while p <= MAX_PRECISION
        invariant
            MIN_PRECISION <= p <= MAX_PRECISION + 1,
            sq == (ppm as nat) * (ppm as nat),
            sq < 0xE8D4A51000,
            target == 1040000 * 1040000,
            forall|p2: nat| MIN_PRECISION <= p2 < p ==> !precision_reaches(ppm, p2),
        decreases MAX_PRECISION + 1 - p,
    {
        let pw = crate::numeric::pow2_u128(p);
        proof {
            assert(pw * sq == pow2(p as nat) * (ppm as nat) * (ppm as nat)) by (nonlinear_arith)
                requires
                    pw as nat == pow2(p as nat),
                    sq == (ppm as nat) * (ppm as nat),
            ;
            assert(pow2(p as nat) <= pow2(24)) by {
                if (p as nat) < 24 {
                    vstd::arithmetic::power2::lemma_pow2_strictly_increases(p as nat, 24);
                }
            };
            assert(pow2(24) == 0x1000000) by {
                vstd::arithmetic::power2::lemma2_to64();
            };
            assert(pw * sq <= 0x1000000u128 * 0xE8D4A51000u128) by (nonlinear_arith)
                requires
                    pw as nat <= 0x1000000,
                    sq < 0xE8D4A51000,
                    sq == (ppm as nat) * (ppm as nat),
            ;
        }
        if pw * sq >= target {
            return Some(p);
        }
        p = p + 1;
    }
    None
}

} // verus!
