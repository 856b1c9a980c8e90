//! Batch partitioning and the worker pool.
//!
//! A batch of sequences is split into near-equal contiguous partitions,
//! one sketch is built per partition in parallel, and the local sketches
//! are reduced by union into one batch sketch.  The merge-invariance
//! lemmas prove that any partitioning of the same sequences yields
//! identical final registers.

use vstd::prelude::*;
use vstd::arithmetic::div_mod::lemma_fundamental_div_mod;
use rayon::iter::{IntoParallelRefIterator, ParallelIterator};
use crate::sketch::{
    Sketch, valid_precision, wf_regs, zero_regs, spec_union_regs, lemma_union_add,
    lemma_union_zero_identity,
};
use crate::kmer::{spec_kmers, spec_add_items, lemma_add_items_wf};

verus! {

/// Register array after the k-mers of every sequence of a list are
/// added, left to right.
pub open spec fn spec_add_seqs(regs: Seq<u8>, p: nat, seqs: Seq<Seq<u8>>, k: nat) -> Seq<u8>
    decreases seqs.len(),
{
    if seqs.len() == 0 {
        regs
    } else {
        spec_add_items(spec_add_seqs(regs, p, seqs.drop_last(), k), p, spec_kmers(seqs.last(), k))
    }
}

/// The sketch registers built from a list of sequences, starting from zero.
pub open spec fn spec_sketch_of(seqs: Seq<Seq<u8>>, k: nat, p: nat) -> Seq<u8> {
    spec_add_seqs(zero_regs(p), p, seqs, k)
}

/// Union-reduction of a list of register arrays, starting from zero.
pub open spec fn spec_reduce(sketches: Seq<Seq<u8>>, p: nat) -> Seq<u8>
    decreases sketches.len(),
{
    if sketches.len() == 0 {
        zero_regs(p)
    } else {
        spec_union_regs(spec_reduce(sketches.drop_last(), p), sketches.last())
    }
}

/// Folding sequences preserves well-formedness.
pub proof fn lemma_add_seqs_wf(regs: Seq<u8>, p: nat, seqs: Seq<Seq<u8>>, k: nat)
    requires
        valid_precision(p),
        wf_regs(regs, p),
    ensures
        wf_regs(spec_add_seqs(regs, p, seqs, k), p),
    decreases seqs.len(),
{
    if seqs.len() == 0 {
    } else {
        lemma_add_seqs_wf(regs, p, seqs.drop_last(), k);
        lemma_add_items_wf(spec_add_seqs(regs, p, seqs.drop_last(), k), p, spec_kmers(seqs.last(), k));
    }
}

/// The zero register array is well-formed.
pub proof fn lemma_zero_regs_wf(p: nat)
    ensures
        wf_regs(zero_regs(p), p),
{
}

/// Adding items to one side of a union is the same as adding them after
/// the union.
pub proof fn lemma_union_add_items(a: Seq<u8>, b: Seq<u8>, p: nat, items: Seq<Seq<u8>>)
    requires
        valid_precision(p),
        wf_regs(a, p),
        wf_regs(b, p),
    ensures
        spec_union_regs(a, spec_add_items(b, p, items)) == spec_add_items(spec_union_regs(a, b), p, items),
    decreases items.len(),
{
    if items.len() == 0 {
    } else {
        let dl = items.drop_last();
        lemma_union_add_items(a, b, p, dl);
        lemma_add_items_wf(b, p, dl);
        lemma_union_add(a, spec_add_items(b, p, dl), p, items.last());
    }
}

/// Adding whole sequences to one side of a union is the same as adding
/// them after the union.
pub proof fn lemma_union_add_seqs(a: Seq<u8>, b: Seq<u8>, p: nat, seqs: Seq<Seq<u8>>, k: nat)
    requires
        valid_precision(p),
        wf_regs(a, p),
        wf_regs(b, p),
    ensures
        spec_union_regs(a, spec_add_seqs(b, p, seqs, k)) == spec_add_seqs(spec_union_regs(a, b), p, seqs, k),
    decreases seqs.len(),
{
    if seqs.len() == 0 {
    } else {
        let dl = seqs.drop_last();
        lemma_union_add_seqs(a, b, p, dl, k);
        lemma_add_seqs_wf(b, p, dl, k);
        lemma_union_add_items(a, spec_add_seqs(b, p, dl, k), p, spec_kmers(seqs.last(), k));
    }
}

/// Folding a concatenation equals folding the parts in order.
pub proof fn lemma_add_seqs_concat(regs: Seq<u8>, p: nat, s1: Seq<Seq<u8>>, s2: Seq<Seq<u8>>, k: nat)
    ensures
        spec_add_seqs(regs, p, s1 + s2, k) == spec_add_seqs(spec_add_seqs(regs, p, s1, k), p, s2, k),
    decreases s2.len(),
{
    if s2.len() == 0 {
        assert(s1 + s2 =~= s1);
    } else {
        let dl = s2.drop_last();
        assert((s1 + s2).drop_last() =~= s1 + dl);
        assert((s1 + s2).len() > 0);
        assert((s1 + s2).last() == s2.last());
        lemma_add_seqs_concat(regs, p, s1, dl, k);
    }
}

/// The sketch of a concatenation is the union of the two sketches:
/// splitting the input anywhere and merging gives identical registers.
pub proof fn lemma_sketch_of_concat(s1: Seq<Seq<u8>>, s2: Seq<Seq<u8>>, k: nat, p: nat)
    requires
        valid_precision(p),
    ensures
        spec_sketch_of(s1 + s2, k, p) == spec_union_regs(spec_sketch_of(s1, k, p), spec_sketch_of(s2, k, p)),
{
    lemma_zero_regs_wf(p);
    lemma_add_seqs_concat(zero_regs(p), p, s1, s2, k);
    lemma_add_seqs_wf(zero_regs(p), p, s1, k);
    lemma_union_add_seqs(spec_sketch_of(s1, k, p), zero_regs(p), p, s2, k);
    lemma_union_zero_identity(spec_sketch_of(s1, k, p), p);
    assert(spec_union_regs(spec_sketch_of(s1, k, p), zero_regs(p)) == spec_sketch_of(s1, k, p));
}

/// Merge invariance: however the sequences are cut into contiguous
/// parts, union-reducing the per-part sketches yields exactly the
/// registers of the sketch of the whole, so batching, partitioning and
/// worker count cannot change the result.
pub proof fn lemma_merge_invariance(parts: Seq<Seq<Seq<u8>>>, k: nat, p: nat)
    requires
        valid_precision(p),
    ensures
        spec_reduce(parts.map_values(|pt: Seq<Seq<u8>>| spec_sketch_of(pt, k, p)), p)
            == spec_sketch_of(parts.flatten(), k, p),
    decreases parts.len(),
{
    let f = |pt: Seq<Seq<u8>>| spec_sketch_of(pt, k, p);
    if parts.len() == 0 {
        assert(parts.flatten() =~= Seq::<Seq<u8>>::empty());
        assert(parts.map_values(f).len() == 0);
    } else {
        let dl = parts.drop_last();
        let last = parts.last();
        assert(parts.map_values(f).drop_last() =~= dl.map_values(f));
        assert(parts.map_values(f).last() == f(last));
        lemma_merge_invariance(dl, k, p);
        dl.lemma_flatten_push(last);
        assert(dl.push(last) =~= parts);
        lemma_sketch_of_concat(dl.flatten(), last, k, p);
    }
}

/// Number of partitions a batch of `len` sequences is cut into for a
/// requested worker count: one per worker, but never an empty partition.
pub open spec fn spec_part_count(len: nat, workers: nat) -> nat {
    if len == 0 {
        0
    } else if workers <= len {
        workers
    } else {
        len
    }
}

/// Start offset of partition `i` when `len` items are cut into `c`
/// near-equal contiguous parts: the first `len % c` parts get one extra.
pub open spec fn spec_part_start(i: int, base: int, extra: int) -> int {
    i * base + if i <= extra {
        i
    } else {
        extra
    }
}

/// Cut a batch into near-equal contiguous partitions, preserving order:
/// partition `i` has `len / c` sequences, plus one when `i < len % c`.
pub fn partition(batch: Vec<Vec<u8>>, workers: usize) -> (parts: Vec<Vec<Vec<u8>>>)
    requires
        workers >= 1,
    ensures
        parts@.len() == spec_part_count(batch@.len(), workers as nat),
        parts.deep_view().flatten() == batch.deep_view(),
        forall|i: int| 0 <= i < parts@.len()
            ==> (#[trigger] parts.deep_view()[i]).len()
                == batch@.len() / parts@.len() + (if i < batch@.len() % parts@.len() { 1int } else { 0 }),
{
    let ghost whole = batch.deep_view();
    let mut parts: Vec<Vec<Vec<u8>>> = Vec::new();
    let len = batch.len();
    if len == 0 {
        proof {
            assert(parts.deep_view().flatten() =~= batch.deep_view());
        }
        return parts;
    }
    let c = if workers <= len {
        workers
    } else {
        len
    };
    let base = len / c;
    let extra = len % c;
    proof {
        lemma_fundamental_div_mod(len as int, c as int);
    }
    let mut rest = batch;
    let mut i: usize = 0;
    proof {
        assert(spec_part_start(0, base as int, extra as int) == 0);
        assert(rest.deep_view() == whole.subrange(0, len as int)) by {
            assert(rest.deep_view() =~= whole.subrange(0, len as int));
        };
        assert(parts.deep_view() =~= Seq::<Seq<Seq<u8>>>::empty());
        assert(parts.deep_view().flatten() == whole.subrange(0, 0)) by {
            assert(parts.deep_view().flatten() =~= whole.subrange(0, 0));
        };
    }
    while i < c
        invariant
            1 <= c <= len,
            i <= c,
            len <= usize::MAX,
            base == len as int / c as int,
            extra == len as int % c as int,
            len == c * base + extra,
            extra < c,
            whole.len() == len,
            parts@.len() == i,
            rest.deep_view() == whole.subrange(spec_part_start(i as int, base as int, extra as int), len as int),
            parts.deep_view().flatten() == whole.subrange(0, spec_part_start(i as int, base as int, extra as int)),
            forall|j: int| 0 <= j < i
                ==> (#[trigger] parts.deep_view()[j]).len()
                    == base + (if j < extra { 1int } else { 0 }),
        decreases c - i,
    {
        proof {
            if i < extra {
                assert(c >= 2);
                vstd::arithmetic::div_mod::lemma_div_is_ordered_by_denominator(len as int, 2, c as int);
                vstd::arithmetic::div_mod::lemma_div_is_ordered(len as int, usize::MAX as int, 2);
            }
        }
        let take = if i < extra {
            base + 1
        } else {
            base
        };
        proof {
            let s = spec_part_start(i as int, base as int, extra as int);
            assert(s + take <= len) by (nonlinear_arith)
                requires
                    s == i as int * base as int + if i as int <= extra as int { i as int } else { extra as int },
                    take == base as int + if (i as int) < extra as int { 1int } else { 0 },
                    len == c as int * base as int + extra as int,
                    0 <= i as int && (i as int) < c as int,
                    0 <= extra as int && (extra as int) < c as int,
                    base as int >= 0,
            ;
            assert(rest.deep_view().len() == rest@.len());
        }
        let ghost rest0 = rest@;
        let ghost rest0_dv = rest.deep_view();
        let tail = rest.split_off(take);
        let ghost prev_parts = parts.deep_view();
        let ghost rest_dv = rest.deep_view();
        parts.push(rest);
        rest = tail;
        i = i + 1;
        proof {
            let s_old = spec_part_start(i - 1, base as int, extra as int);
            let s_new = spec_part_start(i as int, base as int, extra as int);
            assert(s_new == s_old + take) by (nonlinear_arith)
                requires
                    s_new == i as int * base as int + (if i as int <= extra as int { i as int } else { extra as int }),
                    s_old == (i - 1) * base as int + (if i - 1 <= extra as int { i - 1 } else { extra as int }),
                    take == base as int + (if i - 1 < extra as int { 1int } else { 0 }),
                    1 <= i as int,
            ;
            assert(rest_dv =~= whole.subrange(s_old, s_old + take)) by {
                assert forall|j: int| 0 <= j < rest_dv.len() implies rest_dv[j] == whole.subrange(s_old, s_old + take)[j] by {
                    assert(rest_dv[j] == rest0[j].deep_view());
                    assert(rest0_dv[j] == rest0[j].deep_view());
                    assert(rest0_dv[j] == whole.subrange(s_old, len as int)[j]);
                };
            };
            assert(rest.deep_view() =~= whole.subrange(s_new, len as int)) by {
                assert forall|j: int| 0 <= j < rest.deep_view().len() implies rest.deep_view()[j] == whole.subrange(s_new, len as int)[j] by {
                    assert(rest.deep_view()[j] == rest@[j].deep_view());
                    assert(rest@[j] == rest0[take + j]);
                    assert(rest0_dv[take + j] == rest0[take + j].deep_view());
                    assert(rest0_dv[take + j] == whole.subrange(s_old, len as int)[take + j]);
                };
            };
            assert(parts.deep_view() =~= prev_parts.push(rest_dv));
            prev_parts.lemma_flatten_push(rest_dv);
            assert(parts.deep_view().flatten() == whole.subrange(0, s_new)) by {
                assert(whole.subrange(0, s_old) + whole.subrange(s_old, s_old + take) =~= whole.subrange(0, s_new));
                assert(parts.deep_view().flatten() == prev_parts.flatten() + rest_dv);
            };
            assert(rest.deep_view() == whole.subrange(s_new, len as int));
        }
    }
    proof {
        assert(spec_part_start(c as int, base as int, extra as int) == len) by (nonlinear_arith)
            requires
                len == c as int * base as int + extra as int,
                0 <= extra as int && (extra as int) < c as int,
        ;
        assert(parts.deep_view().flatten() =~= whole);
    }
    parts
}

/// Build the sketch of one partition's sequences, sequentially.
pub fn build_sketch(seqs: &Vec<Vec<u8>>, k: usize, p: usize) -> (r: Sketch)
    requires
        k >= 1,
        valid_precision(p as nat),
    ensures
        r.wf(),
        r.precision == p,
        r.registers@ == spec_sketch_of(seqs.deep_view(), k as nat, p as nat),
{
    let mut r = Sketch::new(p);
    let n = seqs.len();
    let mut i: usize = 0;
    while i < n
        invariant
            k >= 1,
            valid_precision(p as nat),
            n == seqs@.len(),
            i <= n,
            r.wf(),
            r.precision == p,
            r.registers@ == spec_add_seqs(zero_regs(p as nat), p as nat, seqs.deep_view().subrange(0, i as int), k as nat),
        decreases n - i,
    {
        let s: &Vec<u8> = &seqs[i];
        r.add_sequence(s.as_slice(), k);
        i = i + 1;
        proof {
            let dv = seqs.deep_view();
            let pre = dv.subrange(0, i as int);
            assert(pre.drop_last() =~= dv.subrange(0, i - 1));
            assert(pre.last() == dv[i - 1]);
            assert(dv[i - 1] == seqs@[i - 1].deep_view());
            assert(seqs@[i - 1].deep_view() =~= seqs@[i - 1]@);
        }
    }
    proof {
        assert(seqs.deep_view().subrange(0, n as int) =~= seqs.deep_view());
    }
    r
}

/// Relies on rayon's parallel iterator: `par_iter().map(f).collect()`
/// over a `Vec` applies `f` to every element and collects the results
/// in input order.  `f` here is the verified `build_sketch`, so each
/// returned sketch carries that function's contract.
#[verifier::external_body]
fn sketches_of_partitions(parts: &Vec<Vec<Vec<u8>>>, k: usize, p: usize) -> (r: Vec<Sketch>)
    requires
        k >= 1,
        valid_precision(p as nat),
    ensures
        r@.len() == parts@.len(),
        forall|i: int| 0 <= i < r@.len()
            ==> (#[trigger] r@[i]).wf()
                && r@[i].precision == p
                && r@[i].registers@ == spec_sketch_of(parts@[i].deep_view(), k as nat, p as nat),
{
    parts.par_iter().map(|part| build_sketch(part, k, p)).collect()
}

/// Union-reduce a list of per-partition sketches into one batch sketch.
pub fn reduce_sketches(locals: Vec<Sketch>, p: usize) -> (r: Sketch)
    requires
        valid_precision(p as nat),
        forall|i: int| 0 <= i < locals@.len()
            ==> (#[trigger] locals@[i]).wf() && locals@[i].precision == p,
    ensures
        r.wf(),
        r.precision == p,
        r.registers@ == spec_reduce(Seq::new(locals@.len(), |i: int| locals@[i].registers@), p as nat),
{
    let ghost regs_seq = Seq::new(locals@.len(), |i: int| locals@[i].registers@);
    let mut r = Sketch::new(p);
    let n = locals.len();
    let mut i: usize = 0;
    while i < n
        invariant
            valid_precision(p as nat),
            n == locals@.len(),
            i <= n,
            r.wf(),
            r.precision == p,
            regs_seq == Seq::new(locals@.len(), |j: int| locals@[j].registers@),
            forall|j: int| 0 <= j < locals@.len()
                ==> (#[trigger] locals@[j]).wf() && locals@[j].precision == p,
            r.registers@ == spec_reduce(regs_seq.subrange(0, i as int), p as nat),
        decreases n - i,
    {
        let res = r.union(&locals[i]);
        proof {
            if res != Ok::<(), crate::sketch::SketchError>(()) {
                assert(false);
            }
        }
        i = i + 1;
        proof {
            let pre = regs_seq.subrange(0, i as int);
            assert(pre.drop_last() =~= regs_seq.subrange(0, i - 1));
            assert(pre.last() == locals@[i - 1].registers@);
        }
    }
    proof {
        assert(regs_seq.subrange(0, n as int) =~= regs_seq);
    }
    r
}

impl Sketch {
    /// Process one batch: partition it, build one local sketch per
    /// partition in parallel, reduce them, and merge the batch sketch
    /// into this running sketch.  The result is exactly the union of
    /// the old registers with the sketch of the whole batch, whatever
    /// the worker count.
    pub fn absorb_batch(&mut self, batch: Vec<Vec<u8>>, k: usize, workers: usize)
        requires
            old(self).wf(),
            k >= 1,
            workers >= 1,
        ensures
            final(self).wf(),
            final(self).precision == old(self).precision,
            final(self).registers@ == spec_union_regs(
                old(self).registers@,
                spec_sketch_of(batch.deep_view(), k as nat, old(self).precision as nat),
            ),
    {
        let ghost pn = self.precision as nat;
        let ghost whole = batch.deep_view();
        let p = self.precision;
        let parts = partition(batch, workers);
        let locals = sketches_of_partitions(&parts, k, p);
        let batch_sketch = reduce_sketches(locals, p);
        proof {
            let f = |pt: Seq<Seq<u8>>| spec_sketch_of(pt, k as nat, pn);
            let locals_regs = Seq::new(locals@.len(), |i: int| locals@[i].registers@);
            assert(locals_regs =~= parts.deep_view().map_values(f)) by {
                assert forall|i: int| 0 <= i < locals@.len() implies locals_regs[i]
                    == parts.deep_view().map_values(f)[i] by {
                    assert(parts.deep_view()[i] == parts@[i].deep_view());
                };
            };
            lemma_merge_invariance(parts.deep_view(), k as nat, pn);
            assert(batch_sketch.registers@ == spec_sketch_of(whole, k as nat, pn));
        }
        let res = self.union(&batch_sketch);
        proof {
            if res != Ok::<(), crate::sketch::SketchError>(()) {
                assert(false);
            }
        }
    }
}

} // verus!
