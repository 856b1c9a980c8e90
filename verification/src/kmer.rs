//! K-mer extraction and the folding of k-mers into a sketch.
//!
//! The extractor is a pure function: a sequence of length `L` yields its
//! `L - k + 1` contiguous length-`k` windows left to right, and nothing
//! at all when `L < k`.

use vstd::prelude::*;
use vstd::slice::slice_subrange;
use crate::sketch::{Sketch, spec_add_regs, valid_precision, wf_regs};

verus! {

/// The ordered k-mers of a sequence: all length-`k` windows, left to right.
pub open spec fn spec_kmers(s: Seq<u8>, k: nat) -> Seq<Seq<u8>> {
    if s.len() < k {
        Seq::empty()
    } else {
        Seq::new((s.len() - k + 1) as nat, |i: int| s.subrange(i, i + k))
    }
}

/// Register array after every item of a list is added, left to right.
pub open spec fn spec_add_items(regs: Seq<u8>, p: nat, items: Seq<Seq<u8>>) -> Seq<u8>
    decreases items.len(),
{
    if items.len() == 0 {
        regs
    } else {
        spec_add_regs(spec_add_items(regs, p, items.drop_last()), p, items.last())
    }
}

/// Adding a list of items preserves well-formedness and never lowers a
/// register.
pub proof fn lemma_add_items_wf(regs: Seq<u8>, p: nat, items: Seq<Seq<u8>>)
    requires
        valid_precision(p),
        wf_regs(regs, p),
    ensures
        wf_regs(spec_add_items(regs, p, items), p),
        forall|i: int| 0 <= i < regs.len() ==> regs[i] <= #[trigger] spec_add_items(regs, p, items)[i],
    decreases items.len(),
{
    if items.len() == 0 {
    } else {
        lemma_add_items_wf(regs, p, items.drop_last());
        crate::sketch::lemma_add_regs_wf(spec_add_items(regs, p, items.drop_last()), p, items.last());
    }
}

/// Extract the k-mers of a sequence as owned byte vectors.
pub fn kmers(seq: &[u8], k: usize) -> (r: Vec<Vec<u8>>)
    requires
        k >= 1,
    ensures
        r.deep_view() == spec_kmers(seq@, k as nat),
{
    let mut r: Vec<Vec<u8>> = Vec::new();
    if seq.len() < k {
        proof {
            assert(r.deep_view() =~= spec_kmers(seq@, k as nat));
        }
        return r;
    }
    let n = seq.len() - k + 1;
    let mut i: usize = 0;
    while i < n
        invariant
            k >= 1,
            n == seq@.len() - k + 1,
            k <= seq@.len(),
            seq@.len() <= usize::MAX,
            i <= n,
            r.deep_view().len() == i as nat,
            forall|j: int| 0 <= j < i ==> r.deep_view()[j] == seq@.subrange(j, j + k),
        decreases n - i,
    {
        let window = slice_subrange(seq, i, i + k);
        let mut w: Vec<u8> = Vec::new();
        let mut b: usize = 0;
        while b < window.len()
            invariant
                b <= window@.len(),
                w@ =~= window@.subrange(0, b as int),
            decreases window@.len() - b,
        {
            w.push(window[b]);
            b = b + 1;
        }
        proof {
            assert(w@ =~= window@);
        }
        let ghost prevd = r.deep_view();
        r.push(w);
        i = i + 1;
        proof {
            assert(w.deep_view() =~= w@);
            assert(r.deep_view() =~= prevd.push(w@));
        }
    }
    proof {
        assert(r.deep_view() =~= spec_kmers(seq@, k as nat));
    }
    r
}

impl Sketch {
    /// Add every k-mer of one sequence to the sketch.  A sequence
    /// shorter than `k` has no k-mers and leaves the sketch unchanged.
    pub fn add_sequence(&mut self, seq: &[u8], k: usize)
        requires
            old(self).wf(),
            k >= 1,
        ensures
            final(self).wf(),
            final(self).precision == old(self).precision,
            final(self).registers@ == spec_add_items(old(self).registers@, old(self).precision as nat, spec_kmers(seq@, k as nat)),
    {
        let ghost pn = self.precision as nat;
        let ghost regs0 = self.registers@;
        if seq.len() < k {
            proof {
                assert(spec_kmers(seq@, k as nat) =~= Seq::<Seq<u8>>::empty());
            }
            return;
        }
        let n = seq.len() - k + 1;
        let mut i: usize = 0;
        while i < n
            invariant
                k >= 1,
                n == seq@.len() - k + 1,
                k <= seq@.len(),
                seq@.len() <= usize::MAX,
                i <= n,
                self.wf(),
                self.precision as nat == pn,
                valid_precision(pn),
                wf_regs(regs0, pn),
                self.registers@ == spec_add_items(regs0, pn, spec_kmers(seq@, k as nat).subrange(0, i as int)),
            decreases n - i,
        {
            let window = slice_subrange(seq, i, i + k);
            self.add(window);
            i = i + 1;
            proof {
                let all = spec_kmers(seq@, k as nat);
                let pre = all.subrange(0, i as int);
                assert(pre.drop_last() =~= all.subrange(0, i - 1));
                assert(pre.last() == seq@.subrange(i - 1, i - 1 + k));
            }
        }
        proof {
            assert(spec_kmers(seq@, k as nat).subrange(0, n as int) =~= spec_kmers(seq@, k as nat));
        }
    }
}

/// A sequence shorter than `k` contributes no k-mers: folding it into
/// any register array returns the array unchanged.
pub proof fn lemma_short_sequence_is_neutral(regs: Seq<u8>, p: nat, s: Seq<u8>, k: nat)
    requires
        s.len() < k,
    ensures
        spec_add_items(regs, p, spec_kmers(s, k)) == regs,
{
    assert(spec_kmers(s, k) =~= Seq::<Seq<u8>>::empty());
}

} // verus!
