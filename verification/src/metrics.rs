//! Combining two per-file sketches into cardinalities and a Jaccard
//! similarity estimate.
//!
//! The union is taken on a copy, never in place, since the per-file
//! cardinalities are still needed.  All cardinality arithmetic is exact:
//! the Jaccard estimate is returned as the rational
//! `(card1 + card2 - combined) / combined`, with an explicit undefined
//! sentinel instead of a division by zero when both inputs were empty.

use vstd::prelude::*;
use crate::sketch::{Sketch, SketchError, spec_union_regs, lemma_union_regs_wf};
use crate::estimate::spec_estimate;

verus! {

/// A Jaccard similarity estimate: an exact rational, or undefined when
/// the combined cardinality is zero.
#[derive(Clone, Copy, Debug, PartialEq, Eq, Structural)]
pub enum JaccardEstimate {
    Undefined,
    Ratio { numerator: i128, denominator: u64 },
}

/// The Jaccard estimate of three cardinalities by inclusion–exclusion:
/// `(card1 + card2 - combined) / combined`, undefined when `combined`
/// is zero.
pub open spec fn spec_jaccard(card1: u64, card2: u64, combined: u64) -> JaccardEstimate {
    if combined == 0 {
        JaccardEstimate::Undefined
    } else {
        JaccardEstimate::Ratio {
            numerator: (card1 as int + card2 as int - combined as int) as i128,
            denominator: combined,
        }
    }
}

/// Compute the Jaccard estimate from the three cardinalities.
pub fn jaccard(card1: u64, card2: u64, combined: u64) -> (r: JaccardEstimate)
    ensures
        r == spec_jaccard(card1, card2, combined),
        combined == 0 <==> r == JaccardEstimate::Undefined,
{
    if combined == 0 {
        JaccardEstimate::Undefined
    } else {
        JaccardEstimate::Ratio {
            numerator: card1 as i128 + card2 as i128 - combined as i128,
            denominator: combined,
        }
    }
}

/// Cardinalities and similarity of two per-file sketches.
#[derive(Clone, Copy, Debug, PartialEq, Eq, Structural)]
pub struct SimilarityReport {
    pub card1: u64,
    pub card2: u64,
    pub combined_card: u64,
    pub jaccard: JaccardEstimate,
}

/// Union the two per-file sketches on a copy and derive the two
/// per-file cardinalities, the combined cardinality and the Jaccard
/// estimate.  Sketches of differing precision are an error.
pub fn compare_sketches(s1: &Sketch, s2: &Sketch) -> (r: Result<SimilarityReport, SketchError>)
    requires
        s1.wf(),
        s2.wf(),
    ensures
        match r {
            Ok(rep) => s1.precision == s2.precision
                && rep.card1 as nat == spec_estimate(s1.registers@, s1.precision as nat)
                && rep.card2 as nat == spec_estimate(s2.registers@, s2.precision as nat)
                && rep.combined_card as nat == spec_estimate(
                    spec_union_regs(s1.registers@, s2.registers@),
                    s1.precision as nat,
                )
                && rep.jaccard == spec_jaccard(rep.card1, rep.card2, rep.combined_card),
            Err(e) => s1.precision != s2.precision && e == SketchError::PrecisionMismatch,
        },
{
    if s1.precision != s2.precision {
        return Err(SketchError::PrecisionMismatch);
    }
    let mut combined = s1.duplicate();
    let res = combined.union(s2);
    proof {
        if res != Ok::<(), SketchError>(()) {
            assert(false);
        }
        lemma_union_regs_wf(s1.registers@, s2.registers@, s1.precision as nat);
    }
    let card1 = s1.estimate();
    let card2 = s2.estimate();
    let combined_card = combined.estimate();
    let j = jaccard(card1, card2, combined_card);
    Ok(SimilarityReport { card1, card2, combined_card, jaccard: j })
}

} // verus!
