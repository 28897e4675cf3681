//! What the generator of polygons decides without arithmetic on
//! coordinates: how many corners a polygon gets, and whether a candidate
//! joins the accepted polygons, which it does only if it crosses none of
//! them.

use crate::geo::Intersecter;
use rand::rngs::ThreadRng;
use rand::Rng;
use vstd::prelude::*;

verus! {

/// The thread's random generator of `rand`, `rand::rngs::ThreadRng`. What a
/// value of it holds is not looked at.
#[verifier::external_type_specification]
#[verifier::external_body]
pub struct ExThreadRng(ThreadRng);

/// Draws a number with `rand::Rng::gen_range` on the range from `low` to
/// `high`, both included. The contract claims that the number lies in the
/// range, and nothing about which number it is; the call panics on an empty
/// range, which the precondition leaves out.
#[verifier::external_body]
fn draw_between(source: &mut ThreadRng, low: usize, high: usize) -> (drawn: usize)
    requires
        low <= high,
    ensures
        low <= drawn <= high,
{
    source.gen_range(low..=high)
}

/// The least number of corners of a polygon.
pub const CORNERS_MIN: usize = 3;

/// Draws the number of corners of a polygon, between three and
/// `corner_count_max`; with a greatest number below three there is none to
/// draw.
pub fn draw_corner_count(source: &mut ThreadRng, corner_count_max: usize) -> (count: Option<usize>)
    ensures
        count is Some <==> CORNERS_MIN <= corner_count_max,
        count matches Some(k) ==> CORNERS_MIN <= k <= corner_count_max,
{
    if corner_count_max < CORNERS_MIN {
        None
    } else {
        Some(draw_between(source, CORNERS_MIN, corner_count_max))
    }
}

/// `candidate` crosses none of `accepted`.
pub open spec fn clear_of<P: Intersecter>(accepted: Seq<P>, candidate: P) -> bool {
    forall|j: int| 0 <= j < accepted.len() ==> !candidate.crosses(&#[trigger] accepted[j])
}

/// No shape crosses one that stands before it.
pub open spec fn apart<P: Intersecter>(shapes: Seq<P>) -> bool {
    forall|i: int, j: int|
        #![trigger shapes[i], shapes[j]]
        0 <= j < i < shapes.len() ==> !shapes[i].crosses(&shapes[j])
}

/// Whether `candidate` crosses none of `accepted`.
pub fn fits<P: Intersecter>(accepted: &Vec<P>, candidate: &P) -> (clear: bool)
    ensures
        clear == clear_of(accepted@, *candidate),
{
    let mut j: usize = 0;
    while j < accepted.len()
        invariant
            j <= accepted.len(),
            forall|k: int| 0 <= k < j ==> !candidate.crosses(&#[trigger] accepted[k]),
        decreases accepted.len() - j,
    {
        if candidate.intersects(&accepted[j]) {
            return false;
        }
        j += 1;
    }
    true
}

/// Puts `candidate` behind the accepted shapes if it crosses none of them,
/// and says whether it did.
pub fn accept<P: Intersecter>(accepted: &mut Vec<P>, candidate: P) -> (taken: bool)
    ensures
        taken == clear_of(old(accepted)@, candidate),
        taken ==> final(accepted)@ == old(accepted)@.push(candidate),
        !taken ==> final(accepted)@ == old(accepted)@,
        apart(old(accepted)@) ==> apart(final(accepted)@),
{
    if fits(accepted, &candidate) {
        proof {
            lemma_accepted_apart(accepted@, candidate);
        }
        accepted.push(candidate);
        true
    } else {
        false
    }
}

/// Shapes of which none crosses an earlier one stay so when a candidate
/// that crosses none of them is put behind them.
pub proof fn lemma_accepted_apart<P: Intersecter>(accepted: Seq<P>, candidate: P)
    requires
        clear_of(accepted, candidate),
    ensures
        apart(accepted) ==> apart(accepted.push(candidate)),
{
    let longer = accepted.push(candidate);
    if apart(accepted) {
        assert forall|i: int, j: int|
            #![trigger longer[i], longer[j]]
            0 <= j < i < longer.len() implies !longer[i].crosses(&longer[j]) by {
            assert(longer[j] == accepted[j]);
            if i < accepted.len() {
                assert(longer[i] == accepted[i]);
            }
        }
    }
}

} // verus!
