//! The even-odd rule for a ray that may pass through vertices. The edges of
//! a polygon are looked at in adjacent pairs, the last with the first, so
//! that a crossing at a shared vertex is seen by the pair that shares it.

use vstd::prelude::*;

verus! {

/// What an adjacent pair of edges adds to the count. Where the ray misses
/// the first edge, nothing. Where it meets the first edge alone, one. Where
/// it meets both, it passes through the vertex that they share: edges on
/// the same side of the ray make a touch, which adds nothing; edges on
/// opposite sides make a crossing, which adds one.
pub open spec fn pair_count(first_hit: bool, second_hit: bool, same_side: bool) -> nat {
    if !first_hit {
        0
    } else if !second_hit {
        1
    } else if same_side {
        0
    } else {
        1
    }
}

/// The count over the first `pairs` adjacent pairs of a polygon whose edge
/// `i` meets the ray where `hits[i]` holds and lies on the side that
/// `negative[i]` tells.
pub open spec fn crossings(hits: Seq<bool>, negative: Seq<bool>, pairs: nat) -> nat
    decreases pairs,
{
    if pairs == 0 {
        0
    } else {
        let i = pairs - 1;
        let j = if pairs == hits.len() {
            0
        } else {
            pairs as int
        };
        crossings(hits, negative, i as nat) + pair_count(hits[i], hits[j], negative[i] == negative[j])
    }
}

/// Counts the crossings of a ray with a polygon, all adjacent pairs of edges
/// taken in turn and the last edge paired with the first.
pub fn count_crossings(hits: &Vec<bool>, negative: &Vec<bool>) -> (count: usize)
    requires
        hits.len() == negative.len(),
    ensures
        count == crossings(hits@, negative@, hits@.len()),
        count <= hits.len(),
{
    let n = hits.len();
    let mut count: usize = 0;
    let mut i: usize = 0;
    while i < n
        invariant
            i <= n,
            n == hits.len(),
            n == negative.len(),
            count == crossings(hits@, negative@, i as nat),
            count <= i,
        decreases n - i,
    {
        let j = if i + 1 == n {
            0
        } else {
            i + 1
        };
        if hits[i] && (!hits[j] || negative[i] != negative[j]) {
            count += 1;
        }
        i += 1;
    }
    count
}

/// Whether the point at the foot of the ray lies inside the polygon: the
/// count of crossings is odd.
pub fn is_inside(hits: &Vec<bool>, negative: &Vec<bool>) -> (inside: bool)
    requires
        hits.len() == negative.len(),
    ensures
        inside == (crossings(hits@, negative@, hits@.len()) % 2 == 1),
{
    count_crossings(hits, negative) % 2 == 1
}

} // verus!
