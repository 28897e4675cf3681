//! When a closed chain of vertices and edges is a simple polygon: no two
//! of its vertices coincide, it has at least three edges, and no two of its
//! edges meet unless they share an end.

use vstd::prelude::*;

verus! {

/// A table with `n` rows of `n` entries.
pub open spec fn square_table(table: Seq<Vec<bool>>, n: nat) -> bool {
    table.len() == n && forall|i: int| 0 <= i < n ==> (#[trigger] table[i])@.len() == n
}

/// The chain of `n` edges is a simple polygon: `n` is at least three, and of
/// two edges `i` and `j`, `i` before `j`, that share no end according to
/// `shares[i][j]`, none meets the other according to `meets[i][j]`.
pub open spec fn simple(shares: Seq<Vec<bool>>, meets: Seq<Vec<bool>>) -> bool {
    &&& shares.len() >= 3
    &&& forall|i: int, j: int|
        #![trigger shares[i]@[j]]
        0 <= i < j < shares.len() ==> shares[i]@[j] || !meets[i]@[j]
}

/// No two vertices coincide: of two vertices `i` and `j`, `i` before `j`,
/// `same[i][j]` does not hold.
pub open spec fn distinct(same: Seq<Vec<bool>>) -> bool {
    forall|i: int, j: int| #![trigger same[i]@[j]] 0 <= i < j < same.len() ==> !same[i]@[j]
}

/// A polygon is valid where its vertices are distinct and its chain of
/// edges, one edge for each vertex, is simple.
pub open spec fn valid(same: Seq<Vec<bool>>, shares: Seq<Vec<bool>>, meets: Seq<Vec<bool>>) -> bool {
    distinct(same) && same.len() == shares.len() && simple(shares, meets)
}

/// A valid polygon has three vertices of which no two coincide; so a
/// polygon with fewer than three distinct vertices is not valid.
pub proof fn lemma_valid_has_three_distinct(
    same: Seq<Vec<bool>>,
    shares: Seq<Vec<bool>>,
    meets: Seq<Vec<bool>>,
)
    requires
        valid(same, shares, meets),
    ensures
        same.len() >= 3,
        !same[0]@[1] && !same[0]@[2] && !same[1]@[2],
{
}

/// Whether no two vertices coincide.
pub fn all_distinct(same: &Vec<Vec<bool>>) -> (apart: bool)
    requires
        square_table(same@, same@.len()),
    ensures
        apart == distinct(same@),
{
    let n = same.len();
    let mut i: usize = 0;
    while i < n
        invariant
            i <= n,
            n == same@.len(),
            square_table(same@, n as nat),
            forall|a: int, b: int| #![trigger same[a]@[b]] 0 <= a < i && a < b < n ==> !same[a]@[b],
        decreases n - i,
    {
        let mut j: usize = i + 1;
        while j < n
            invariant
                i < j <= n,
                n == same@.len(),
                square_table(same@, n as nat),
                forall|b: int| #![trigger same[i as int]@[b]] i < b < j ==> !same[i as int]@[b],
            decreases n - j,
        {
            if same[i][j] {
                return false;
            }
            j += 1;
        }
        i += 1;
    }
    true
}

/// Whether the chain of edges is a simple polygon.
pub fn is_simple(shares: &Vec<Vec<bool>>, meets: &Vec<Vec<bool>>) -> (valid: bool)
    requires
        square_table(shares@, shares@.len()),
        square_table(meets@, shares@.len()),
    ensures
        valid == simple(shares@, meets@),
{
    let n = shares.len();
    if n < 3 {
        return false;
    }
    let mut i: usize = 0;
    while i < n
        invariant
            i <= n,
            n == shares@.len(),
            square_table(shares@, n as nat),
            square_table(meets@, n as nat),
            forall|a: int, b: int|
                #![trigger shares[a]@[b]]
                0 <= a < i && a < b < n ==> shares[a]@[b] || !meets[a]@[b],
        decreases n - i,
    {
        let mut j: usize = i + 1;
        while j < n
            invariant
                i < j <= n,
                n == shares@.len(),
                square_table(shares@, n as nat),
                square_table(meets@, n as nat),
                forall|b: int|
                    #![trigger shares[i as int]@[b]]
                    i < b < j ==> shares[i as int]@[b] || !meets[i as int]@[b],
            decreases n - j,
        {
            if !shares[i][j] && meets[i][j] {
                return false;
            }
            j += 1;
        }
        i += 1;
    }
    true
}

} // verus!
