//! A simple, fully predictable distance matrix provider: Manhattan
//! distance over canonical microdegree coordinate keys, at one minute of
//! travel per whole degree. Useful for tests and as a deterministic
//! fallback when no road-network matrix is available.

use vstd::prelude::*;

use crate::traits::DistanceMatrixProvider;
use crate::schedule::abs_diff;
use crate::MAX_TIME;

verus! {

/// Largest coordinate magnitude the provider accepts, in microdegrees.
/// Generous enough for any latitude or longitude, and small enough that
/// every matrix entry stays below `MAX_TIME`.
pub const MAX_COORD: i64 = 2000000000;

pub struct ManhattanMatrix;

/// Travel seconds between two coordinate keys: the sum of the absolute
/// coordinate differences, at 60 seconds per million microdegrees
/// (one minute per degree), truncated.
pub open spec fn manhattan_seconds(a: (i64, i64), b: (i64, i64)) -> u32 {
    (((abs_diff(a.0 as int, b.0 as int) + abs_diff(a.1 as int, b.1 as int)) * 60) / 1000000) as u32
}

impl DistanceMatrixProvider for ManhattanMatrix {
    open spec fn matrix_pre(&self, locations: Seq<(i64, i64)>) -> bool {
        forall|i: int|
            0 <= i < locations.len() ==> abs_diff((#[trigger] locations[i]).0 as int, 0)
                <= MAX_COORD as int && abs_diff(locations[i].1 as int, 0) <= MAX_COORD as int
    }

    open spec fn spec_matrix_for(&self, locations: Seq<(i64, i64)>) -> Seq<Seq<u32>> {
        Seq::new(
            locations.len(),
            |i: int| Seq::new(locations.len(), |j: int| manhattan_seconds(locations[i], locations[j])),
        )
    }

    fn matrix_for(&self, locations: &Vec<(i64, i64)>) -> (m: Vec<Vec<u32>>) {
        let n = locations.len();
        let mut m: Vec<Vec<u32>> = Vec::new();
        let mut i: usize = 0;
        while i < n
            invariant
                i <= n,
                n == locations@.len(),
                self.matrix_pre(locations@),
                m@.len() == i,
                forall|a: int|
                    0 <= a < i ==> (#[trigger] m@[a])@ == self.spec_matrix_for(locations@)[a],
            decreases n - i,
        {
            let mut row: Vec<u32> = Vec::new();
            let mut j: usize = 0;
            while j < n
                invariant
                    j <= n,
                    i < n,
                    n == locations@.len(),
                    self.matrix_pre(locations@),
                    row@.len() == j,
                    forall|b: int|
                        0 <= b < j ==> (#[trigger] row@[b]) == manhattan_seconds(
                            locations@[i as int],
                            locations@[b],
                        ),
                decreases n - j,
            {
                let a = locations[i];
                let b = locations[j];
                let dlat: i64 = if a.0 >= b.0 {
                    a.0 - b.0
                } else {
                    b.0 - a.0
                };
                let dlng: i64 = if a.1 >= b.1 {
                    a.1 - b.1
                } else {
                    b.1 - a.1
                };
                let secs: i64 = ((dlat + dlng) * 60) / 1000000;
                proof {
                    assert(dlat as int == abs_diff(a.0 as int, b.0 as int));
                    assert(dlng as int == abs_diff(a.1 as int, b.1 as int));
                }
                row.push(secs as u32);
                j = j + 1;
            }
            proof {
                assert(row@ =~= self.spec_matrix_for(locations@)[i as int]);
            }
            m.push(row);
            i = i + 1;
        }
        proof {
            assert(crate::traits::mat_view(m@) =~= self.spec_matrix_for(locations@));
        }
        m
    }
}

/// Every entry the provider produces is below the solver's time bound.
pub proof fn lemma_manhattan_bounded(p: ManhattanMatrix, locations: Seq<(i64, i64)>)
    requires
        p.matrix_pre(locations),
    ensures
        forall|i: int, j: int|
            0 <= i < locations.len() && 0 <= j < locations.len()
                ==> #[trigger] p.spec_matrix_for(locations)[i][j] <= MAX_TIME,
{
    assert forall|i: int, j: int|
        0 <= i < locations.len() && 0 <= j < locations.len()
            implies #[trigger] p.spec_matrix_for(locations)[i][j] <= MAX_TIME by {
        let a = locations[i];
        let b = locations[j];
        assert(abs_diff(a.0 as int, b.0 as int) <= 2 * (MAX_COORD as int));
        assert(abs_diff(a.1 as int, b.1 as int) <= 2 * (MAX_COORD as int));
        assert(p.spec_matrix_for(locations)[i][j] == manhattan_seconds(a, b));
    }
}

} // verus!
