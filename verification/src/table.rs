//! A distance matrix provider backed by a precomputed table. Outside
//! matrix sources (a road-network service, a great-circle fallback)
//! compute their durations elsewhere, round them to whole bounded
//! seconds, and hand the solver this table together with the canonical
//! location list it answers for.

use vstd::prelude::*;

use crate::traits::{mat_view, DistanceMatrixProvider};

verus! {

pub struct TableMatrix {
    /// The canonical coordinate keys the table answers for, in order.
    pub locations: Vec<(i64, i64)>,
    /// `entries[i][j]` is the travel duration from `locations[i]` to
    /// `locations[j]`, in seconds.
    pub entries: Vec<Vec<u32>>,
}

/// The table is square and matches its location list.
pub open spec fn table_wf(t: TableMatrix) -> bool {
    &&& t.entries@.len() == t.locations@.len()
    &&& forall|i: int|
        0 <= i < t.entries@.len() ==> (#[trigger] t.entries@[i])@.len() == t.locations@.len()
}

/// Copy one row of the table.
fn copy_row(v: &Vec<u32>) -> (r: Vec<u32>)
    ensures
        r@ == v@,
{
    let mut out: Vec<u32> = Vec::new();
    let mut i: usize = 0;
    while i < v.len()
        invariant
            i <= v@.len(),
            out@ == v@.take(i as int),
        decreases v@.len() - i,
    {
        out.push(v[i]);
        proof {
            assert(v@.take(i as int + 1) =~= v@.take(i as int).push(v@[i as int]));
        }
        i = i + 1;
    }
    proof {
        assert(v@.take(v@.len() as int) =~= v@);
    }
    out
}

impl DistanceMatrixProvider for TableMatrix {
    /// The table answers exactly for its own location list.
    open spec fn matrix_pre(&self, locations: Seq<(i64, i64)>) -> bool {
        locations == self.locations@ && table_wf(*self)
    }

    open spec fn spec_matrix_for(&self, locations: Seq<(i64, i64)>) -> Seq<Seq<u32>> {
        mat_view(self.entries@)
    }

    fn matrix_for(&self, locations: &Vec<(i64, i64)>) -> (m: Vec<Vec<u32>>) {
        let mut out: Vec<Vec<u32>> = Vec::new();
        let mut i: usize = 0;
        while i < self.entries.len()
            invariant
                i <= self.entries@.len(),
                table_wf(*self),
                out@.len() == i,
                forall|a: int| 0 <= a < i ==> (#[trigger] out@[a])@ == self.entries@[a]@,
            decreases self.entries@.len() - i,
        {
            let row = copy_row(&self.entries[i]);
            out.push(row);
            i = i + 1;
        }
        proof {
            assert(mat_view(out@) =~= mat_view(self.entries@));
            assert forall|a: int|
                0 <= a < out@.len() implies (#[trigger] out@[a])@.len() == locations@.len() by {
                assert(out@[a]@ == self.entries@[a]@);
            }
        }
        out
    }
}

} // verus!
