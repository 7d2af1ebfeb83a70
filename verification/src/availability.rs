//! A concrete availability provider backed by plain data: a default
//! segment list plus per-visitor overrides. The first override whose
//! visitor id matches wins; a visitor without an override gets the
//! default. An override of `None` marks the visitor unavailable.

use vstd::prelude::*;

use crate::traits::AvailabilityProvider;

verus! {

pub struct AvailabilityTable {
    /// Segments used for every visitor without an override; `None` means
    /// nobody is available by default.
    pub default_segments: Option<Vec<(u32, u32)>>,
    /// Per-visitor overrides, searched in order; the first match wins.
    pub overrides: Vec<(String, Option<Vec<(u32, u32)>>)>,
}

/// The segment list as its mathematical view.
pub open spec fn segs_view(o: Option<Vec<(u32, u32)>>) -> Option<Seq<(u32, u32)>> {
    match o {
        Some(v) => Some(v@),
        None => None,
    }
}

/// The first override for `id`, if any.
pub open spec fn spec_lookup(
    overrides: Seq<(String, Option<Vec<(u32, u32)>>)>,
    id: Seq<char>,
) -> Option<Option<Seq<(u32, u32)>>>
    decreases overrides.len(),
{
    if overrides.len() == 0 {
        None
    } else if overrides[0].0@ == id {
        Some(segs_view(overrides[0].1))
    } else {
        spec_lookup(overrides.skip(1), id)
    }
}

impl AvailabilityTable {
    /// A table where every visitor works a single 08:00-17:00 segment.
    pub fn new() -> (r: Self)
        ensures
            r.default_segments matches Some(d) && d@ == seq![(28800u32, 61200u32)],
            r.overrides@.len() == 0,
    {
        let mut d: Vec<(u32, u32)> = Vec::new();
        d.push((28800, 61200));
        assert(d@ =~= seq![(28800u32, 61200u32)]);
        AvailabilityTable { default_segments: Some(d), overrides: Vec::new() }
    }

    /// Replace the default availability with one `(start, end)` segment.
    pub fn default_window(self, start: u32, end: u32) -> (r: Self)
        ensures
            r.default_segments matches Some(d) && d@ == seq![(start, end)],
            r.overrides@ == self.overrides@,
    {
        let mut d: Vec<(u32, u32)> = Vec::new();
        d.push((start, end));
        assert(d@ =~= seq![(start, end)]);
        AvailabilityTable { default_segments: Some(d), overrides: self.overrides }
    }

    /// Replace the default availability with an ordered segment list.
    pub fn default_segment_list(self, segments: Vec<(u32, u32)>) -> (r: Self)
        ensures
            r.default_segments matches Some(d) && d@ == segments@,
            r.overrides@ == self.overrides@,
    {
        AvailabilityTable { default_segments: Some(segments), overrides: self.overrides }
    }

    /// Mark one visitor unavailable for the day.
    pub fn visitor_unavailable(self, visitor_id: String) -> (r: Self)
        ensures
            r.default_segments == self.default_segments,
            r.overrides@.len() == self.overrides@.len() + 1,
            r.overrides@.last().0@ == visitor_id@,
            r.overrides@.last().1 is None,
            r.overrides@.drop_last() == self.overrides@,
    {
        let mut overrides = self.overrides;
        overrides.push((visitor_id, None));
        AvailabilityTable { default_segments: self.default_segments, overrides }
    }

    /// Give one visitor a single `(start, end)` working segment.
    pub fn visitor_window(self, visitor_id: String, start: u32, end: u32) -> (r: Self)
        ensures
            r.default_segments == self.default_segments,
            r.overrides@.len() == self.overrides@.len() + 1,
            r.overrides@.last().0@ == visitor_id@,
            r.overrides@.last().1 matches Some(d) && d@ == seq![(start, end)],
            r.overrides@.drop_last() == self.overrides@,
    {
        let mut d: Vec<(u32, u32)> = Vec::new();
        d.push((start, end));
        assert(d@ =~= seq![(start, end)]);
        let mut overrides = self.overrides;
        overrides.push((visitor_id, Some(d)));
        AvailabilityTable { default_segments: self.default_segments, overrides }
    }

    /// Give one visitor an ordered list of working segments.
    pub fn visitor_segment_list(self, visitor_id: String, segments: Vec<(u32, u32)>) -> (r: Self)
        ensures
            r.default_segments == self.default_segments,
            r.overrides@.len() == self.overrides@.len() + 1,
            r.overrides@.last().0@ == visitor_id@,
            r.overrides@.last().1 matches Some(d) && d@ == segments@,
            r.overrides@.drop_last() == self.overrides@,
    {
        let mut overrides = self.overrides;
        overrides.push((visitor_id, Some(segments)));
        AvailabilityTable { default_segments: self.default_segments, overrides }
    }
}

/// Copy a segment list.
fn copy_segments(v: &Vec<(u32, u32)>) -> (r: Vec<(u32, u32)>)
    ensures
        r@ == v@,
{
    let mut out: Vec<(u32, u32)> = Vec::new();
    let mut i: usize = 0;
    while i < v.len()
        invariant
            i <= v@.len(),
            out@ == v@.take(i as int),
        decreases v@.len() - i,
    {
        out.push(v[i]);
        proof {
            assert(v@.take(i as int + 1) =~= v@.take(i as int).push(v@[i as int]));
        }
        i = i + 1;
    }
    proof {
        assert(v@.take(v@.len() as int) =~= v@);
    }
    out
}

impl AvailabilityProvider for AvailabilityTable {
    open spec fn spec_availability(&self, visitor_id: Seq<char>, date: int) -> Option<
        Seq<(u32, u32)>,
    > {
        match spec_lookup(self.overrides@, visitor_id) {
            Some(o) => o,
            None => segs_view(self.default_segments),
        }
    }

    fn availability_for(&self, visitor_id: &String, date: i64) -> (r: Option<Vec<(u32, u32)>>) {
        let mut i: usize = 0;
        proof {
            assert(self.overrides@.skip(0) =~= self.overrides@);
        }
        while i < self.overrides.len()
            invariant
                i <= self.overrides@.len(),
                spec_lookup(self.overrides@, visitor_id@) == spec_lookup(
                    self.overrides@.skip(i as int),
                    visitor_id@,
                ),
            decreases self.overrides@.len() - i,
        {
            proof {
                assert(self.overrides@.skip(i as int)[0] == self.overrides@[i as int]);
                assert(self.overrides@.skip(i as int).skip(1) =~= self.overrides@.skip(
                    i as int + 1,
                ));
            }
            if self.overrides[i].0 == *visitor_id {
                match &self.overrides[i].1 {
                    Some(v) => {
                        return Some(copy_segments(v));
                    },
                    None => {
                        return None;
                    },
                }
            }
            i = i + 1;
        }
        proof {
            assert(self.overrides@.skip(self.overrides@.len() as int) =~= Seq::empty());
        }
        match &self.default_segments {
            Some(v) => Some(copy_segments(v)),
            None => None,
        }
    }
}

} // verus!
