//! Geo primitives: canonical integer coordinate keys and stable
//! deduplication of the coordinate list a solve works with.
//!
//! A coordinate key is `(round(lat * 10^6), round(lng * 10^6))` as a pair
//! of signed integers; two coordinates are the same location exactly when
//! their keys are equal. The solver collects every key it will ever look
//! up (visitor start and end locations, then every visit location),
//! deduplicated in first-occurrence order.

use vstd::prelude::*;

use crate::traits::{Visit, Visitor};

verus! {

/// Deduplication keeping the first occurrence of each key, in order.
pub open spec fn spec_dedupe(locs: Seq<(i64, i64)>) -> Seq<(i64, i64)>
    decreases locs.len(),
{
    if locs.len() == 0 {
        Seq::empty()
    } else {
        let pre = spec_dedupe(locs.drop_last());
        if pre.contains(locs.last()) {
            pre
        } else {
            pre.push(locs.last())
        }
    }
}

/// The start and end locations of the visitors, in input order.
pub open spec fn spec_visitor_locs(visitors: Seq<Visitor>) -> Seq<(i64, i64)>
    decreases visitors.len(),
{
    if visitors.len() == 0 {
        Seq::empty()
    } else {
        let head = spec_visitor_locs(visitors.drop_last());
        let v = visitors.last();
        let with_start = match v.start_location {
            Some(l) => head.push(l),
            None => head,
        };
        match v.end_location {
            Some(l) => with_start.push(l),
            None => with_start,
        }
    }
}

/// The location of each visit, in input order.
pub open spec fn spec_visit_locs(visits: Seq<Visit>) -> Seq<(i64, i64)> {
    visits.map_values(|v: Visit| v.location)
}

/// Every coordinate key a solve will look up, deduplicated and in a
/// stable order: visitor locations first, then visit locations.
pub open spec fn spec_locations(visits: Seq<Visit>, visitors: Seq<Visitor>) -> Seq<(i64, i64)> {
    spec_dedupe(spec_visitor_locs(visitors) + spec_visit_locs(visits))
}

/// No key occurs twice.
pub open spec fn unique_locs(locs: Seq<(i64, i64)>) -> bool {
    forall|i: int, j: int| 0 <= i < j < locs.len() ==> #[trigger] locs[i] != #[trigger] locs[j]
}

/// Deduplication keeps exactly the keys of its input, each once.
pub proof fn lemma_dedupe_props(locs: Seq<(i64, i64)>)
    ensures
        unique_locs(spec_dedupe(locs)),
        forall|x: (i64, i64)| spec_dedupe(locs).contains(x) <==> locs.contains(x),
    decreases locs.len(),
{
    if locs.len() == 0 {
        assert forall|x: (i64, i64)| spec_dedupe(locs).contains(x) <==> locs.contains(x) by {
            if locs.contains(x) {
                let i = choose|i: int| 0 <= i < locs.len() && locs[i] == x;
                assert(false);
            }
        }
    } else {
        lemma_dedupe_props(locs.drop_last());
        let pre = spec_dedupe(locs.drop_last());
        let out = spec_dedupe(locs);
        assert forall|x: (i64, i64)| out.contains(x) <==> locs.contains(x) by {
            if out.contains(x) {
                if pre.contains(x) {
                    assert(locs.drop_last().contains(x));
                    let i = choose|i: int|
                        0 <= i < locs.drop_last().len() && locs.drop_last()[i] == x;
                    assert(locs[i] == x);
                } else {
                    assert(x == locs.last());
                    assert(locs[locs.len() - 1] == x);
                }
            }
            if locs.contains(x) {
                let i = choose|i: int| 0 <= i < locs.len() && locs[i] == x;
                if i < locs.len() - 1 {
                    assert(locs.drop_last()[i] == x);
                    assert(locs.drop_last().contains(x));
                    assert(pre.contains(x));
                    if !pre.contains(locs.last()) {
                        let j = choose|j: int| 0 <= j < pre.len() && pre[j] == x;
                        assert(out[j] == x);
                    }
                } else {
                    if pre.contains(locs.last()) {
                    } else {
                        assert(out.last() == x);
                    }
                }
            }
        }
        assert forall|i: int, j: int| 0 <= i < j < out.len() implies #[trigger] out[i]
            != #[trigger] out[j] by {
            if j < pre.len() {
            } else {
                assert(out[j] == locs.last());
                assert(pre.contains(out[i]) || (i < pre.len() && out[i] == pre[i]));
                assert(!pre.contains(locs.last()));
            }
        }
    }
}

/// Whether the list already holds this key.
pub fn contains_loc(locs: &Vec<(i64, i64)>, x: (i64, i64)) -> (r: bool)
    ensures
        r == locs@.contains(x),
{
    let mut i: usize = 0;
    while i < locs.len()
        invariant
            i <= locs@.len(),
            forall|j: int| 0 <= j < i ==> #[trigger] locs@[j] != x,
        decreases locs@.len() - i,
    {
        let c = locs[i];
        if c.0 == x.0 && c.1 == x.1 {
            assert(locs@[i as int] == x);
            return true;
        }
        i = i + 1;
    }
    false
}

/// The position of a key in the list; the list must hold it.
pub fn index_of_loc(locs: &Vec<(i64, i64)>, x: (i64, i64)) -> (r: usize)
    requires
        locs@.contains(x),
    ensures
        r < locs@.len(),
        locs@[r as int] == x,
{
    let mut i: usize = 0;
    while i < locs.len()
        invariant
            i <= locs@.len(),
            forall|j: int| 0 <= j < i ==> #[trigger] locs@[j] != x,
        decreases locs@.len() - i,
    {
        let c = locs[i];
        if c.0 == x.0 && c.1 == x.1 {
            assert(locs@[i as int] == x);
            return i;
        }
        i = i + 1;
    }
    proof {
        let j = choose|j: int| 0 <= j < locs@.len() && locs@[j] == x;
        assert(false);
    }
    0
}

/// Drop every key already seen earlier in the list, keeping first
/// occurrences in order.
pub fn dedupe_locations(locations: Vec<(i64, i64)>) -> (r: Vec<(i64, i64)>)
    ensures
        r@ == spec_dedupe(locations@),
        unique_locs(r@),
        forall|x: (i64, i64)| r@.contains(x) <==> locations@.contains(x),
{
    let mut unique: Vec<(i64, i64)> = Vec::new();
    let mut i: usize = 0;
    while i < locations.len()
        invariant
            i <= locations@.len(),
            unique@ == spec_dedupe(locations@.take(i as int)),
        decreases locations@.len() - i,
    {
        let x = locations[i];
        proof {
            assert(locations@.take(i as int + 1).drop_last() =~= locations@.take(i as int));
            assert(locations@.take(i as int + 1).last() == x);
        }
        if !contains_loc(&unique, x) {
            unique.push(x);
        }
        i = i + 1;
    }
    proof {
        assert(locations@.take(locations@.len() as int) =~= locations@);
        lemma_dedupe_props(locations@);
    }
    unique
}

/// Collect every location a solve can look up: visitor start and end
/// locations in input order, then each visit's location, deduplicated.
pub fn collect_locations(visits: &Vec<Visit>, visitors: &Vec<Visitor>) -> (r: Vec<(i64, i64)>)
    ensures
        r@ == spec_locations(visits@, visitors@),
        unique_locs(r@),
        forall|i: int|
            0 <= i < visits@.len() ==> r@.contains(#[trigger] visits@[i].location),
        forall|i: int|
            0 <= i < visitors@.len() ==> (match (#[trigger] visitors@[i]).start_location {
                Some(l) => r@.contains(l),
                None => true,
            }) && (match visitors@[i].end_location {
                Some(l) => r@.contains(l),
                None => true,
            }),
{
    let mut raw: Vec<(i64, i64)> = Vec::new();
    let mut i: usize = 0;
    while i < visitors.len()
        invariant
            i <= visitors@.len(),
            raw@ == spec_visitor_locs(visitors@.take(i as int)),
        decreases visitors@.len() - i,
    {
        proof {
            assert(visitors@.take(i as int + 1).drop_last() =~= visitors@.take(i as int));
            assert(visitors@.take(i as int + 1).last() == visitors@[i as int]);
        }
        match visitors[i].start_location {
            Some(l) => raw.push(l),
            None => {},
        }
        match visitors[i].end_location {
            Some(l) => raw.push(l),
            None => {},
        }
        i = i + 1;
    }
    proof {
        assert(visitors@.take(visitors@.len() as int) =~= visitors@);
    }
    let mut j: usize = 0;
    while j < visits.len()
        invariant
            j <= visits@.len(),
            raw@ == spec_visitor_locs(visitors@) + spec_visit_locs(visits@.take(j as int)),
        decreases visits@.len() - j,
    {
        proof {
            assert(spec_visit_locs(visits@.take(j as int + 1)) =~= spec_visit_locs(
                visits@.take(j as int),
            ).push(visits@[j as int].location));
            assert((spec_visitor_locs(visitors@) + spec_visit_locs(visits@.take(j as int))).push(
                visits@[j as int].location,
            ) =~= spec_visitor_locs(visitors@) + spec_visit_locs(visits@.take(j as int + 1)));
        }
        raw.push(visits[j].location);
        j = j + 1;
    }
    proof {
        assert(visits@.take(visits@.len() as int) =~= visits@);
    }
    let ghost all = raw@;
    let out = dedupe_locations(raw);
    proof {
        assert forall|i2: int|
            0 <= i2 < visits@.len() implies out@.contains(#[trigger] visits@[i2].location) by {
            assert(spec_visit_locs(visits@)[i2] == visits@[i2].location);
            assert(all[spec_visitor_locs(visitors@).len() + i2] == visits@[i2].location);
            assert(all.contains(visits@[i2].location));
        }
        assert forall|i2: int|
            0 <= i2 < visitors@.len() implies (match (#[trigger] visitors@[i2]).start_location {
            Some(l) => out@.contains(l),
            None => true,
        }) && (match visitors@[i2].end_location {
            Some(l) => out@.contains(l),
            None => true,
        }) by {
            lemma_visitor_locs_contains(visitors@, i2);
            match visitors@[i2].start_location {
                Some(l) => {
                    assert(all.contains(l)) by {
                        let j2 = choose|j2: int|
                            0 <= j2 < spec_visitor_locs(visitors@).len() && spec_visitor_locs(
                                visitors@,
                            )[j2] == l;
                        assert(all[j2] == l);
                    }
                },
                None => {},
            }
            match visitors@[i2].end_location {
                Some(l) => {
                    assert(all.contains(l)) by {
                        let j2 = choose|j2: int|
                            0 <= j2 < spec_visitor_locs(visitors@).len() && spec_visitor_locs(
                                visitors@,
                            )[j2] == l;
                        assert(all[j2] == l);
                    }
                },
                None => {},
            }
        }
    }
    out
}

/// Each visitor's start and end location occur among the collected
/// visitor locations.
pub proof fn lemma_visitor_locs_contains(visitors: Seq<Visitor>, i: int)
    requires
        0 <= i < visitors.len(),
    ensures
        (match visitors[i].start_location {
            Some(l) => spec_visitor_locs(visitors).contains(l),
            None => true,
        }),
        (match visitors[i].end_location {
            Some(l) => spec_visitor_locs(visitors).contains(l),
            None => true,
        }),
    decreases visitors.len(),
{
    if i == visitors.len() - 1 {
        let head = spec_visitor_locs(visitors.drop_last());
        let v = visitors.last();
        match v.start_location {
            Some(l) => {
                match v.end_location {
                    Some(l2) => {
                        assert(spec_visitor_locs(visitors)[head.len() as int] == l);
                        assert(spec_visitor_locs(visitors).last() == l2);
                    },
                    None => {
                        assert(spec_visitor_locs(visitors).last() == l);
                    },
                }
            },
            None => {
                match v.end_location {
                    Some(l2) => {
                        assert(spec_visitor_locs(visitors).last() == l2);
                    },
                    None => {},
                }
            },
        }
    } else {
        lemma_visitor_locs_contains(visitors.drop_last(), i);
        assert(visitors.drop_last()[i] == visitors[i]);
        let head = spec_visitor_locs(visitors.drop_last());
        assert forall|x: (i64, i64)| head.contains(x) implies spec_visitor_locs(
            visitors,
        ).contains(x) by {
            let j = choose|j: int| 0 <= j < head.len() && head[j] == x;
            assert(spec_visitor_locs(visitors)[j] == x);
        }
    }
}

} // verus!
