//! Road-network matrix service types: client configuration and the route
//! geometry records its answers are delivered in, plus the pure geometry
//! combinator that merges per-step polylines into one leg polyline. The
//! HTTP transport itself lives outside the verified core.

use vstd::prelude::*;
use vstd::string::StringExecFns;

use crate::polyline::{
    decode_polyline, encode_polyline, points_in_units, spec_decode, spec_encode, wf_polyline,
};

verus! {

/// Where and how to reach the road-network matrix service.
#[derive(Debug, Clone)]
pub struct OsrmConfig {
    pub base_url: String,
    pub profile: String,
    pub timeout_secs: u64,
}

impl Default for OsrmConfig {
    fn default() -> (r: Self)
        ensures
            r.base_url@ == "http://localhost:5000"@,
            r.profile@ == "car"@,
            r.timeout_secs == 10,
    {
        OsrmConfig {
            base_url: <String as StringExecFns>::from_str("http://localhost:5000"),
            profile: <String as StringExecFns>::from_str("car"),
            timeout_secs: 10,
        }
    }
}

/// Geometry for a single leg (segment between two consecutive waypoints).
#[derive(Debug, Clone)]
pub struct LegGeometry {
    /// Encoded polyline for this leg.
    pub encoded_polyline: String,
    /// Distance of this leg in meters.
    pub distance_meters: i32,
    /// Duration of this leg in seconds.
    pub duration_seconds: i32,
}

/// Route geometry response from the road-network service.
#[derive(Debug, Clone)]
pub struct RouteGeometry {
    /// Encoded polyline for the entire route.
    pub encoded_polyline: String,
    /// Total distance in meters.
    pub distance_meters: i32,
    /// Total duration in seconds.
    pub duration_seconds: i32,
    /// Per-leg breakdown (between consecutive waypoints).
    pub legs: Vec<LegGeometry>,
}

/// Error type for route requests.
#[derive(Debug)]
pub enum OsrmRouteError {
    /// HTTP request failed.
    RequestFailed(String),
    /// The service returned an error status.
    OsrmError(String),
    /// Failed to parse the response.
    ParseError(String),
    /// No route found between waypoints.
    NoRoute,
}

/// The points of a list of step polylines merged into one line: each
/// step's first point duplicates the previous step's last point and is
/// dropped, except at the very start.
pub open spec fn spec_combined(steps: Seq<String>) -> Seq<(i64, i64)>
    decreases steps.len(),
{
    if steps.len() == 0 {
        Seq::empty()
    } else {
        let pre = spec_combined(steps.drop_last());
        let pts = spec_decode(steps.last()@, 0, 0, 0);
        if pts.len() == 0 {
            pre
        } else if pre.len() == 0 {
            pre + pts
        } else {
            pre + pts.skip(1)
        }
    }
}

/// Combine step geometries into a single polyline: decode each step,
/// drop the duplicated joint points, and re-encode.
#[verifier::loop_isolation(false)]
pub fn combine_step_geometries(steps: &Vec<String>) -> (r: String)
    requires
        forall|k: int|
            0 <= k < steps@.len() ==> wf_polyline((#[trigger] steps@[k])@) && points_in_units(
                spec_decode(steps@[k]@, 0, 0, 0),
            ),
    ensures
        r@ == spec_encode(spec_combined(steps@), 0, 0, 0),
{
    let mut all_points: Vec<(i64, i64)> = Vec::new();
    let mut k: usize = 0;
    while k < steps.len()
        invariant
            k <= steps@.len(),
            all_points@ == spec_combined(steps@.take(k as int)),
            points_in_units(all_points@),
        decreases steps@.len() - k,
    {
        let ghost base = all_points@;
        let pts = decode_polyline(steps[k].as_str());
        if all_points.len() == 0 {
            let mut q: usize = 0;
            while q < pts.len()
                invariant
                    q <= pts@.len(),
                    all_points@ == base + pts@.take(q as int),
                    points_in_units(all_points@),
                decreases pts@.len() - q,
            {
                all_points.push(pts[q]);
                proof {
                    assert(base + pts@.take(q as int + 1) =~= (base + pts@.take(q as int)).push(
                        pts@[q as int],
                    ));
                }
                q = q + 1;
            }
            proof {
                assert(pts@.take(pts@.len() as int) =~= pts@);
            }
        } else {
            if pts.len() > 0 {
                let mut q: usize = 1;
                proof {
                    assert(pts@.subrange(1, 1) =~= Seq::<(i64, i64)>::empty());
                    assert(base + pts@.subrange(1, 1) =~= base);
                }
                while q < pts.len()
                    invariant
                        1 <= q <= pts@.len(),
                        all_points@ == base + pts@.subrange(1, q as int),
                        points_in_units(all_points@),
                    decreases pts@.len() - q,
                {
                    all_points.push(pts[q]);
                    proof {
                        assert(base + pts@.subrange(1, q as int + 1) =~= (base + pts@.subrange(
                            1,
                            q as int,
                        )).push(pts@[q as int]));
                    }
                    q = q + 1;
                }
                proof {
                    assert(pts@.subrange(1, pts@.len() as int) =~= pts@.skip(1));
                }
            }
        }
        proof {
            assert(steps@.take(k as int + 1).drop_last() =~= steps@.take(k as int));
            assert(steps@.take(k as int + 1).last() == steps@[k as int]);
            if spec_decode(steps@[k as int]@, 0, 0, 0).len() == 0 {
                assert(all_points@ =~= base);
            }
        }
        k = k + 1;
    }
    proof {
        assert(steps@.take(steps@.len() as int) =~= steps@);
    }
    encode_polyline(&all_points)
}

} // verus!
