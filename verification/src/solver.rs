//! Routing planner solver: greedy cheapest-insertion construction followed
//! by a 2-opt / relocate local-search improvement loop.

use vstd::prelude::*;

use crate::traits::{AvailabilityProvider, DistanceMatrixProvider, UnassignedReason, Visit, VisitPinType, Visitor};
use crate::schedule::{
    avail_bounded, options_wf, route_windows_wf, spec_schedule, useq, visit_wf, wins,
};
use crate::MAX_TIME;

verus! {

/// Tunable weights and bounds for a solve.
#[derive(Debug, Clone)]
pub struct SolveOptions {
    /// Weight for target time deviation penalty (per second).
    pub target_time_weight: u32,
    /// Flat penalty for assigning a visit to a visitor other than its
    /// current one (stability penalty).
    pub reassignment_penalty: u32,
    /// Maximum passes of the local-search improvement loop.
    pub local_search_iterations: usize,
}

impl Default for SolveOptions {
    fn default() -> (r: Self)
        ensures
            r.target_time_weight == 1,
            r.reassignment_penalty == 300,
            r.local_search_iterations == 100,
    {
        Self {
            target_time_weight: 1,
            reassignment_penalty: 300,
            local_search_iterations: 100,
        }
    }
}

/// One visitor's planned day: the visit ids in service order, the scheduled
/// window of each, and the route's composite cost.
#[derive(Debug, Clone)]
pub struct RouteResult {
    pub visitor_id: String,
    pub visit_ids: Vec<String>,
    pub estimated_windows: Vec<(u32, u32)>,
    pub total_travel_time: u64,
}

/// A visit the solver could not place, with the single reason why.
#[derive(Debug, Clone)]
pub struct UnassignedVisit {
    pub visit_id: String,
    pub reason: UnassignedReason,
}

/// The complete outcome of a solve: one route per input visitor (possibly
/// empty) and the diagnostics for every unplaced visit.
#[derive(Debug, Clone)]
pub struct PlannerResult {
    pub routes: Vec<RouteResult>,
    pub unassigned: Vec<UnassignedVisit>,
}

/// One visitor's working state during a solve: the visitor (by input
/// index), the assigned visit indices in service order, their scheduled
/// windows, and the route's composite cost.
#[derive(Debug)]
pub struct RouteState {
    pub visitor_index: usize,
    pub visits: Vec<usize>,
    pub estimated_windows: Vec<(u32, u32)>,
    pub total_travel_time: u64,
}

// ------------------------------------------------------------------
// Classification and capability predicates
// ------------------------------------------------------------------

/// The visit is pinned to a specific visitor.
pub open spec fn spec_visitor_pinned(v: Visit) -> bool {
    v.pin_type == VisitPinType::Visitor || v.pin_type == VisitPinType::VisitorAndDate
}

/// The visit carries a pinned date different from the service date.
pub open spec fn spec_wrong_date(v: Visit, date: int) -> bool {
    match v.pinned_date {
        Some(d) => d != date,
        None => false,
    }
}

/// Pinned to a visitor, on the right date, but the pinned visitor field
/// is absent.
pub open spec fn spec_missing_pin(v: Visit, date: int) -> bool {
    !spec_wrong_date(v, date) && spec_visitor_pinned(v) && v.pinned_visitor is None
}

/// Right date, pinned to a named visitor.
pub open spec fn spec_pinned_class(v: Visit, date: int) -> bool {
    !spec_wrong_date(v, date) && spec_visitor_pinned(v) && v.pinned_visitor is Some
}

/// Right date and free to be placed anywhere: not visitor-pinned.
pub open spec fn spec_free_class(v: Visit, date: int) -> bool {
    !spec_wrong_date(v, date) && !spec_visitor_pinned(v)
}

/// Whether some capability tag in the list equals `tag`.
pub open spec fn spec_has_tag(caps: Seq<String>, tag: Seq<char>) -> bool {
    exists|d: int| 0 <= d < caps.len() && (#[trigger] caps[d])@ == tag
}

/// The visitor holds every capability the visit requires (superset
/// match; an empty requirement set matches every visitor).
pub open spec fn spec_capable(r: Visitor, v: Visit) -> bool {
    forall|c: int|
        0 <= c < v.required_capabilities@.len() ==> spec_has_tag(
            r.capabilities@,
            (#[trigger] v.required_capabilities@[c])@,
        )
}

/// Some visitor in the fleet is capable of the visit.
pub open spec fn spec_any_capable(visitors: Seq<Visitor>, v: Visit) -> bool {
    exists|k: int| 0 <= k < visitors.len() && spec_capable(#[trigger] visitors[k], v)
}

/// Some capable visitor also has availability for the date.
pub open spec fn spec_any_capable_available<A: AvailabilityProvider>(
    a: &A,
    visitors: Seq<Visitor>,
    v: Visit,
    date: int,
) -> bool {
    exists|k: int|
        0 <= k < visitors.len() && spec_capable(#[trigger] visitors[k], v) && a.spec_availability(
            visitors[k].id@,
            date,
        ) is Some
}

// ------------------------------------------------------------------
// Counting visits across routes and the unassigned list
// ------------------------------------------------------------------

/// How many times visit index `x` occurs in a visit sequence.
pub open spec fn idx_count(s: Seq<usize>, x: int) -> int
    decreases s.len(),
{
    if s.len() == 0 {
        0
    } else {
        idx_count(s.drop_last(), x) + if s.last() as int == x {
            1int
        } else {
            0int
        }
    }
}

/// How many times visit index `x` occurs across all routes.
pub open spec fn routes_count(routes: Seq<RouteState>, x: int) -> int
    decreases routes.len(),
{
    if routes.len() == 0 {
        0
    } else {
        routes_count(routes.drop_last(), x) + idx_count(routes.last().visits@, x)
    }
}

/// How many unassigned entries name visit index `x`.
pub open spec fn un_count(un: Seq<(usize, UnassignedReason)>, x: int) -> int
    decreases un.len(),
{
    if un.len() == 0 {
        0
    } else {
        un_count(un.drop_last(), x) + if un.last().0 as int == x {
            1int
        } else {
            0int
        }
    }
}

pub proof fn lemma_idx_count_nonneg(s: Seq<usize>, x: int)
    ensures
        idx_count(s, x) >= 0,
    decreases s.len(),
{
    if s.len() > 0 {
        lemma_idx_count_nonneg(s.drop_last(), x);
    }
}

pub proof fn lemma_idx_count_push(s: Seq<usize>, v: usize, x: int)
    ensures
        idx_count(s.push(v), x) == idx_count(s, x) + if v as int == x {
            1int
        } else {
            0int
        },
{
    assert(s.push(v).drop_last() =~= s);
}

pub proof fn lemma_idx_count_insert(s: Seq<usize>, pos: int, v: usize, x: int)
    requires
        0 <= pos <= s.len(),
    ensures
        idx_count(s.insert(pos, v), x) == idx_count(s, x) + if v as int == x {
            1int
        } else {
            0int
        },
    decreases s.len(),
{
    if pos == s.len() {
        assert(s.insert(pos, v) =~= s.push(v));
        lemma_idx_count_push(s, v, x);
    } else {
        assert(s.insert(pos, v).drop_last() =~= s.drop_last().insert(pos, v));
        assert(s.insert(pos, v).last() == s.last());
        lemma_idx_count_insert(s.drop_last(), pos, v, x);
    }
}

pub proof fn lemma_idx_count_remove(s: Seq<usize>, pos: int, x: int)
    requires
        0 <= pos < s.len(),
    ensures
        idx_count(s.remove(pos), x) == idx_count(s, x) - if s[pos] as int == x {
            1int
        } else {
            0int
        },
    decreases s.len(),
{
    if pos == s.len() - 1 {
        assert(s.remove(pos) =~= s.drop_last());
    } else {
        assert(s.remove(pos).drop_last() =~= s.drop_last().remove(pos));
        assert(s.remove(pos).last() == s.last());
        lemma_idx_count_remove(s.drop_last(), pos, x);
    }
}

pub proof fn lemma_idx_count_concat(a: Seq<usize>, b: Seq<usize>, x: int)
    ensures
        idx_count(a + b, x) == idx_count(a, x) + idx_count(b, x),
    decreases b.len(),
{
    if b.len() == 0 {
        assert(a + b =~= a);
    } else {
        assert((a + b).drop_last() =~= a + b.drop_last());
        assert((a + b).last() == b.last());
        lemma_idx_count_concat(a, b.drop_last(), x);
    }
}

pub proof fn lemma_routes_count_push(routes: Seq<RouteState>, r: RouteState, x: int)
    ensures
        routes_count(routes.push(r), x) == routes_count(routes, x) + idx_count(r.visits@, x),
{
    assert(routes.push(r).drop_last() =~= routes);
}

pub proof fn lemma_routes_count_update(routes: Seq<RouteState>, k: int, r2: RouteState, x: int)
    requires
        0 <= k < routes.len(),
    ensures
        routes_count(routes.update(k, r2), x) == routes_count(routes, x) - idx_count(
            routes[k].visits@,
            x,
        ) + idx_count(r2.visits@, x),
    decreases routes.len(),
{
    if k == routes.len() - 1 {
        assert(routes.update(k, r2).drop_last() =~= routes.drop_last());
        assert(routes.update(k, r2).last() == r2);
    } else {
        assert(routes.update(k, r2).drop_last() =~= routes.drop_last().update(k, r2));
        assert(routes.update(k, r2).last() == routes.last());
        assert(routes.drop_last()[k] == routes[k]);
        lemma_routes_count_update(routes.drop_last(), k, r2, x);
    }
}

pub proof fn lemma_routes_count_nonneg(routes: Seq<RouteState>, x: int)
    ensures
        routes_count(routes, x) >= 0,
    decreases routes.len(),
{
    if routes.len() > 0 {
        lemma_routes_count_nonneg(routes.drop_last(), x);
        lemma_idx_count_nonneg(routes.last().visits@, x);
    }
}

pub proof fn lemma_un_count_push(un: Seq<(usize, UnassignedReason)>, e: (usize, UnassignedReason), x: int)
    ensures
        un_count(un.push(e), x) == un_count(un, x) + if e.0 as int == x {
            1int
        } else {
            0int
        },
{
    assert(un.push(e).drop_last() =~= un);
}

pub proof fn lemma_un_count_nonneg(un: Seq<(usize, UnassignedReason)>, x: int)
    ensures
        un_count(un, x) >= 0,
    decreases un.len(),
{
    if un.len() > 0 {
        lemma_un_count_nonneg(un.drop_last(), x);
    }
}

// ------------------------------------------------------------------
// The solving context and route invariant
// ------------------------------------------------------------------

/// The fixed data a solve works against, as one ghost value: inputs,
/// per-visit matrix rows, per-visitor optional matrix rows, the duration
/// matrix and the cost weights.
pub struct SolveCtx {
    pub visits: Seq<Visit>,
    pub visitors: Seq<Visitor>,
    pub date: int,
    pub rows: Seq<int>,
    pub vrows: Seq<Option<int>>,
    pub mat: Seq<Seq<u32>>,
    pub target_weight: int,
    pub reassignment_penalty: int,
}

/// Well-formedness of the solving context: square bounded matrix, valid
/// row indices, bounded weights, well-formed visits, distinct visitor
/// ids, and bounded availability for every visitor.
pub open spec fn ctx_ok<A: AvailabilityProvider>(a: &A, ctx: SolveCtx) -> bool {
    &&& ctx.rows.len() == ctx.visits.len()
    &&& ctx.vrows.len() == ctx.visitors.len()
    &&& forall|i: int| 0 <= i < ctx.rows.len() ==> 0 <= #[trigger] ctx.rows[i] < ctx.mat.len()
    &&& forall|k: int|
        0 <= k < ctx.vrows.len() ==> (match #[trigger] ctx.vrows[k] {
            Some(vr) => 0 <= vr < ctx.mat.len(),
            None => true,
        })
    &&& forall|i: int| 0 <= i < ctx.mat.len() ==> (#[trigger] ctx.mat[i]).len() == ctx.mat.len()
    &&& forall|i: int, j: int|
        0 <= i < ctx.mat.len() && 0 <= j < ctx.mat.len() ==> #[trigger] ctx.mat[i][j] <= MAX_TIME
    &&& 0 <= ctx.target_weight <= MAX_TIME
    &&& 0 <= ctx.reassignment_penalty <= MAX_TIME
    &&& forall|i: int| 0 <= i < ctx.visits.len() ==> visit_wf(#[trigger] ctx.visits[i])
    &&& forall|k1: int, k2: int|
        0 <= k1 < k2 < ctx.visitors.len() ==> (#[trigger] ctx.visitors[k1]).id@ != (
        #[trigger] ctx.visitors[k2]).id@
    &&& forall|k: int|
        0 <= k < ctx.visitors.len() ==> avail_bounded(
            a.spec_availability((#[trigger] ctx.visitors[k]).id@, ctx.date),
        )
}

/// The route's windows and cost are exactly what the scheduler computes
/// for its visit sequence.
pub open spec fn route_scheduled<A: AvailabilityProvider>(
    a: &A,
    ctx: SolveCtx,
    route: RouteState,
) -> bool {
    spec_schedule(
        a.spec_availability(ctx.visitors[route.visitor_index as int].id@, ctx.date),
        ctx.visitors[route.visitor_index as int].id@,
        ctx.vrows[route.visitor_index as int],
        useq(route.visits@),
        ctx.visits,
        ctx.rows,
        ctx.mat,
        ctx.target_weight,
        ctx.reassignment_penalty,
    ) == Some((wins(route.estimated_windows@), route.total_travel_time as int))
}

/// The invariant each route keeps from seeding through the local search:
/// valid indices; an empty route is idle with zero cost; a non-empty
/// route holds exactly its scheduled windows and cost, and those windows
/// satisfy every route invariant; every visit on the route is on the
/// right date, and is either pinned to this very visitor or within the
/// visitor's capabilities.
pub open spec fn route_ok<A: AvailabilityProvider>(a: &A, ctx: SolveCtx, route: RouteState) -> bool {
    &&& route.visitor_index < ctx.visitors.len()
    &&& forall|j: int|
        0 <= j < route.visits@.len() ==> (#[trigger] route.visits@[j]) < ctx.visits.len()
    &&& route.estimated_windows@.len() == route.visits@.len()
    &&& route.visits@.len() <= MAX_TIME
    &&& route.total_travel_time as int <= crate::schedule::cost_cap()
    &&& (route.visits@.len() == 0 ==> route.total_travel_time == 0)
    &&& (route.visits@.len() > 0 ==> route_scheduled(a, ctx, route))
    &&& (route.visits@.len() > 0 ==> (match a.spec_availability(
        ctx.visitors[route.visitor_index as int].id@,
        ctx.date,
    ) {
        Some(segs) => route_windows_wf(
            ctx.visits,
            segs,
            useq(route.visits@),
            wins(route.estimated_windows@),
        ),
        None => false,
    }))
    &&& forall|j: int|
        0 <= j < route.visits@.len() ==> !spec_wrong_date(
            ctx.visits[#[trigger] route.visits@[j] as int],
            ctx.date,
        )
    &&& forall|j: int|
        0 <= j < route.visits@.len() ==> (spec_visitor_pinned(
            ctx.visits[#[trigger] route.visits@[j] as int],
        ) ==> (match ctx.visits[route.visits@[j] as int].pinned_visitor {
            Some(pv) => pv@ == ctx.visitors[route.visitor_index as int].id@,
            None => false,
        }))
    &&& forall|j: int|
        0 <= j < route.visits@.len() ==> (!spec_visitor_pinned(
            ctx.visits[#[trigger] route.visits@[j] as int],
        ) ==> spec_capable(
            ctx.visitors[route.visitor_index as int],
            ctx.visits[route.visits@[j] as int],
        ))
}

/// Per-visitor optional matrix rows as mathematical integers.
pub open spec fn ovseq(s: Seq<Option<usize>>) -> Seq<Option<int>> {
    s.map_values(
        |o: Option<usize>|
            match o {
                Some(u) => Some(u as int),
                None => None,
            },
    )
}

/// The solving context assembled from the executable values.
pub open spec fn mk_ctx(
    visits: Seq<Visit>,
    visitors: Seq<Visitor>,
    date: int,
    rows: Seq<usize>,
    vrows: Seq<Option<usize>>,
    mat: Seq<Vec<u32>>,
    options: SolveOptions,
) -> SolveCtx {
    SolveCtx {
        visits,
        visitors,
        date,
        rows: useq(rows),
        vrows: ovseq(vrows),
        mat: crate::traits::mat_view(mat),
        target_weight: options.target_time_weight as int,
        reassignment_penalty: options.reassignment_penalty as int,
    }
}

/// The visit is pinned, on the right date, to exactly this visitor id.
pub open spec fn spec_pinned_to(v: Visit, date: int, id: Seq<char>) -> bool {
    spec_pinned_class(v, date) && (match v.pinned_visitor {
        Some(pv) => pv@ == id,
        None => false,
    })
}

/// The visit indices among the first `n` visits pinned to this visitor
/// id, in input order.
pub open spec fn spec_pinned_prefix(visits: Seq<Visit>, date: int, id: Seq<char>, n: int) -> Seq<
    int,
>
    decreases n,
{
    if n <= 0 {
        Seq::empty()
    } else {
        let pre = spec_pinned_prefix(visits, date, id, n - 1);
        if spec_pinned_to(visits[n - 1], date, id) {
            pre.push(n - 1)
        } else {
            pre
        }
    }
}

/// All visit indices pinned to this visitor id, in input order: the
/// sequence a visitor's route is seeded with.
pub open spec fn spec_pinned_indices(visits: Seq<Visit>, date: int, id: Seq<char>) -> Seq<int> {
    spec_pinned_prefix(visits, date, id, visits.len() as int)
}

/// The visit indices among the first `n` visits that are free (right
/// date, not visitor-pinned), in input order.
pub open spec fn spec_free_prefix(visits: Seq<Visit>, date: int, n: int) -> Seq<int>
    decreases n,
{
    if n <= 0 {
        Seq::empty()
    } else {
        let pre = spec_free_prefix(visits, date, n - 1);
        if spec_free_class(visits[n - 1], date) {
            pre.push(n - 1)
        } else {
            pre
        }
    }
}

/// All free visit indices in input order: the list the insertion phase
/// works through.
pub open spec fn spec_free_indices(visits: Seq<Visit>, date: int) -> Seq<int> {
    spec_free_prefix(visits, date, visits.len() as int)
}

/// Whether the seed schedule of the visits pinned to visitor `k`, in
/// input order, is feasible.
pub open spec fn seed_feasible<A: AvailabilityProvider>(a: &A, ctx: SolveCtx, k: int) -> bool {
    spec_schedule(
        a.spec_availability(ctx.visitors[k].id@, ctx.date),
        ctx.visitors[k].id@,
        ctx.vrows[k],
        spec_pinned_indices(ctx.visits, ctx.date, ctx.visitors[k].id@),
        ctx.visits,
        ctx.rows,
        ctx.mat,
        ctx.target_weight,
        ctx.reassignment_penalty,
    ) is Some
}

/// The sum of all routes' composite costs: the scalar the local search
/// strictly decreases.
pub open spec fn sum_costs(routes: Seq<RouteState>) -> int
    decreases routes.len(),
{
    if routes.len() == 0 {
        0
    } else {
        sum_costs(routes.drop_last()) + routes.last().total_travel_time as int
    }
}

pub proof fn lemma_sum_costs_update(routes: Seq<RouteState>, k: int, r2: RouteState)
    requires
        0 <= k < routes.len(),
    ensures
        sum_costs(routes.update(k, r2)) == sum_costs(routes) - routes[k].total_travel_time as int
            + r2.total_travel_time as int,
    decreases routes.len(),
{
    if k == routes.len() - 1 {
        assert(routes.update(k, r2).drop_last() =~= routes.drop_last());
        assert(routes.update(k, r2).last() == r2);
    } else {
        assert(routes.update(k, r2).drop_last() =~= routes.drop_last().update(k, r2));
        assert(routes.update(k, r2).last() == routes.last());
        assert(routes.drop_last()[k] == routes[k]);
        lemma_sum_costs_update(routes.drop_last(), k, r2);
    }
}

// ------------------------------------------------------------------
// Capability checks and small helpers
// ------------------------------------------------------------------

/// Whether some capability tag in the list equals `tag`.
fn contains_tag(caps: &Vec<String>, tag: &String) -> (r: bool)
    ensures
        r == spec_has_tag(caps@, tag@),
{
    let mut d: usize = 0;
    while d < caps.len()
        invariant
            d <= caps@.len(),
            forall|d2: int| 0 <= d2 < d ==> (#[trigger] caps@[d2])@ != tag@,
        decreases caps@.len() - d,
    {
        if caps[d] == *tag {
            assert(caps@[d as int]@ == tag@);
            return true;
        }
        d = d + 1;
    }
    false
}

/// Check if a visitor has all required capabilities for a visit.
pub fn visitor_can_do(visit: &Visit, visitor: &Visitor) -> (r: bool)
    ensures
        r == spec_capable(*visitor, *visit),
{
    let mut c: usize = 0;
    while c < visit.required_capabilities.len()
        invariant
            c <= visit.required_capabilities@.len(),
            forall|c2: int|
                0 <= c2 < c ==> spec_has_tag(
                    visitor.capabilities@,
                    (#[trigger] visit.required_capabilities@[c2])@,
                ),
        decreases visit.required_capabilities@.len() - c,
    {
        if !contains_tag(&visitor.capabilities, &visit.required_capabilities[c]) {
            assert(!spec_capable(*visitor, *visit));
            return false;
        }
        c = c + 1;
    }
    true
}

/// Check if any visitor in the list can handle this visit.
pub fn visit_is_compatible(visit: &Visit, visitors: &Vec<Visitor>) -> (r: bool)
    ensures
        r == spec_any_capable(visitors@, *visit),
{
    let mut k: usize = 0;
    while k < visitors.len()
        invariant
            k <= visitors@.len(),
            forall|k2: int| 0 <= k2 < k ==> !spec_capable(#[trigger] visitors@[k2], *visit),
        decreases visitors@.len() - k,
    {
        if visitor_can_do(visit, &visitors[k]) {
            assert(spec_capable(visitors@[k as int], *visit));
            return true;
        }
        k = k + 1;
    }
    false
}

/// Copy a visit-index sequence.
fn copy_indices(v: &Vec<usize>) -> (r: Vec<usize>)
    ensures
        r@ == v@,
{
    let mut out: Vec<usize> = Vec::new();
    let mut i: usize = 0;
    while i < v.len()
        invariant
            i <= v@.len(),
            out@ == v@.take(i as int),
        decreases v@.len() - i,
    {
        out.push(v[i]);
        proof {
            assert(v@.take(i as int + 1) =~= v@.take(i as int).push(v@[i as int]));
        }
        i = i + 1;
    }
    proof {
        assert(v@.take(v@.len() as int) =~= v@);
    }
    out
}

/// The position of the visitor with this id, if the fleet holds one.
fn find_visitor(visitors: &Vec<Visitor>, id: &String) -> (r: Option<usize>)
    ensures
        (match r {
            Some(k) => k < visitors@.len() && visitors@[k as int].id@ == id@,
            None => forall|k: int| 0 <= k < visitors@.len() ==> (#[trigger] visitors@[k]).id@ != id@,
        }),
{
    let mut k: usize = 0;
    while k < visitors.len()
        invariant
            k <= visitors@.len(),
            forall|k2: int| 0 <= k2 < k ==> (#[trigger] visitors@[k2]).id@ != id@,
        decreases visitors@.len() - k,
    {
        if visitors[k].id == *id {
            return Some(k);
        }
        k = k + 1;
    }
    None
}

/// The visits pinned to this visitor id, in input order.
fn pinned_for(visits: &Vec<Visit>, service_date: i64, id: &String) -> (r: Vec<usize>)
    ensures
        useq(r@) == spec_pinned_indices(visits@, service_date as int, id@),
        forall|p: int|
            0 <= p < r@.len() ==> (#[trigger] r@[p]) < visits@.len() && spec_pinned_to(
                visits@[r@[p] as int],
                service_date as int,
                id@,
            ),
        forall|i: int|
            0 <= i < visits@.len() ==> idx_count(r@, i) == (if spec_pinned_to(
                #[trigger] visits@[i],
                service_date as int,
                id@,
            ) {
                1int
            } else {
                0int
            }),
{
    let mut out: Vec<usize> = Vec::new();
    let mut s: usize = 0;
    while s < visits.len()
        invariant
            s <= visits@.len(),
            useq(out@) == spec_pinned_prefix(visits@, service_date as int, id@, s as int),
            forall|p: int|
                0 <= p < out@.len() ==> (#[trigger] out@[p]) < s && spec_pinned_to(
                    visits@[out@[p] as int],
                    service_date as int,
                    id@,
                ),
            forall|i: int|
                0 <= i < visits@.len() ==> idx_count(out@, i) == (if i < s && spec_pinned_to(
                    #[trigger] visits@[i],
                    service_date as int,
                    id@,
                ) {
                    1int
                } else {
                    0int
                }),
        decreases visits@.len() - s,
    {
        let date_ok = match visits[s].pinned_date {
            Some(d) => d == service_date,
            None => true,
        };
        let is_pinned = match visits[s].pin_type {
            VisitPinType::Visitor => true,
            VisitPinType::VisitorAndDate => true,
            _ => false,
        };
        let mut matched = false;
        if date_ok && is_pinned {
            match &visits[s].pinned_visitor {
                Some(pv) => {
                    if *pv == *id {
                        matched = true;
                    }
                },
                None => {},
            }
        }
        let ghost out_old = out@;
        if matched {
            out.push(s);
        }
        proof {
            assert(matched == spec_pinned_to(visits@[s as int], service_date as int, id@));
            if matched {
                assert(useq(out@) =~= useq(out_old).push(s as int));
            }
            assert forall|i: int|
                0 <= i < visits@.len() implies idx_count(out@, i) == (if i < s + 1
                && spec_pinned_to(#[trigger] visits@[i], service_date as int, id@) {
                1int
            } else {
                0int
            }) by {
                if matched {
                    lemma_idx_count_push(out_old, s, i);
                }
            }
        }
        s = s + 1;
    }
    out
}

// ------------------------------------------------------------------
// Cheapest insertion
// ------------------------------------------------------------------

/// The scheduler's verdict on inserting visit `vi` at position `pos` of
/// the given route.
pub open spec fn spec_insertion<A: AvailabilityProvider>(
    a: &A,
    ctx: SolveCtx,
    route: RouteState,
    vi: int,
    pos: int,
) -> Option<(Seq<(int, int)>, int)> {
    spec_schedule(
        a.spec_availability(ctx.visitors[route.visitor_index as int].id@, ctx.date),
        ctx.visitors[route.visitor_index as int].id@,
        ctx.vrows[route.visitor_index as int],
        useq(route.visits@).insert(pos, vi),
        ctx.visits,
        ctx.rows,
        ctx.mat,
        ctx.target_weight,
        ctx.reassignment_penalty,
    )
}

/// Strict lexicographic order on (route, position) pairs: the order in
/// which insertion candidates are tried, and the tie-break that keeps
/// the first of equally cheap candidates.
pub open spec fn lex_before(k1: int, p1: int, k2: int, p2: int) -> bool {
    k1 < k2 || (k1 == k2 && p1 < p2)
}

/// Facts the searches need in plain form, spelled out from the packed
/// context predicate: matrix shape and bounds, row validity, visit
/// well-formedness and weight bounds.
pub proof fn lemma_ctx_plain<A: AvailabilityProvider>(
    a: &A,
    visits: Seq<Visit>,
    visitors: Seq<Visitor>,
    date: int,
    rows: Seq<usize>,
    vrows: Seq<Option<usize>>,
    mat: Seq<Vec<u32>>,
    options: SolveOptions,
)
    requires
        ctx_ok(a, mk_ctx(visits, visitors, date, rows, vrows, mat, options)),
    ensures
        rows.len() == visits.len(),
        vrows.len() == visitors.len(),
        mat.len() == mk_ctx(visits, visitors, date, rows, vrows, mat, options).mat.len(),
        forall|i: int| 0 <= i < rows.len() ==> (#[trigger] rows[i]) < mat.len(),
        forall|i: int| 0 <= i < mat.len() ==> (#[trigger] mat[i])@.len() == mat.len(),
        forall|i: int, j: int|
            0 <= i < mat.len() && 0 <= j < mat.len() ==> (#[trigger] mat[i]@[j]) <= MAX_TIME,
        forall|i: int| 0 <= i < visits.len() ==> visit_wf(#[trigger] visits[i]),
        options_wf(options),
        forall|k: int|
            0 <= k < vrows.len() ==> (match #[trigger] vrows[k] {
                Some(vr) => vr < mat.len(),
                None => true,
            }),
        forall|k: int|
            0 <= k < visitors.len() ==> avail_bounded(
                a.spec_availability((#[trigger] visitors[k]).id@, date),
            ),
{
    let ctx = mk_ctx(visits, visitors, date, rows, vrows, mat, options);
    assert forall|i: int| 0 <= i < rows.len() implies (#[trigger] rows[i]) < mat.len() by {
        assert(ctx.rows[i] == rows[i] as int);
    }
    assert forall|i: int| 0 <= i < mat.len() implies (#[trigger] mat[i])@.len() == mat.len() by {
        assert(ctx.mat[i] == mat[i]@);
    }
    assert forall|i: int, j: int|
        0 <= i < mat.len() && 0 <= j < mat.len() implies (#[trigger] mat[i]@[j]) <= MAX_TIME by {
        assert(ctx.mat[i] == mat[i]@);
        assert(ctx.mat[i][j] == mat[i]@[j]);
    }
    assert forall|i: int| 0 <= i < visits.len() implies visit_wf(#[trigger] visits[i]) by {
        assert(ctx.visits[i] == visits[i]);
    }
    assert forall|k: int|
        0 <= k < vrows.len() implies (match #[trigger] vrows[k] {
        Some(vr) => vr < mat.len(),
        None => true,
    }) by {
        assert(ctx.vrows[k] == (match vrows[k] {
            Some(u) => Some(u as int),
            None => None,
        }));
    }
}

/// Search the positions of one route, front to back, for the cheapest
/// feasible insertion of visit `vi`, keeping the first position of
/// minimum cost.
#[verifier::rlimit(60)]
#[verifier::loop_isolation(false)]
fn best_position<A: AvailabilityProvider>(
    vi: usize,
    route: &RouteState,
    service_date: i64,
    visits: &Vec<Visit>,
    visitors: &Vec<Visitor>,
    rows: &Vec<usize>,
    vrows: &Vec<Option<usize>>,
    availability: &A,
    matrix: &Vec<Vec<u32>>,
    options: &SolveOptions,
) -> (r: Option<(usize, Vec<(u32, u32)>, u64)>)
    requires
        ctx_ok(
            availability,
            mk_ctx(visits@, visitors@, service_date as int, rows@, vrows@, matrix@, *options),
        ),
        vi < visits@.len(),
        route_ok(
            availability,
            mk_ctx(visits@, visitors@, service_date as int, rows@, vrows@, matrix@, *options),
            *route,
        ),
    ensures
        ({
            let ctx = mk_ctx(
                visits@,
                visitors@,
                service_date as int,
                rows@,
                vrows@,
                matrix@,
                *options,
            );
            match r {
                None => forall|p: int|
                    0 <= p <= route.visits@.len() ==> #[trigger] spec_insertion(
                        availability,
                        ctx,
                        *route,
                        vi as int,
                        p,
                    ) is None,
                Some((bp, ws, c)) => {
                    &&& bp <= route.visits@.len()
                    &&& spec_insertion(availability, ctx, *route, vi as int, bp as int) == Some(
                        (wins(ws@), c as int),
                    )
                    &&& ws@.len() == route.visits@.len() + 1
                    &&& c as int <= crate::schedule::cost_cap()
                    &&& (match availability.spec_availability(
                        visitors@[route.visitor_index as int].id@,
                        service_date as int,
                    ) {
                        Some(segs) => route_windows_wf(
                            visits@,
                            segs,
                            useq(route.visits@).insert(bp as int, vi as int),
                            wins(ws@),
                        ),
                        None => false,
                    })
                    &&& forall|p: int|
                        0 <= p <= route.visits@.len() ==> (match #[trigger] spec_insertion(
                            availability,
                            ctx,
                            *route,
                            vi as int,
                            p,
                        ) {
                            Some(r2) => r2.1 >= c as int && (p < bp as int ==> r2.1 > c as int),
                            None => true,
                        })
                },
            }
        }),
{
    let ghost ctx = mk_ctx(visits@, visitors@, service_date as int, rows@, vrows@, matrix@, *options);
    proof {
        lemma_ctx_plain(
            availability,
            visits@,
            visitors@,
            service_date as int,
            rows@,
            vrows@,
            matrix@,
            *options,
        );
    }
    let kv = route.visitor_index;
    let route_len = route.visits.len();
    let mut best: Option<(usize, Vec<(u32, u32)>, u64)> = None;
    let mut pos: usize = 0;
    while pos <= route_len
        invariant
            pos <= route_len + 1,
            (match best {
                None => forall|p: int|
                    0 <= p < pos ==> #[trigger] spec_insertion(
                        availability,
                        ctx,
                        *route,
                        vi as int,
                        p,
                    ) is None,
                Some((bp, ws, c)) => {
                    &&& bp < pos
                    &&& bp <= route.visits@.len()
                    &&& spec_insertion(availability, ctx, *route, vi as int, bp as int) == Some(
                        (wins(ws@), c as int),
                    )
                    &&& ws@.len() == route.visits@.len() + 1
                    &&& c as int <= crate::schedule::cost_cap()
                    &&& (match availability.spec_availability(
                        visitors@[route.visitor_index as int].id@,
                        service_date as int,
                    ) {
                        Some(segs) => route_windows_wf(
                            visits@,
                            segs,
                            useq(route.visits@).insert(bp as int, vi as int),
                            wins(ws@),
                        ),
                        None => false,
                    })
                    &&& forall|p: int|
                        0 <= p < pos ==> (match #[trigger] spec_insertion(
                            availability,
                            ctx,
                            *route,
                            vi as int,
                            p,
                        ) {
                            Some(r2) => r2.1 >= c as int && (p < bp as int ==> r2.1 > c as int),
                            None => true,
                        })
                },
            }),
        decreases route_len + 1 - pos,
    {
        let mut candidate = copy_indices(&route.visits);
        candidate.insert(pos, vi);
        proof {
            assert(useq(candidate@) =~= useq(route.visits@).insert(pos as int, vi as int));
            route.visits@.insert_ensures(pos as int, vi);
            assert forall|i: int|
                0 <= i < candidate@.len() implies (#[trigger] candidate@[i]) < visits@.len() by {
                assert(candidate@ == route.visits@.insert(pos as int, vi));
                if i < pos {
                    assert(candidate@[i] == route.visits@[i]);
                } else if i == pos {
                    assert(candidate@[i] == vi);
                } else {
                    assert(candidate@[i] == route.visits@[i - 1]);
                }
            }
        }
        let sched = crate::schedule::compute_schedule(
            service_date,
            &visitors[kv].id,
            vrows[kv],
            &candidate,
            visits,
            rows,
            availability,
            matrix,
            options,
        );
        proof {
            assert(ctx.vrows[kv as int] == (match vrows@[kv as int] {
                Some(u) => Some(u as int),
                None => None,
            }));
            assert(ctx.visitors[kv as int] == visitors@[kv as int]);
        }
        match sched {
            Some((ws2, c2)) => {
                proof {
                    assert(spec_insertion(availability, ctx, *route, vi as int, pos as int) == Some(
                        (wins(ws2@), c2 as int),
                    ));
                }
                let take = match &best {
                    None => true,
                    Some(b) => c2 < b.2,
                };
                if take {
                    best = Some((pos, ws2, c2));
                }
            },
            None => {
                proof {
                    assert(spec_insertion(availability, ctx, *route, vi as int, pos as int) is None);
                }
            },
        }
        pos = pos + 1;
    }
    best
}

/// Search every capable route and every position for the cheapest
/// feasible insertion of visit `vi`, trying routes in input order and
/// positions front to back, and keeping the first candidate of minimum
/// cost. Also reports whether any capable visitor has availability.
#[verifier::rlimit(60)]
#[verifier::loop_isolation(false)]
fn best_insertion<A: AvailabilityProvider>(
    vi: usize,
    routes: &Vec<RouteState>,
    service_date: i64,
    visits: &Vec<Visit>,
    visitors: &Vec<Visitor>,
    rows: &Vec<usize>,
    vrows: &Vec<Option<usize>>,
    availability: &A,
    matrix: &Vec<Vec<u32>>,
    options: &SolveOptions,
) -> (r: (Option<(usize, usize, Vec<(u32, u32)>, u64)>, bool))
    requires
        ctx_ok(
            availability,
            mk_ctx(visits@, visitors@, service_date as int, rows@, vrows@, matrix@, *options),
        ),
        vi < visits@.len(),
        routes@.len() == visitors@.len(),
        forall|k: int|
            0 <= k < routes@.len() ==> (#[trigger] routes@[k]).visitor_index == k && route_ok(
                availability,
                mk_ctx(visits@, visitors@, service_date as int, rows@, vrows@, matrix@, *options),
                routes@[k],
            ),
    ensures
        ({
            let ctx = mk_ctx(
                visits@,
                visitors@,
                service_date as int,
                rows@,
                vrows@,
                matrix@,
                *options,
            );
            &&& r.1 == spec_any_capable_available(
                availability,
                visitors@,
                visits@[vi as int],
                service_date as int,
            )
            &&& (match r.0 {
                None => forall|k: int, p: int|
                    #![trigger spec_insertion(availability, ctx, routes@[k], vi as int, p)]
                    0 <= k < routes@.len() && 0 <= p <= routes@[k].visits@.len() && spec_capable(
                        visitors@[k],
                        visits@[vi as int],
                    ) ==> spec_insertion(availability, ctx, routes@[k], vi as int, p) is None,
                Some((bk, bp, ws, c)) => {
                    &&& bk < routes@.len()
                    &&& spec_capable(visitors@[bk as int], visits@[vi as int])
                    &&& bp <= routes@[bk as int].visits@.len()
                    &&& spec_insertion(availability, ctx, routes@[bk as int], vi as int, bp as int)
                        == Some((wins(ws@), c as int))
                    &&& ws@.len() == routes@[bk as int].visits@.len() + 1
                    &&& c as int <= crate::schedule::cost_cap()
                    &&& (match availability.spec_availability(
                        visitors@[bk as int].id@,
                        service_date as int,
                    ) {
                        Some(segs) => route_windows_wf(
                            visits@,
                            segs,
                            useq(routes@[bk as int].visits@).insert(bp as int, vi as int),
                            wins(ws@),
                        ),
                        None => false,
                    })
                    &&& forall|k: int, p: int|
                        #![trigger spec_insertion(availability, ctx, routes@[k], vi as int, p)]
                        0 <= k < routes@.len() && 0 <= p <= routes@[k].visits@.len()
                            && spec_capable(visitors@[k], visits@[vi as int]) ==> (
                        match spec_insertion(availability, ctx, routes@[k], vi as int, p) {
                            Some(r2) => r2.1 >= c as int && (lex_before(k, p, bk as int, bp as int)
                                ==> r2.1 > c as int),
                            None => true,
                        })
                },
            })
        }),
{
    let ghost ctx = mk_ctx(visits@, visitors@, service_date as int, rows@, vrows@, matrix@, *options);
    let mut best: Option<(usize, usize, Vec<(u32, u32)>, u64)> = None;
    let mut found_available = false;
    let mut k: usize = 0;
    while k < routes.len()
        invariant
            k <= routes@.len(),
            found_available == exists|k2: int|
                0 <= k2 < k && spec_capable(#[trigger] visitors@[k2], visits@[vi as int])
                    && availability.spec_availability(
                    visitors@[k2].id@,
                    service_date as int,
                ) is Some,
            (match best {
                None => forall|k2: int, p: int|
                    #![trigger spec_insertion(availability, ctx, routes@[k2], vi as int, p)]
                    0 <= k2 < k && 0 <= p <= routes@[k2].visits@.len() && spec_capable(
                        visitors@[k2],
                        visits@[vi as int],
                    ) ==> spec_insertion(availability, ctx, routes@[k2], vi as int, p) is None,
                Some((bk, bp, ws, c)) => {
                    &&& bk < k
                    &&& spec_capable(visitors@[bk as int], visits@[vi as int])
                    &&& bp <= routes@[bk as int].visits@.len()
                    &&& spec_insertion(availability, ctx, routes@[bk as int], vi as int, bp as int)
                        == Some((wins(ws@), c as int))
                    &&& ws@.len() == routes@[bk as int].visits@.len() + 1
                    &&& c as int <= crate::schedule::cost_cap()
                    &&& (match availability.spec_availability(
                        visitors@[bk as int].id@,
                        service_date as int,
                    ) {
                        Some(segs) => route_windows_wf(
                            visits@,
                            segs,
                            useq(routes@[bk as int].visits@).insert(bp as int, vi as int),
                            wins(ws@),
                        ),
                        None => false,
                    })
                    &&& forall|k2: int, p: int|
                        #![trigger spec_insertion(availability, ctx, routes@[k2], vi as int, p)]
                        0 <= k2 < k && 0 <= p <= routes@[k2].visits@.len() && spec_capable(
                            visitors@[k2],
                            visits@[vi as int],
                        ) ==> (match spec_insertion(availability, ctx, routes@[k2], vi as int, p) {
                            Some(r2) => r2.1 >= c as int && (lex_before(k2, p, bk as int, bp as int)
                                ==> r2.1 > c as int),
                            None => true,
                        })
                },
            }),
        decreases routes@.len() - k,
    {
        if !visitor_can_do(&visits[vi], &visitors[k]) {
            proof {
                assert(!spec_capable(visitors@[k as int], visits@[vi as int]));
            }
            k = k + 1;
            continue ;
        }
        let avail_probe = availability.availability_for(&visitors[k].id, service_date);
        if avail_probe.is_some() {
            found_available = true;
            proof {
                assert(spec_capable(visitors@[k as int], visits@[vi as int])
                    && availability.spec_availability(
                    visitors@[k as int].id@,
                    service_date as int,
                ) is Some);
            }
        }
        let found = best_position(
            vi,
            &routes[k],
            service_date,
            visits,
            visitors,
            rows,
            vrows,
            availability,
            matrix,
            options,
        );
        match found {
            Some((bp2, ws2, c2)) => {
                let take = match &best {
                    None => true,
                    Some(b) => c2 < b.3,
                };
                if take {
                    best = Some((k, bp2, ws2, c2));
                }
            },
            None => {},
        }
        k = k + 1;
    }
    (best, found_available)
}


// ------------------------------------------------------------------
// Local search: 2-opt
// ------------------------------------------------------------------

/// A sequence in reverse order.
pub open spec fn srev(s: Seq<usize>) -> Seq<usize>
    decreases s.len(),
{
    if s.len() == 0 {
        Seq::empty()
    } else {
        seq![s.last()] + srev(s.drop_last())
    }
}

pub proof fn lemma_srev_index(s: Seq<usize>)
    ensures
        srev(s).len() == s.len(),
        forall|i: int| 0 <= i < s.len() ==> #[trigger] srev(s)[i] == s[s.len() - 1 - i],
    decreases s.len(),
{
    if s.len() > 0 {
        lemma_srev_index(s.drop_last());
        assert forall|i: int| 0 <= i < s.len() implies #[trigger] srev(s)[i] == s[s.len() - 1
            - i] by {
            if i > 0 {
                assert(srev(s)[i] == srev(s.drop_last())[i - 1]);
                assert(s.drop_last()[s.len() - 1 - i] == s[s.len() - 1 - i]);
            }
        }
    }
}

pub proof fn lemma_srev_count(s: Seq<usize>, x: int)
    ensures
        idx_count(srev(s), x) == idx_count(s, x),
    decreases s.len(),
{
    if s.len() > 0 {
        lemma_srev_count(s.drop_last(), x);
        lemma_idx_count_concat(seq![s.last()], srev(s.drop_last()), x);
        assert(idx_count(seq![s.last()], x) == (if s.last() as int == x {
            1int
        } else {
            0int
        })) by {
            assert(seq![s.last()].drop_last() =~= Seq::<usize>::empty());
            assert(idx_count(Seq::<usize>::empty(), x) == 0);
        }
    }
}

/// The route order with positions `lo..=hi` reversed in place.
fn reversed_candidate(order: &Vec<usize>, lo: usize, hi: usize) -> (r: Vec<usize>)
    requires
        lo <= hi < order@.len(),
    ensures
        r@.len() == order@.len(),
        forall|p: int| 0 <= p < lo ==> #[trigger] r@[p] == order@[p],
        forall|p: int| lo <= p <= hi ==> #[trigger] r@[p] == order@[lo + hi - p],
        forall|p: int| hi < p < order@.len() ==> #[trigger] r@[p] == order@[p],
        forall|i: int| idx_count(r@, i) == idx_count(order@, i),
{
    let n = order.len();
    let mut out: Vec<usize> = Vec::new();
    let mut p: usize = 0;
    while p < n
        invariant
            p <= n,
            n == order@.len(),
            lo <= hi < n,
            out@.len() == p,
            forall|q: int| 0 <= q < p && q < lo ==> #[trigger] out@[q] == order@[q],
            forall|q: int| lo <= q < p && q <= hi ==> #[trigger] out@[q] == order@[lo + hi - q],
            forall|q: int| hi < q < p ==> #[trigger] out@[q] == order@[q],
        decreases n - p,
    {
        if p >= lo && p <= hi {
            out.push(order[lo + (hi - p)]);
        } else {
            out.push(order[p]);
        }
        p = p + 1;
    }
    proof {
        let mid = order@.subrange(lo as int, hi as int + 1);
        lemma_srev_index(mid);
        assert(out@ =~= order@.take(lo as int) + srev(mid) + order@.skip(hi as int + 1));
        assert(order@ =~= order@.take(lo as int) + mid + order@.skip(hi as int + 1));
        assert forall|i: int| idx_count(out@, i) == idx_count(order@, i) by {
            lemma_idx_count_concat(order@.take(lo as int) + srev(mid), order@.skip(hi as int + 1), i);
            lemma_idx_count_concat(order@.take(lo as int), srev(mid), i);
            lemma_idx_count_concat(order@.take(lo as int) + mid, order@.skip(hi as int + 1), i);
            lemma_idx_count_concat(order@.take(lo as int), mid, i);
            lemma_srev_count(mid, i);
        }
    }
    out
}

/// The order with positions `lo..=hi` reversed in place.
pub open spec fn rev_seg(s: Seq<int>, lo: int, hi: int) -> Seq<int> {
    Seq::new(
        s.len(),
        |p: int|
            if lo <= p <= hi {
                s[lo + hi - p]
            } else {
                s[p]
            },
    )
}

/// The scheduler's verdict on the route with positions `i+1..=j`
/// reversed.
pub open spec fn spec_reversal<A: AvailabilityProvider>(
    a: &A,
    ctx: SolveCtx,
    route: RouteState,
    i: int,
    j: int,
) -> Option<(Seq<(int, int)>, int)> {
    spec_schedule(
        a.spec_availability(ctx.visitors[route.visitor_index as int].id@, ctx.date),
        ctx.visitors[route.visitor_index as int].id@,
        ctx.vrows[route.visitor_index as int],
        rev_seg(useq(route.visits@), i + 1, j),
        ctx.visits,
        ctx.rows,
        ctx.mat,
        ctx.target_weight,
        ctx.reassignment_penalty,
    )
}

/// No contiguous reversal of the route schedules feasibly at a cost
/// strictly below the route's own.
pub open spec fn two_opt_stagnant<A: AvailabilityProvider>(
    a: &A,
    ctx: SolveCtx,
    route: RouteState,
) -> bool {
    forall|i: int, j: int|
        #![trigger spec_reversal(a, ctx, route, i, j)]
        0 <= i && i + 2 <= j && j < route.visits@.len() ==> (match spec_reversal(
            a,
            ctx,
            route,
            i,
            j,
        ) {
            Some(r) => r.1 >= route.total_travel_time as int,
            None => true,
        })
}

/// One 2-opt pass over a single route: reverse each subsequence in turn
/// and commit the first reversal whose schedule strictly lowers the
/// route's cost. Keeps the route invariant and the set of assigned
/// visits; returns whether a strictly improving reversal was committed.
#[verifier::rlimit(60)]
#[verifier::loop_isolation(false)]
pub fn two_opt_improve<A: AvailabilityProvider>(
    route: &mut RouteState,
    service_date: i64,
    visits: &Vec<Visit>,
    visitors: &Vec<Visitor>,
    rows: &Vec<usize>,
    vrows: &Vec<Option<usize>>,
    availability: &A,
    matrix: &Vec<Vec<u32>>,
    options: &SolveOptions,
) -> (improved: bool)
    requires
        ctx_ok(
            availability,
            mk_ctx(visits@, visitors@, service_date as int, rows@, vrows@, matrix@, *options),
        ),
        route_ok(
            availability,
            mk_ctx(visits@, visitors@, service_date as int, rows@, vrows@, matrix@, *options),
            *old(route),
        ),
    ensures
        final(route).visitor_index == old(route).visitor_index,
        route_ok(
            availability,
            mk_ctx(visits@, visitors@, service_date as int, rows@, vrows@, matrix@, *options),
            *final(route),
        ),
        forall|i: int|
            idx_count(#[trigger] final(route).visits@, i) == idx_count(old(route).visits@, i),
        improved ==> final(route).total_travel_time < old(route).total_travel_time,
        !improved ==> *final(route) == *old(route),
        old(route).visits@.len() < 3 ==> !improved,
        ({
            let ctx = mk_ctx(
                visits@,
                visitors@,
                service_date as int,
                rows@,
                vrows@,
                matrix@,
                *options,
            );
            &&& (!improved ==> two_opt_stagnant(availability, ctx, *old(route)))
            &&& (improved ==> exists|i: int, j: int|
                #![trigger spec_reversal(availability, ctx, *old(route), i, j)]
                {
                    &&& 0 <= i && i + 2 <= j && j < old(route).visits@.len()
                    &&& useq(final(route).visits@) == rev_seg(
                        useq(old(route).visits@),
                        i + 1,
                        j,
                    )
                    &&& spec_reversal(availability, ctx, *old(route), i, j) == Some(
                        (
                            wins(final(route).estimated_windows@),
                            final(route).total_travel_time as int,
                        ),
                    )
                    &&& forall|i2: int, j2: int|
                        #![trigger spec_reversal(availability, ctx, *old(route), i2, j2)]
                        0 <= i2 && i2 + 2 <= j2 && j2 < old(route).visits@.len() && lex_before(
                            i2,
                            j2,
                            i,
                            j,
                        ) ==> (match spec_reversal(availability, ctx, *old(route), i2, j2) {
                            Some(r) => r.1 >= old(route).total_travel_time as int,
                            None => true,
                        })
                })
        }),
{
    let ghost ctx = mk_ctx(visits@, visitors@, service_date as int, rows@, vrows@, matrix@, *options);
    proof {
        lemma_ctx_plain(
            availability,
            visits@,
            visitors@,
            service_date as int,
            rows@,
            vrows@,
            matrix@,
            *options,
        );
    }
    if route.visits.len() < 3 {
        return false;
    }
    let current_cost = route.total_travel_time;
    let n = route.visits.len();
    let kv = route.visitor_index;
    let mut i: usize = 0;
    while i < n - 1
        invariant
            *route == *old(route),
            n == route.visits@.len(),
            3 <= n,
            kv == route.visitor_index,
            current_cost == route.total_travel_time,
            forall|i2: int, j2: int|
                #![trigger spec_reversal(availability, ctx, *old(route), i2, j2)]
                0 <= i2 && i2 + 2 <= j2 && j2 < n && lex_before(i2, j2, i as int, i as int + 2)
                    ==> (match spec_reversal(availability, ctx, *old(route), i2, j2) {
                    Some(r) => r.1 >= current_cost as int,
                    None => true,
                }),
        decreases n - 1 - i,
    {
        let mut j: usize = i + 2;
        while j < n
            invariant
                *route == *old(route),
                n == route.visits@.len(),
                3 <= n,
                i < n - 1,
                i + 2 <= j,
                kv == route.visitor_index,
                current_cost == route.total_travel_time,
                forall|i2: int, j2: int|
                    #![trigger spec_reversal(availability, ctx, *old(route), i2, j2)]
                    0 <= i2 && i2 + 2 <= j2 && j2 < n && lex_before(i2, j2, i as int, j as int)
                        ==> (match spec_reversal(availability, ctx, *old(route), i2, j2) {
                        Some(r) => r.1 >= current_cost as int,
                        None => true,
                    }),
            decreases n - j,
        {
            let candidate = reversed_candidate(&route.visits, i + 1, j);
            proof {
                assert forall|q: int|
                    0 <= q < candidate@.len() implies (#[trigger] candidate@[q])
                    < visits@.len() by {
                    if q < i + 1 {
                    } else if q <= j {
                        assert(candidate@[q] == route.visits@[i + 1 + j - q]);
                    } else {
                    }
                }
                assert(ctx.vrows[kv as int] == (match vrows@[kv as int] {
                    Some(u) => Some(u as int),
                    None => None,
                }));
                assert(ctx.visitors[kv as int] == visitors@[kv as int]);
                assert(useq(candidate@) =~= rev_seg(useq(route.visits@), i as int + 1, j as int));
            }
            let sched = crate::schedule::compute_schedule(
                service_date,
                &visitors[kv].id,
                vrows[kv],
                &candidate,
                visits,
                rows,
                availability,
                matrix,
                options,
            );
            match sched {
                Some((ws, c)) => {
                    if c < current_cost {
                        proof {
                            assert forall|q: int|
                                0 <= q < candidate@.len() implies !spec_wrong_date(
                                ctx.visits[#[trigger] candidate@[q] as int],
                                ctx.date,
                            ) && (spec_visitor_pinned(ctx.visits[candidate@[q] as int])
                                ==> (match ctx.visits[candidate@[q] as int].pinned_visitor {
                                Some(pv) => pv@ == ctx.visitors[kv as int].id@,
                                None => false,
                            })) && (!spec_visitor_pinned(ctx.visits[candidate@[q] as int])
                                ==> spec_capable(
                                ctx.visitors[kv as int],
                                ctx.visits[candidate@[q] as int],
                            )) by {
                                if q < i + 1 {
                                    assert(candidate@[q] == route.visits@[q]);
                                } else if q <= j {
                                    assert(candidate@[q] == route.visits@[i + 1 + j - q]);
                                } else {
                                    assert(candidate@[q] == route.visits@[q]);
                                }
                            }
                        }
                        route.visits = candidate;
                        route.estimated_windows = ws;
                        route.total_travel_time = c;
                        proof {
                            assert(spec_reversal(
                                availability,
                                ctx,
                                *old(route),
                                i as int,
                                j as int,
                            ) == Some(
                                (
                                    wins(route.estimated_windows@),
                                    route.total_travel_time as int,
                                ),
                            ));
                        }
                        return true;
                    }
                    proof {
                        assert(spec_reversal(availability, ctx, *old(route), i as int, j as int)
                            == Some((wins(ws@), c as int)));
                    }
                },
                None => {
                    proof {
                        assert(spec_reversal(availability, ctx, *old(route), i as int, j as int)
                            is None);
                    }
                },
            }
            proof {
                assert forall|i2: int, j2: int|
                    #![trigger spec_reversal(availability, ctx, *old(route), i2, j2)]
                    0 <= i2 && i2 + 2 <= j2 && j2 < n && lex_before(
                        i2,
                        j2,
                        i as int,
                        j as int + 1,
                    ) implies (match spec_reversal(availability, ctx, *old(route), i2, j2) {
                    Some(r) => r.1 >= current_cost as int,
                    None => true,
                }) by {
                    if !(lex_before(i2, j2, i as int, j as int)) {
                        assert(i2 == i && j2 == j);
                    }
                }
            }
            j = j + 1;
        }
        i = i + 1;
    }
    false
}

// ------------------------------------------------------------------
// Local search: relocate
// ------------------------------------------------------------------

pub proof fn lemma_sum_costs_le(routes: Seq<RouteState>, k: int)
    requires
        0 <= k < routes.len(),
    ensures
        routes[k].total_travel_time as int <= sum_costs(routes),
    decreases routes.len(),
{
    if k == routes.len() - 1 {
        lemma_sum_costs_nonneg(routes.drop_last());
    } else {
        lemma_sum_costs_le(routes.drop_last(), k);
        assert(routes.drop_last()[k] == routes[k]);
    }
}

pub proof fn lemma_sum_costs_nonneg(routes: Seq<RouteState>)
    ensures
        sum_costs(routes) >= 0,
    decreases routes.len(),
{
    if routes.len() > 0 {
        lemma_sum_costs_nonneg(routes.drop_last());
    }
}

/// Two distinct routes' costs together stay within the total.
pub proof fn lemma_sum_costs_pair(routes: Seq<RouteState>, k1: int, k2: int)
    requires
        0 <= k1 < routes.len(),
        0 <= k2 < routes.len(),
        k1 != k2,
    ensures
        routes[k1].total_travel_time as int + routes[k2].total_travel_time as int <= sum_costs(
            routes,
        ),
{
    let r0 = RouteState {
        visitor_index: routes[k1].visitor_index,
        visits: routes[k1].visits,
        estimated_windows: routes[k1].estimated_windows,
        total_travel_time: 0u64,
    };
    lemma_sum_costs_update(routes, k1, r0);
    lemma_sum_costs_le(routes.update(k1, r0), k2);
    assert(routes.update(k1, r0)[k2] == routes[k2]);
}

pub proof fn lemma_sum_costs_take(routes: Seq<RouteState>, k: int)
    requires
        0 <= k < routes.len(),
    ensures
        sum_costs(routes.take(k + 1)) == sum_costs(routes.take(k))
            + routes[k].total_travel_time as int,
{
    assert(routes.take(k + 1).drop_last() =~= routes.take(k));
    assert(routes.take(k + 1).last() == routes[k]);
}

/// Strict lexicographic order on relocate candidates
/// `(from-route, visit position, to-route, insertion position)`: the
/// order in which moves are tried.
pub open spec fn lex4_before(
    f1: int,
    v1: int,
    t1: int,
    p1: int,
    f2: int,
    v2: int,
    t2: int,
    p2: int,
) -> bool {
    ||| f1 < f2
    ||| (f1 == f2 && v1 < v2)
    ||| (f1 == f2 && v1 == v2 && t1 < t2)
    ||| (f1 == f2 && v1 == v2 && t1 == t2 && p1 < p2)
}

/// A same-route insertion position, shifted left when it falls after the
/// removal point.
pub open spec fn shifted_pos(v: int, p: int) -> int {
    if p > v {
        p - 1
    } else {
        p
    }
}

/// A relocate candidate the loop may take: positions in range, pinned
/// visits kept on their own route, no identity move, and the target
/// visitor capable of the visit.
pub open spec fn relocate_admissible(
    ctx: SolveCtx,
    routes: Seq<RouteState>,
    f: int,
    v: int,
    t: int,
    p: int,
) -> bool {
    &&& 0 <= f < routes.len()
    &&& 0 <= v < routes[f].visits@.len()
    &&& 0 <= t < routes.len()
    &&& (spec_visitor_pinned(ctx.visits[routes[f].visits@[v] as int]) ==> t == f)
    &&& 0 <= p < (if f == t {
        routes[t].visits@.len() as int
    } else {
        routes[t].visits@.len() as int + 1
    })
    &&& !(f == t && (p == v || p == v + 1))
    &&& spec_capable(ctx.visitors[t], ctx.visits[routes[f].visits@[v] as int])
}

/// The scheduler's verdict on the changed source route of a move: for a
/// same-route move the reordered route, otherwise the route without the
/// visit.
pub open spec fn spec_move_from<A: AvailabilityProvider>(
    a: &A,
    ctx: SolveCtx,
    routes: Seq<RouteState>,
    f: int,
    v: int,
    t: int,
    p: int,
) -> Option<(Seq<(int, int)>, int)> {
    let vi = routes[f].visits@[v] as int;
    let order = if f == t {
        useq(routes[f].visits@).remove(v).insert(shifted_pos(v, p), vi)
    } else {
        useq(routes[f].visits@).remove(v)
    };
    spec_schedule(
        a.spec_availability(ctx.visitors[f].id@, ctx.date),
        ctx.visitors[f].id@,
        ctx.vrows[f],
        order,
        ctx.visits,
        ctx.rows,
        ctx.mat,
        ctx.target_weight,
        ctx.reassignment_penalty,
    )
}

/// The scheduler's verdict on the target route of a cross-route move.
pub open spec fn spec_move_to<A: AvailabilityProvider>(
    a: &A,
    ctx: SolveCtx,
    routes: Seq<RouteState>,
    f: int,
    v: int,
    t: int,
    p: int,
) -> Option<(Seq<(int, int)>, int)> {
    let vi = routes[f].visits@[v] as int;
    spec_schedule(
        a.spec_availability(ctx.visitors[t].id@, ctx.date),
        ctx.visitors[t].id@,
        ctx.vrows[t],
        useq(routes[t].visits@).insert(p, vi),
        ctx.visits,
        ctx.rows,
        ctx.mat,
        ctx.target_weight,
        ctx.reassignment_penalty,
    )
}

/// Whether the move schedules feasibly and strictly lowers the global
/// cost (only the changed routes' costs move).
pub open spec fn relocate_improves<A: AvailabilityProvider>(
    a: &A,
    ctx: SolveCtx,
    routes: Seq<RouteState>,
    f: int,
    v: int,
    t: int,
    p: int,
) -> bool {
    if f == t {
        match spec_move_from(a, ctx, routes, f, v, t, p) {
            Some(r) => r.1 < routes[f].total_travel_time as int,
            None => false,
        }
    } else {
        match (spec_move_from(a, ctx, routes, f, v, t, p), spec_move_to(a, ctx, routes, f, v, t, p)) {
            (Some(rf), Some(rt)) => rf.1 + rt.1 < routes[f].total_travel_time as int
                + routes[t].total_travel_time as int,
            _ => false,
        }
    }
}

/// No admissible relocate move strictly lowers the global cost.
pub open spec fn relocate_stagnant<A: AvailabilityProvider>(
    a: &A,
    ctx: SolveCtx,
    routes: Seq<RouteState>,
) -> bool {
    forall|f: int, v: int, t: int, p: int|
        #![trigger relocate_admissible(ctx, routes, f, v, t, p)]
        relocate_admissible(ctx, routes, f, v, t, p) ==> !relocate_improves(
            a,
            ctx,
            routes,
            f,
            v,
            t,
            p,
        )
}

/// The shape of a committed move: the final routes are the old ones with
/// exactly the changed routes replaced, each carrying the schedule of
/// its new order.
pub open spec fn relocate_committed<A: AvailabilityProvider>(
    a: &A,
    ctx: SolveCtx,
    routes_old: Seq<RouteState>,
    routes_new: Seq<RouteState>,
    f: int,
    v: int,
    t: int,
    p: int,
) -> bool {
    let vi = routes_old[f].visits@[v] as int;
    if f == t {
        exists|rf: RouteState|
            {
                &&& #[trigger] rf.visitor_index == f
                &&& useq(rf.visits@) == useq(routes_old[f].visits@).remove(v).insert(
                    shifted_pos(v, p),
                    vi,
                )
                &&& spec_move_from(a, ctx, routes_old, f, v, t, p) == Some(
                    (wins(rf.estimated_windows@), rf.total_travel_time as int),
                )
                &&& routes_new == routes_old.update(f, rf)
            }
    } else {
        exists|rf: RouteState, rt: RouteState|
            {
                &&& #[trigger] rf.visitor_index == f
                &&& #[trigger] rt.visitor_index == t
                &&& useq(rf.visits@) == useq(routes_old[f].visits@).remove(v)
                &&& useq(rt.visits@) == useq(routes_old[t].visits@).insert(p, vi)
                &&& spec_move_from(a, ctx, routes_old, f, v, t, p) == Some(
                    (wins(rf.estimated_windows@), rf.total_travel_time as int),
                )
                &&& spec_move_to(a, ctx, routes_old, f, v, t, p) == Some(
                    (wins(rt.estimated_windows@), rt.total_travel_time as int),
                )
                &&& routes_new == routes_old.update(f, rf).update(t, rt)
            }
    }
}

/// One relocate pass over all routes: try every admissible move — each
/// visit to every other position, visitor-pinned visits only within
/// their own route, the target visitor capable — in a fixed scan order,
/// and commit the first move that strictly lowers the global cost.
/// Keeps every route invariant, the multiset of assigned visits, and
/// each route's set of pinned visits. When it returns `false`, no
/// admissible move improves; when `true`, the final routes are the old
/// ones with exactly the first improving move applied.
#[verifier::rlimit(100)]
#[verifier::loop_isolation(false)]
pub fn relocate_improve<A: AvailabilityProvider>(
    routes: &mut Vec<RouteState>,
    service_date: i64,
    visits: &Vec<Visit>,
    visitors: &Vec<Visitor>,
    rows: &Vec<usize>,
    vrows: &Vec<Option<usize>>,
    availability: &A,
    matrix: &Vec<Vec<u32>>,
    options: &SolveOptions,
) -> (improved: bool)
    requires
        ctx_ok(
            availability,
            mk_ctx(visits@, visitors@, service_date as int, rows@, vrows@, matrix@, *options),
        ),
        old(routes)@.len() == visitors@.len(),
        forall|k: int|
            0 <= k < old(routes)@.len() ==> (#[trigger] old(routes)@[k]).visitor_index == k
                && route_ok(
                availability,
                mk_ctx(visits@, visitors@, service_date as int, rows@, vrows@, matrix@, *options),
                old(routes)@[k],
            ),
    ensures
        final(routes)@.len() == old(routes)@.len(),
        forall|k: int|
            0 <= k < final(routes)@.len() ==> (#[trigger] final(routes)@[k]).visitor_index == k
                && route_ok(
                availability,
                mk_ctx(visits@, visitors@, service_date as int, rows@, vrows@, matrix@, *options),
                final(routes)@[k],
            ),
        forall|i: int|
            #![trigger routes_count(final(routes)@, i)]
            routes_count(final(routes)@, i) == routes_count(old(routes)@, i),
        forall|k: int, i: int|
            #![trigger idx_count(final(routes)@[k].visits@, i)]
            0 <= k < final(routes)@.len() && 0 <= i < visits@.len() && spec_visitor_pinned(
                visits@[i],
            ) ==> idx_count(final(routes)@[k].visits@, i) == idx_count(
                old(routes)@[k].visits@,
                i,
            ),
        improved ==> sum_costs(final(routes)@) < sum_costs(old(routes)@),
        !improved ==> final(routes)@ == old(routes)@,
        ({
            let ctx = mk_ctx(
                visits@,
                visitors@,
                service_date as int,
                rows@,
                vrows@,
                matrix@,
                *options,
            );
            &&& (!improved ==> relocate_stagnant(availability, ctx, old(routes)@))
            &&& (improved ==> exists|f: int, v: int, t: int, p: int|
                #![trigger relocate_admissible(ctx, old(routes)@, f, v, t, p)]
                {
                    &&& relocate_admissible(ctx, old(routes)@, f, v, t, p)
                    &&& relocate_improves(availability, ctx, old(routes)@, f, v, t, p)
                    &&& relocate_committed(
                        availability,
                        ctx,
                        old(routes)@,
                        final(routes)@,
                        f,
                        v,
                        t,
                        p,
                    )
                    &&& forall|f2: int, v2: int, t2: int, p2: int|
                        #![trigger relocate_admissible(ctx, old(routes)@, f2, v2, t2, p2)]
                        relocate_admissible(ctx, old(routes)@, f2, v2, t2, p2) && lex4_before(
                            f2,
                            v2,
                            t2,
                            p2,
                            f,
                            v,
                            t,
                            p,
                        ) ==> !relocate_improves(availability, ctx, old(routes)@, f2, v2, t2, p2)
                })
        }),
{
    let ghost ctx = mk_ctx(visits@, visitors@, service_date as int, rows@, vrows@, matrix@, *options);
    proof {
        lemma_ctx_plain(
            availability,
            visits@,
            visitors@,
            service_date as int,
            rows@,
            vrows@,
            matrix@,
            *options,
        );
    }
    // Global cost before any move.
    let mut total: u128 = 0;
    let mut t: usize = 0;
    while t < routes.len()
        invariant
            t <= routes@.len(),
            routes@ == old(routes)@,
            total == sum_costs(routes@.take(t as int)),
            total <= t as int * crate::schedule::cost_cap(),
        decreases routes@.len() - t,
    {
        proof {
            lemma_sum_costs_take(routes@, t as int);
            assert(route_ok(availability, ctx, routes@[t as int]));
            assert((t as int + 1) * crate::schedule::cost_cap() == t as int
                * crate::schedule::cost_cap() + crate::schedule::cost_cap()) by (nonlinear_arith);
            assert(t as int * crate::schedule::cost_cap() <= (0xffff_ffff_ffff_ffffu64 as int)
                * crate::schedule::cost_cap()) by (nonlinear_arith)
                requires
                    0 <= t as int <= 0xffff_ffff_ffff_ffffu64 as int,
            ;
        }
        total = total + routes[t].total_travel_time as u128;
        t = t + 1;
    }
    proof {
        assert(routes@.take(routes@.len() as int) =~= routes@);
        assert(routes@.len() as int * crate::schedule::cost_cap() < 0x40000000000000000000000000000000int)
            by (nonlinear_arith)
            requires
                0 <= routes@.len() as int <= 0xffff_ffff_ffff_ffffu64 as int,
        ;
    }
    let routes_n = routes.len();
    let mut from_idx: usize = 0;
    while from_idx < routes_n
        invariant
            from_idx <= routes_n,
            routes_n == routes@.len(),
            routes@ == old(routes)@,
            total == sum_costs(routes@),
            total < 0x40000000000000000000000000000000u128,
            forall|f2: int, v2: int, t2: int, p2: int|
                #![trigger relocate_admissible(ctx, routes@, f2, v2, t2, p2)]
                relocate_admissible(ctx, routes@, f2, v2, t2, p2) && lex4_before(
                    f2,
                    v2,
                    t2,
                    p2,
                    from_idx as int,
                    0,
                    0,
                    0,
                ) ==> !relocate_improves(availability, ctx, routes@, f2, v2, t2, p2),
        decreases routes_n - from_idx,
    {
        let from_len = routes[from_idx].visits.len();
        if from_len == 0 {
            proof {
                assert forall|f2: int, v2: int, t2: int, p2: int|
                    #![trigger relocate_admissible(ctx, routes@, f2, v2, t2, p2)]
                    relocate_admissible(ctx, routes@, f2, v2, t2, p2) && lex4_before(
                        f2,
                        v2,
                        t2,
                        p2,
                        from_idx as int + 1,
                        0,
                        0,
                        0,
                    ) implies !relocate_improves(availability, ctx, routes@, f2, v2, t2, p2) by {
                    if !lex4_before(f2, v2, t2, p2, from_idx as int, 0, 0, 0) {
                        assert(f2 == from_idx as int);
                        assert(!relocate_admissible(ctx, routes@, f2, v2, t2, p2));
                    }
                }
            }
            from_idx = from_idx + 1;
            continue ;
        }
        let mut visit_pos: usize = 0;
        while visit_pos < from_len
            invariant
                from_idx < routes_n,
                visit_pos <= from_len,
                routes_n == routes@.len(),
                routes@ == old(routes)@,
                total == sum_costs(routes@),
                total < 0x40000000000000000000000000000000u128,
                from_len == routes@[from_idx as int].visits@.len(),
                forall|f2: int, v2: int, t2: int, p2: int|
                    #![trigger relocate_admissible(ctx, routes@, f2, v2, t2, p2)]
                    relocate_admissible(ctx, routes@, f2, v2, t2, p2) && lex4_before(
                        f2,
                        v2,
                        t2,
                        p2,
                        from_idx as int,
                        visit_pos as int,
                        0,
                        0,
                    ) ==> !relocate_improves(availability, ctx, routes@, f2, v2, t2, p2),
            decreases from_len - visit_pos,
        {
            let vi = routes[from_idx].visits[visit_pos];
            proof {
                assert(route_ok(availability, ctx, routes@[from_idx as int]));
                assert(vi < visits@.len());
            }
            let is_pinned = match visits[vi].pin_type {
                VisitPinType::Visitor => true,
                VisitPinType::VisitorAndDate => true,
                _ => false,
            };
            let mut to_idx: usize = 0;
            while to_idx < routes_n
                invariant
                    from_idx < routes_n,
                    visit_pos < from_len,
                    to_idx <= routes_n,
                    routes_n == routes@.len(),
                    routes@ == old(routes)@,
                    total == sum_costs(routes@),
                    total < 0x40000000000000000000000000000000u128,
                    from_len == routes@[from_idx as int].visits@.len(),
                    vi == routes@[from_idx as int].visits@[visit_pos as int],
                    vi < visits@.len(),
                    is_pinned == spec_visitor_pinned(visits@[vi as int]),
                    forall|f2: int, v2: int, t2: int, p2: int|
                        #![trigger relocate_admissible(ctx, routes@, f2, v2, t2, p2)]
                        relocate_admissible(ctx, routes@, f2, v2, t2, p2) && lex4_before(
                            f2,
                            v2,
                            t2,
                            p2,
                            from_idx as int,
                            visit_pos as int,
                            to_idx as int,
                            0,
                        ) ==> !relocate_improves(availability, ctx, routes@, f2, v2, t2, p2),
                decreases routes_n - to_idx,
            {
                if is_pinned && to_idx != from_idx {
                    proof {
                        assert forall|f2: int, v2: int, t2: int, p2: int|
                            #![trigger relocate_admissible(ctx, routes@, f2, v2, t2, p2)]
                            relocate_admissible(ctx, routes@, f2, v2, t2, p2) && lex4_before(
                                f2,
                                v2,
                                t2,
                                p2,
                                from_idx as int,
                                visit_pos as int,
                                to_idx as int + 1,
                                0,
                            ) implies !relocate_improves(availability, ctx, routes@, f2, v2, t2, p2) by {
                            if !lex4_before(
                                f2,
                                v2,
                                t2,
                                p2,
                                from_idx as int,
                                visit_pos as int,
                                to_idx as int,
                                0,
                            ) {
                                assert(f2 == from_idx as int && v2 == visit_pos as int && t2
                                    == to_idx as int);
                                assert(!relocate_admissible(ctx, routes@, f2, v2, t2, p2));
                            }
                        }
                    }
                    to_idx = to_idx + 1;
                    continue ;
                }
                let to_len = routes[to_idx].visits.len();
                proof {
                    assert(route_ok(availability, ctx, routes@[to_idx as int]));
                }
                let insert_positions = if from_idx == to_idx {
                    to_len
                } else {
                    to_len + 1
                };
                let mut insert_pos: usize = 0;
                while insert_pos < insert_positions
                    invariant
                        from_idx < routes_n,
                        visit_pos < from_len,
                        to_idx < routes_n,
                        insert_pos <= insert_positions,
                        routes_n == routes@.len(),
                        routes@ == old(routes)@,
                        total == sum_costs(routes@),
                        total < 0x40000000000000000000000000000000u128,
                        from_len == routes@[from_idx as int].visits@.len(),
                        to_len == routes@[to_idx as int].visits@.len(),
                        insert_positions as int == (if from_idx == to_idx {
                            to_len as int
                        } else {
                            to_len as int + 1
                        }),
                        vi == routes@[from_idx as int].visits@[visit_pos as int],
                        vi < visits@.len(),
                        is_pinned == spec_visitor_pinned(visits@[vi as int]),
                        is_pinned ==> to_idx == from_idx,
                        forall|f2: int, v2: int, t2: int, p2: int|
                            #![trigger relocate_admissible(ctx, routes@, f2, v2, t2, p2)]
                            relocate_admissible(ctx, routes@, f2, v2, t2, p2) && lex4_before(
                                f2,
                                v2,
                                t2,
                                p2,
                                from_idx as int,
                                visit_pos as int,
                                to_idx as int,
                                insert_pos as int,
                            ) ==> !relocate_improves(availability, ctx, routes@, f2, v2, t2, p2),
                    decreases insert_positions - insert_pos,
                {
                    let ghost cand = (from_idx as int, visit_pos as int, to_idx as int, insert_pos as int);
                    if from_idx == to_idx && (insert_pos == visit_pos || insert_pos == visit_pos
                        + 1) {
                        proof {
                            assert(!relocate_admissible(
                                ctx,
                                routes@,
                                cand.0,
                                cand.1,
                                cand.2,
                                cand.3,
                            ));
                            lemma_relocate_cutoff_step(
                                availability,
                                ctx,
                                routes@,
                                cand.0,
                                cand.1,
                                cand.2,
                                cand.3,
                            );
                        }
                        insert_pos = insert_pos + 1;
                        continue ;
                    }
                    if !visitor_can_do(&visits[vi], &visitors[to_idx]) {
                        proof {
                            assert(ctx.visitors[to_idx as int] == visitors@[to_idx as int]);
                            assert(!relocate_admissible(
                                ctx,
                                routes@,
                                cand.0,
                                cand.1,
                                cand.2,
                                cand.3,
                            ));
                            lemma_relocate_cutoff_step(
                                availability,
                                ctx,
                                routes@,
                                cand.0,
                                cand.1,
                                cand.2,
                                cand.3,
                            );
                        }
                        insert_pos = insert_pos + 1;
                        continue ;
                    }
                    proof {
                        assert(route_ok(availability, ctx, routes@[from_idx as int]));
                        assert(route_ok(availability, ctx, routes@[to_idx as int]));
                        routes@[from_idx as int].visits@.remove_ensures(visit_pos as int);
                        assert(relocate_admissible(ctx, routes@, cand.0, cand.1, cand.2, cand.3));
                    }
                    let mut from_candidate = copy_indices(&routes[from_idx].visits);
                    from_candidate.remove(visit_pos);
                    proof {
                        assert(useq(from_candidate@) =~= useq(
                            routes@[from_idx as int].visits@,
                        ).remove(visit_pos as int));
                    }
                    if from_idx == to_idx {
                        // Same route: re-insert at the shifted position and
                        // schedule the reordered route once.
                        let actual = if insert_pos > visit_pos {
                            insert_pos - 1
                        } else {
                            insert_pos
                        };
                        let mut to_candidate = from_candidate;
                        to_candidate.insert(actual, vi);
                        proof {
                            routes@[from_idx as int].visits@.remove(
                                visit_pos as int,
                            ).insert_ensures(actual as int, vi);
                            assert forall|q: int|
                                0 <= q < to_candidate@.len() implies (#[trigger] to_candidate@[q])
                                < visits@.len() by {
                                lemma_relocate_member(
                                    routes@[from_idx as int].visits@,
                                    visit_pos as int,
                                    actual as int,
                                    vi,
                                    q,
                                );
                            }
                            assert(ctx.vrows[from_idx as int] == (match vrows@[from_idx as int] {
                                Some(u) => Some(u as int),
                                None => None,
                            }));
                            assert(ctx.visitors[from_idx as int] == visitors@[from_idx as int]);
                            assert(actual as int == shifted_pos(visit_pos as int, insert_pos as int));
                            assert(useq(to_candidate@) =~= useq(
                                routes@[from_idx as int].visits@,
                            ).remove(visit_pos as int).insert(
                                shifted_pos(visit_pos as int, insert_pos as int),
                                vi as int,
                            ));
                        }
                        let sched = crate::schedule::compute_schedule(
                            service_date,
                            &visitors[from_idx].id,
                            vrows[from_idx],
                            &to_candidate,
                            visits,
                            rows,
                            availability,
                            matrix,
                            options,
                        );
                        proof {
                            assert((match sched {
                                Some(p0) => spec_move_from(
                                    availability,
                                    ctx,
                                    routes@,
                                    cand.0,
                                    cand.1,
                                    cand.2,
                                    cand.3,
                                ) == Some((wins(p0.0@), p0.1 as int)),
                                None => spec_move_from(
                                    availability,
                                    ctx,
                                    routes@,
                                    cand.0,
                                    cand.1,
                                    cand.2,
                                    cand.3,
                                ) is None,
                            }));
                        }
                        match sched {
                            Some((ws, c)) => {
                                let from_cost_old = routes[from_idx].total_travel_time;
                                proof {
                                    lemma_sum_costs_le(routes@, from_idx as int);
                                }
                                let others: u128 = total - from_cost_old as u128;
                                if (c as u128) + others < total {
                                    proof {
                                        assert(relocate_improves(
                                            availability,
                                            ctx,
                                            routes@,
                                            cand.0,
                                            cand.1,
                                            cand.2,
                                            cand.3,
                                        ));
                                        assert forall|q: int|
                                            0 <= q < to_candidate@.len() implies route_visit_facts(
                                            ctx,
                                            routes@[from_idx as int],
                                            #[trigger] to_candidate@[q],
                                        ) by {
                                            lemma_relocate_member(
                                                routes@[from_idx as int].visits@,
                                                visit_pos as int,
                                                actual as int,
                                                vi,
                                                q,
                                            );
                                        }
                                    }
                                    let newroute = RouteState {
                                        visitor_index: from_idx,
                                        visits: to_candidate,
                                        estimated_windows: ws,
                                        total_travel_time: c,
                                    };
                                    let ghost routes_before = routes@;
                                    routes[from_idx] = newroute;
                                    proof {
                                        lemma_sum_costs_update(
                                            routes_before,
                                            from_idx as int,
                                            routes@[from_idx as int],
                                        );
                                        assert forall|i: int|
                                            #![trigger routes_count(routes@, i)]
                                            routes_count(routes@, i) == routes_count(
                                            old(routes)@,
                                            i,
                                        ) by {
                                            lemma_routes_count_update(
                                                routes_before,
                                                from_idx as int,
                                                routes@[from_idx as int],
                                                i,
                                            );
                                            lemma_idx_count_remove(
                                                routes_before[from_idx as int].visits@,
                                                visit_pos as int,
                                                i,
                                            );
                                            lemma_idx_count_insert(
                                                routes_before[from_idx as int].visits@.remove(
                                                    visit_pos as int,
                                                ),
                                                actual as int,
                                                vi,
                                                i,
                                            );
                                        }
                                        assert forall|k: int, i: int|
                                            #![trigger idx_count(routes@[k].visits@, i)]
                                            0 <= k < routes@.len() && 0 <= i < visits@.len()
                                            implies idx_count(routes@[k].visits@, i) == idx_count(
                                            old(routes)@[k].visits@,
                                            i,
                                        ) by {
                                            if k == from_idx as int {
                                                lemma_idx_count_remove(
                                                    routes_before[from_idx as int].visits@,
                                                    visit_pos as int,
                                                    i,
                                                );
                                                lemma_idx_count_insert(
                                                    routes_before[from_idx as int].visits@.remove(
                                                        visit_pos as int,
                                                    ),
                                                    actual as int,
                                                    vi,
                                                    i,
                                                );
                                            }
                                        }
                                        assert(relocate_committed(
                                            availability,
                                            ctx,
                                            old(routes)@,
                                            routes@,
                                            cand.0,
                                            cand.1,
                                            cand.2,
                                            cand.3,
                                        )) by {
                                            assert(routes@[from_idx as int].visitor_index
                                                == from_idx as int);
                                            assert(routes@ == routes_before.update(
                                                from_idx as int,
                                                routes@[from_idx as int],
                                            ));
                                        }
                                    }
                                    return true;
                                }
                                proof {
                                    assert(!relocate_improves(
                                        availability,
                                        ctx,
                                        routes@,
                                        cand.0,
                                        cand.1,
                                        cand.2,
                                        cand.3,
                                    ));
                                    lemma_relocate_cutoff_step(
                                        availability,
                                        ctx,
                                        routes@,
                                        cand.0,
                                        cand.1,
                                        cand.2,
                                        cand.3,
                                    );
                                }
                            },
                            None => {
                                proof {
                                    assert(!relocate_improves(
                                        availability,
                                        ctx,
                                        routes@,
                                        cand.0,
                                        cand.1,
                                        cand.2,
                                        cand.3,
                                    ));
                                    lemma_relocate_cutoff_step(
                                        availability,
                                        ctx,
                                        routes@,
                                        cand.0,
                                        cand.1,
                                        cand.2,
                                        cand.3,
                                    );
                                }
                            },
                        }
                    } else {
                        // Different routes: schedule both changed routes and
                        // accept when the global total strictly drops.
                        let mut to_candidate = copy_indices(&routes[to_idx].visits);
                        to_candidate.insert(insert_pos, vi);
                        proof {
                            routes@[to_idx as int].visits@.insert_ensures(insert_pos as int, vi);
                            assert forall|q: int|
                                0 <= q < to_candidate@.len() implies (#[trigger] to_candidate@[q])
                                < visits@.len() by {
                                if q < insert_pos {
                                } else if q == insert_pos {
                                } else {
                                    assert(to_candidate@[q] == routes@[to_idx as int].visits@[q
                                        - 1]);
                                }
                            }
                            assert forall|q: int|
                                0 <= q < from_candidate@.len() implies (
                            #[trigger] from_candidate@[q]) < visits@.len() by {
                                if q < visit_pos {
                                } else {
                                    assert(from_candidate@[q] == routes@[from_idx as int].visits@[q
                                        + 1]);
                                }
                            }
                            assert(ctx.vrows[from_idx as int] == (match vrows@[from_idx as int] {
                                Some(u) => Some(u as int),
                                None => None,
                            }));
                            assert(ctx.vrows[to_idx as int] == (match vrows@[to_idx as int] {
                                Some(u) => Some(u as int),
                                None => None,
                            }));
                            assert(ctx.visitors[from_idx as int] == visitors@[from_idx as int]);
                            assert(ctx.visitors[to_idx as int] == visitors@[to_idx as int]);
                            assert(useq(to_candidate@) =~= useq(
                                routes@[to_idx as int].visits@,
                            ).insert(insert_pos as int, vi as int));
                        }
                        let from_sched = crate::schedule::compute_schedule(
                            service_date,
                            &visitors[from_idx].id,
                            vrows[from_idx],
                            &from_candidate,
                            visits,
                            rows,
                            availability,
                            matrix,
                            options,
                        );
                        proof {
                            assert((match from_sched {
                                Some(p0) => spec_move_from(
                                    availability,
                                    ctx,
                                    routes@,
                                    cand.0,
                                    cand.1,
                                    cand.2,
                                    cand.3,
                                ) == Some((wins(p0.0@), p0.1 as int)),
                                None => spec_move_from(
                                    availability,
                                    ctx,
                                    routes@,
                                    cand.0,
                                    cand.1,
                                    cand.2,
                                    cand.3,
                                ) is None,
                            }));
                        }
                        match from_sched {
                            Some((from_ws, from_cost)) => {
                                let to_sched = crate::schedule::compute_schedule(
                                    service_date,
                                    &visitors[to_idx].id,
                                    vrows[to_idx],
                                    &to_candidate,
                                    visits,
                                    rows,
                                    availability,
                                    matrix,
                                    options,
                                );
                                proof {
                                    assert((match to_sched {
                                        Some(p0) => spec_move_to(
                                            availability,
                                            ctx,
                                            routes@,
                                            cand.0,
                                            cand.1,
                                            cand.2,
                                            cand.3,
                                        ) == Some((wins(p0.0@), p0.1 as int)),
                                        None => spec_move_to(
                                            availability,
                                            ctx,
                                            routes@,
                                            cand.0,
                                            cand.1,
                                            cand.2,
                                            cand.3,
                                        ) is None,
                                    }));
                                }
                                match to_sched {
                                    Some((to_ws, to_cost)) => {
                                        let from_cost_old = routes[from_idx].total_travel_time;
                                        let to_cost_old = routes[to_idx].total_travel_time;
                                        proof {
                                            lemma_sum_costs_pair(
                                                routes@,
                                                from_idx as int,
                                                to_idx as int,
                                            );
                                        }
                                        let others: u128 = total - from_cost_old as u128
                                            - to_cost_old as u128;
                                        if (from_cost as u128) + (to_cost as u128) + others
                                            < total {
                                            proof {
                                                assert(relocate_improves(
                                                    availability,
                                                    ctx,
                                                    routes@,
                                                    cand.0,
                                                    cand.1,
                                                    cand.2,
                                                    cand.3,
                                                ));
                                                assert forall|q: int|
                                                    0 <= q < from_candidate@.len()
                                                    implies route_visit_facts(
                                                    ctx,
                                                    routes@[from_idx as int],
                                                    #[trigger] from_candidate@[q],
                                                ) by {
                                                    if q < visit_pos {
                                                    } else {
                                                        assert(from_candidate@[q]
                                                            == routes@[from_idx as int].visits@[q
                                                            + 1]);
                                                    }
                                                }
                                                assert forall|q: int|
                                                    0 <= q < to_candidate@.len()
                                                    implies route_visit_facts(
                                                    ctx,
                                                    routes@[to_idx as int],
                                                    #[trigger] to_candidate@[q],
                                                ) by {
                                                    if q < insert_pos {
                                                    } else if q == insert_pos {
                                                        assert(to_candidate@[q] == vi);
                                                        assert(!spec_visitor_pinned(
                                                            ctx.visits[vi as int],
                                                        ));
                                                        assert(route_visit_facts(
                                                            ctx,
                                                            routes@[from_idx as int],
                                                            vi,
                                                        ));
                                                    } else {
                                                        assert(to_candidate@[q]
                                                            == routes@[to_idx as int].visits@[q
                                                            - 1]);
                                                    }
                                                }
                                            }
                                            proof {
                                                let segs_to = availability.spec_availability(
                                                    visitors@[to_idx as int].id@,
                                                    service_date as int,
                                                )->Some_0;
                                                assert forall|j: int|
                                                    0 <= j < useq(to_candidate@).len() implies 0 <= (
                                                #[trigger] useq(to_candidate@)[j])
                                                    < visits@.len() by {
                                                    assert(useq(to_candidate@)[j]
                                                        == to_candidate@[j] as int);
                                                }
                                                crate::schedule::lemma_windows_len(
                                                    visits@,
                                                    segs_to,
                                                    useq(to_candidate@),
                                                    wins(to_ws@),
                                                );
                                            }
                                            let newfrom = RouteState {
                                                visitor_index: from_idx,
                                                visits: from_candidate,
                                                estimated_windows: from_ws,
                                                total_travel_time: from_cost,
                                            };
                                            let newto = RouteState {
                                                visitor_index: to_idx,
                                                visits: to_candidate,
                                                estimated_windows: to_ws,
                                                total_travel_time: to_cost,
                                            };
                                            let ghost routes0 = routes@;
                                            routes[from_idx] = newfrom;
                                            let ghost routes1 = routes@;
                                            routes[to_idx] = newto;
                                            proof {
                                                lemma_sum_costs_update(
                                                    routes0,
                                                    from_idx as int,
                                                    routes1[from_idx as int],
                                                );
                                                lemma_sum_costs_update(
                                                    routes1,
                                                    to_idx as int,
                                                    routes@[to_idx as int],
                                                );
                                                assert(routes1[to_idx as int]
                                                    == routes0[to_idx as int]);
                                                assert forall|i: int|
                                                    #![trigger routes_count(routes@, i)]
                                                    routes_count(routes@, i) == routes_count(
                                                    old(routes)@,
                                                    i,
                                                ) by {
                                                    lemma_routes_count_update(
                                                        routes0,
                                                        from_idx as int,
                                                        routes1[from_idx as int],
                                                        i,
                                                    );
                                                    lemma_routes_count_update(
                                                        routes1,
                                                        to_idx as int,
                                                        routes@[to_idx as int],
                                                        i,
                                                    );
                                                    lemma_idx_count_remove(
                                                        routes0[from_idx as int].visits@,
                                                        visit_pos as int,
                                                        i,
                                                    );
                                                    lemma_idx_count_insert(
                                                        routes0[to_idx as int].visits@,
                                                        insert_pos as int,
                                                        vi,
                                                        i,
                                                    );
                                                }
                                                assert forall|k: int, i: int|
                                                    #![trigger idx_count(routes@[k].visits@, i)]
                                                    0 <= k < routes@.len() && 0 <= i
                                                    < visits@.len() && spec_visitor_pinned(
                                                    visits@[i],
                                                ) implies idx_count(routes@[k].visits@, i)
                                                    == idx_count(old(routes)@[k].visits@, i) by {
                                                    if k == from_idx as int {
                                                        lemma_idx_count_remove(
                                                            routes0[from_idx as int].visits@,
                                                            visit_pos as int,
                                                            i,
                                                        );
                                                        assert(vi as int != i);
                                                    } else if k == to_idx as int {
                                                        lemma_idx_count_insert(
                                                            routes0[to_idx as int].visits@,
                                                            insert_pos as int,
                                                            vi,
                                                            i,
                                                        );
                                                        assert(vi as int != i);
                                                    }
                                                }
                                                assert(relocate_committed(
                                                    availability,
                                                    ctx,
                                                    old(routes)@,
                                                    routes@,
                                                    cand.0,
                                                    cand.1,
                                                    cand.2,
                                                    cand.3,
                                                )) by {
                                                    assert(routes1[from_idx as int].visitor_index
                                                        == from_idx as int);
                                                    assert(routes@[to_idx as int].visitor_index
                                                        == to_idx as int);
                                                    assert(routes@ == routes0.update(
                                                        from_idx as int,
                                                        routes1[from_idx as int],
                                                    ).update(to_idx as int, routes@[to_idx as int]));
                                                }
                                            }
                                            return true;
                                        }
                                        proof {
                                            assert(!relocate_improves(
                                                availability,
                                                ctx,
                                                routes@,
                                                cand.0,
                                                cand.1,
                                                cand.2,
                                                cand.3,
                                            ));
                                            lemma_relocate_cutoff_step(
                                                availability,
                                                ctx,
                                                routes@,
                                                cand.0,
                                                cand.1,
                                                cand.2,
                                                cand.3,
                                            );
                                        }
                                    },
                                    None => {
                                        proof {
                                            assert(!relocate_improves(
                                                availability,
                                                ctx,
                                                routes@,
                                                cand.0,
                                                cand.1,
                                                cand.2,
                                                cand.3,
                                            ));
                                            lemma_relocate_cutoff_step(
                                                availability,
                                                ctx,
                                                routes@,
                                                cand.0,
                                                cand.1,
                                                cand.2,
                                                cand.3,
                                            );
                                        }
                                    },
                                }
                            },
                            None => {
                                proof {
                                    assert(!relocate_improves(
                                        availability,
                                        ctx,
                                        routes@,
                                        cand.0,
                                        cand.1,
                                        cand.2,
                                        cand.3,
                                    ));
                                    lemma_relocate_cutoff_step(
                                        availability,
                                        ctx,
                                        routes@,
                                        cand.0,
                                        cand.1,
                                        cand.2,
                                        cand.3,
                                    );
                                }
                            },
                        }
                    }
                    insert_pos = insert_pos + 1;
                }
                proof {
                    assert forall|f2: int, v2: int, t2: int, p2: int|
                        #![trigger relocate_admissible(ctx, routes@, f2, v2, t2, p2)]
                        relocate_admissible(ctx, routes@, f2, v2, t2, p2) && lex4_before(
                            f2,
                            v2,
                            t2,
                            p2,
                            from_idx as int,
                            visit_pos as int,
                            to_idx as int + 1,
                            0,
                        ) implies !relocate_improves(availability, ctx, routes@, f2, v2, t2, p2) by {
                        if !lex4_before(
                            f2,
                            v2,
                            t2,
                            p2,
                            from_idx as int,
                            visit_pos as int,
                            to_idx as int,
                            insert_pos as int,
                        ) {
                            assert(f2 == from_idx as int && v2 == visit_pos as int && t2
                                == to_idx as int && p2 >= insert_pos as int);
                            assert(!relocate_admissible(ctx, routes@, f2, v2, t2, p2));
                        }
                    }
                }
                to_idx = to_idx + 1;
            }
            proof {
                assert forall|f2: int, v2: int, t2: int, p2: int|
                    #![trigger relocate_admissible(ctx, routes@, f2, v2, t2, p2)]
                    relocate_admissible(ctx, routes@, f2, v2, t2, p2) && lex4_before(
                        f2,
                        v2,
                        t2,
                        p2,
                        from_idx as int,
                        visit_pos as int + 1,
                        0,
                        0,
                    ) implies !relocate_improves(availability, ctx, routes@, f2, v2, t2, p2) by {
                    if !lex4_before(
                        f2,
                        v2,
                        t2,
                        p2,
                        from_idx as int,
                        visit_pos as int,
                        to_idx as int,
                        0,
                    ) {
                        assert(f2 == from_idx as int && v2 == visit_pos as int && t2
                            >= routes_n as int);
                        assert(!relocate_admissible(ctx, routes@, f2, v2, t2, p2));
                    }
                }
            }
            visit_pos = visit_pos + 1;
        }
        proof {
            assert forall|f2: int, v2: int, t2: int, p2: int|
                #![trigger relocate_admissible(ctx, routes@, f2, v2, t2, p2)]
                relocate_admissible(ctx, routes@, f2, v2, t2, p2) && lex4_before(
                    f2,
                    v2,
                    t2,
                    p2,
                    from_idx as int + 1,
                    0,
                    0,
                    0,
                ) implies !relocate_improves(availability, ctx, routes@, f2, v2, t2, p2) by {
                if !lex4_before(f2, v2, t2, p2, from_idx as int, visit_pos as int, 0, 0) {
                    assert(f2 == from_idx as int && v2 >= from_len as int);
                    assert(!relocate_admissible(ctx, routes@, f2, v2, t2, p2));
                }
            }
        }
        from_idx = from_idx + 1;
    }
    proof {
        assert forall|f2: int, v2: int, t2: int, p2: int|
            #![trigger relocate_admissible(ctx, routes@, f2, v2, t2, p2)]
            relocate_admissible(ctx, routes@, f2, v2, t2, p2) implies !relocate_improves(
            availability,
            ctx,
            routes@,
            f2,
            v2,
            t2,
            p2,
        ) by {
            assert(lex4_before(f2, v2, t2, p2, routes_n as int, 0, 0, 0));
        }
    }
    false
}

/// Extending the scan cutoff by one candidate: everything before the new
/// cutoff was either before the old one or is the candidate itself.
pub proof fn lemma_relocate_cutoff_step<A: AvailabilityProvider>(
    a: &A,
    ctx: SolveCtx,
    routes: Seq<RouteState>,
    f: int,
    v: int,
    t: int,
    p: int,
)
    requires
        forall|f2: int, v2: int, t2: int, p2: int|
            #![trigger relocate_admissible(ctx, routes, f2, v2, t2, p2)]
            relocate_admissible(ctx, routes, f2, v2, t2, p2) && lex4_before(f2, v2, t2, p2, f, v, t, p)
                ==> !relocate_improves(a, ctx, routes, f2, v2, t2, p2),
        relocate_admissible(ctx, routes, f, v, t, p) ==> !relocate_improves(a, ctx, routes, f, v, t, p),
    ensures
        forall|f2: int, v2: int, t2: int, p2: int|
            #![trigger relocate_admissible(ctx, routes, f2, v2, t2, p2)]
            relocate_admissible(ctx, routes, f2, v2, t2, p2) && lex4_before(
                f2,
                v2,
                t2,
                p2,
                f,
                v,
                t,
                p + 1,
            ) ==> !relocate_improves(a, ctx, routes, f2, v2, t2, p2),
{
    assert forall|f2: int, v2: int, t2: int, p2: int|
        #![trigger relocate_admissible(ctx, routes, f2, v2, t2, p2)]
        relocate_admissible(ctx, routes, f2, v2, t2, p2) && lex4_before(f2, v2, t2, p2, f, v, t, p + 1)
        implies !relocate_improves(a, ctx, routes, f2, v2, t2, p2) by {
        if !lex4_before(f2, v2, t2, p2, f, v, t, p) {
            assert(f2 == f && v2 == v && t2 == t && p2 == p);
        }
    }
}

/// One construction step extends the certified trace: if the state so
/// far is reachable from the seeded state, so is the state after the
/// step.
pub proof fn lemma_construction_extend<A: AvailabilityProvider>(
    a: &A,
    ctx: SolveCtx,
    free: Seq<int>,
    g: int,
    routes_s: Seq<RouteState>,
    un_s: Seq<(usize, UnassignedReason)>,
    routes0: Seq<RouteState>,
    un0: Seq<(usize, UnassignedReason)>,
    routes1: Seq<RouteState>,
    un1: Seq<(usize, UnassignedReason)>,
)
    requires
        0 <= g < free.len(),
        construction_step(a, ctx, routes0, un0, routes1, un1, free[g]),
        forall|re: Seq<RouteState>, ue: Seq<(usize, UnassignedReason)>|
            #![trigger construction_ok(a, ctx, free, g, routes0, un0, re, ue)]
            construction_ok(a, ctx, free, g, routes0, un0, re, ue) ==> construction_ok(
                a,
                ctx,
                free,
                0,
                routes_s,
                un_s,
                re,
                ue,
            ),
    ensures
        forall|re: Seq<RouteState>, ue: Seq<(usize, UnassignedReason)>|
            #![trigger construction_ok(a, ctx, free, g + 1, routes1, un1, re, ue)]
            construction_ok(a, ctx, free, g + 1, routes1, un1, re, ue) ==> construction_ok(
                a,
                ctx,
                free,
                0,
                routes_s,
                un_s,
                re,
                ue,
            ),
{
    assert forall|re: Seq<RouteState>, ue: Seq<(usize, UnassignedReason)>|
        construction_ok(a, ctx, free, g + 1, routes1, un1, re, ue) implies construction_ok(
        a,
        ctx,
        free,
        0,
        routes_s,
        un_s,
        re,
        ue,
    ) by {
        assert(construction_step(a, ctx, routes0, un0, routes1, un1, free[g]));
        assert(construction_ok(a, ctx, free, g, routes0, un0, re, ue));
    }
}

/// The per-visit facts `route_ok` quantifies over, for a visit sitting on
/// the given route: valid index, right date, pinned here or capable here.
pub open spec fn route_visit_facts(ctx: SolveCtx, route: RouteState, x: usize) -> bool {
    &&& x < ctx.visits.len()
    &&& !spec_wrong_date(ctx.visits[x as int], ctx.date)
    &&& (spec_visitor_pinned(ctx.visits[x as int]) ==> (match ctx.visits[x as int].pinned_visitor {
        Some(pv) => pv@ == ctx.visitors[route.visitor_index as int].id@,
        None => false,
    }))
    &&& (!spec_visitor_pinned(ctx.visits[x as int]) ==> spec_capable(
        ctx.visitors[route.visitor_index as int],
        ctx.visits[x as int],
    ))
}

/// Every element of a same-route remove-and-reinsert candidate sits in
/// the original order.
pub proof fn lemma_relocate_member(s: Seq<usize>, visit_pos: int, actual: int, vi: usize, q: int)
    requires
        0 <= visit_pos < s.len(),
        s[visit_pos] == vi,
        0 <= actual <= s.len() - 1,
        0 <= q < s.remove(visit_pos).insert(actual, vi).len(),
    ensures
        exists|q0: int|
            0 <= q0 < s.len() && s.remove(visit_pos).insert(actual, vi)[q] == #[trigger] s[q0],
{
    let removed = s.remove(visit_pos);
    s.remove_ensures(visit_pos);
    removed.insert_ensures(actual, vi);
    let c = removed.insert(actual, vi);
    if q == actual {
        assert(c[q] == s[visit_pos]);
    } else {
        let qr: int = if q < actual {
            q
        } else {
            q - 1
        };
        assert(c[q] == removed[qr]);
        if qr < visit_pos {
            assert(removed[qr] == s[qr]);
        } else {
            assert(removed[qr] == s[qr + 1]);
        }
    }
}

/// Run improvement passes until neither 2-opt nor relocate improves, or
/// the iteration cap is reached; returns the number of passes run. The
/// sum of route costs never increases, every route invariant is
/// preserved, no visit joins or leaves the routes, and pinned visits
/// stay on their route: the loop only reorders and redistributes free
/// visits. With a zero cap the routes are untouched, and an early stop
/// means the final routes admit no improving 2-opt or relocate move.
#[verifier::rlimit(60)]
#[verifier::loop_isolation(false)]
pub fn local_search<A: AvailabilityProvider>(
    routes: &mut Vec<RouteState>,
    service_date: i64,
    visits: &Vec<Visit>,
    visitors: &Vec<Visitor>,
    rows: &Vec<usize>,
    vrows: &Vec<Option<usize>>,
    availability: &A,
    matrix: &Vec<Vec<u32>>,
    options: &SolveOptions,
) -> (passes: usize)
    requires
        ctx_ok(
            availability,
            mk_ctx(visits@, visitors@, service_date as int, rows@, vrows@, matrix@, *options),
        ),
        old(routes)@.len() == visitors@.len(),
        forall|k: int|
            0 <= k < old(routes)@.len() ==> (#[trigger] old(routes)@[k]).visitor_index == k
                && route_ok(
                availability,
                mk_ctx(visits@, visitors@, service_date as int, rows@, vrows@, matrix@, *options),
                old(routes)@[k],
            ),
    ensures
        final(routes)@.len() == old(routes)@.len(),
        forall|k: int|
            0 <= k < final(routes)@.len() ==> (#[trigger] final(routes)@[k]).visitor_index == k
                && route_ok(
                availability,
                mk_ctx(visits@, visitors@, service_date as int, rows@, vrows@, matrix@, *options),
                final(routes)@[k],
            ),
        forall|i: int|
            #![trigger routes_count(final(routes)@, i)]
            routes_count(final(routes)@, i) == routes_count(old(routes)@, i),
        forall|k: int, i: int|
            #![trigger idx_count(final(routes)@[k].visits@, i)]
            0 <= k < final(routes)@.len() && 0 <= i < visits@.len() && spec_visitor_pinned(
                visits@[i],
            ) ==> idx_count(final(routes)@[k].visits@, i) == idx_count(
                old(routes)@[k].visits@,
                i,
            ),
        sum_costs(final(routes)@) <= sum_costs(old(routes)@),
        passes <= options.local_search_iterations,
        passes == 0 ==> final(routes)@ == old(routes)@,
        passes < options.local_search_iterations ==> ({
            let ctx = mk_ctx(
                visits@,
                visitors@,
                service_date as int,
                rows@,
                vrows@,
                matrix@,
                *options,
            );
            &&& (forall|k: int|
                0 <= k < final(routes)@.len() ==> two_opt_stagnant(
                    availability,
                    ctx,
                    #[trigger] final(routes)@[k],
                ))
            &&& relocate_stagnant(availability, ctx, final(routes)@)
        }),
{
    let ghost ctx = mk_ctx(visits@, visitors@, service_date as int, rows@, vrows@, matrix@, *options);
    let mut iteration: usize = 0;
    let mut done = false;
    while iteration < options.local_search_iterations && !done
        invariant
            routes@.len() == old(routes)@.len(),
            forall|k: int|
                0 <= k < routes@.len() ==> (#[trigger] routes@[k]).visitor_index == k && route_ok(
                    availability,
                    ctx,
                    routes@[k],
                ),
            forall|i: int|
                #![trigger routes_count(routes@, i)]
                routes_count(routes@, i) == routes_count(old(routes)@, i),
            forall|k: int, i: int|
                #![trigger idx_count(routes@[k].visits@, i)]
                0 <= k < routes@.len() && 0 <= i < visits@.len() && spec_visitor_pinned(
                    visits@[i],
                ) ==> idx_count(routes@[k].visits@, i) == idx_count(old(routes)@[k].visits@, i),
            sum_costs(routes@) <= sum_costs(old(routes)@),
            iteration <= options.local_search_iterations,
            iteration == 0 ==> routes@ == old(routes)@,
            done ==> (forall|k: int|
                0 <= k < routes@.len() ==> two_opt_stagnant(availability, ctx, #[trigger] routes@[k]))
                && relocate_stagnant(availability, ctx, routes@),
        decreases options.local_search_iterations - iteration,
    {
        let mut improved = false;
        let ghost pass_start = routes@;
        let mut rix: usize = 0;
        while rix < routes.len()
            invariant
                rix <= routes@.len(),
                routes@.len() == old(routes)@.len(),
                forall|k: int|
                    0 <= k < routes@.len() ==> (#[trigger] routes@[k]).visitor_index == k
                        && route_ok(availability, ctx, routes@[k]),
                forall|i: int|
                    #![trigger routes_count(routes@, i)]
                    routes_count(routes@, i) == routes_count(old(routes)@, i),
                forall|k: int, i: int|
                    #![trigger idx_count(routes@[k].visits@, i)]
                    0 <= k < routes@.len() && 0 <= i < visits@.len() && spec_visitor_pinned(
                        visits@[i],
                    ) ==> idx_count(routes@[k].visits@, i) == idx_count(
                        old(routes)@[k].visits@,
                        i,
                    ),
                sum_costs(routes@) <= sum_costs(old(routes)@),
                !improved ==> routes@ == pass_start,
                !improved ==> (forall|k: int|
                    0 <= k < rix ==> two_opt_stagnant(availability, ctx, #[trigger] routes@[k])),
            decreases routes@.len() - rix,
        {
            let ghost before = routes@;
            let imp = two_opt_improve(
                &mut routes[rix],
                service_date,
                visits,
                visitors,
                rows,
                vrows,
                availability,
                matrix,
                options,
            );
            proof {
                assert(routes@ == before.update(rix as int, routes@[rix as int]));
                lemma_sum_costs_update(before, rix as int, routes@[rix as int]);
                assert forall|i: int|
                    #![trigger routes_count(routes@, i)]
                    routes_count(routes@, i) == routes_count(old(routes)@, i) by {
                    lemma_routes_count_update(before, rix as int, routes@[rix as int], i);
                }
                assert forall|k: int, i: int|
                    #![trigger idx_count(routes@[k].visits@, i)]
                    0 <= k < routes@.len() && 0 <= i < visits@.len() && spec_visitor_pinned(
                    visits@[i],
                ) implies idx_count(routes@[k].visits@, i) == idx_count(
                    old(routes)@[k].visits@,
                    i,
                ) by {
                    if k == rix as int {
                        assert(idx_count(routes@[k].visits@, i) == idx_count(
                            before[k].visits@,
                            i,
                        ));
                    }
                }
                if !imp {
                    assert(routes@[rix as int] == before[rix as int]);
                    assert(routes@ =~= before);
                }
            }
            if imp {
                improved = true;
            }
            rix = rix + 1;
        }
        let ghost before_relocate = routes@;
        let imp2 = relocate_improve(
            routes,
            service_date,
            visits,
            visitors,
            rows,
            vrows,
            availability,
            matrix,
            options,
        );
        if imp2 {
            improved = true;
        }
        iteration = iteration + 1;
        if !improved {
            proof {
                assert(routes@ == before_relocate);
                assert(relocate_stagnant(availability, ctx, routes@));
            }
            done = true;
        }
    }
    iteration
}

// ------------------------------------------------------------------
// The solve pipeline
// ------------------------------------------------------------------

/// Every entry of a duration matrix stays within the solver's time bound.
pub open spec fn matrix_bounded(m: Seq<Seq<u32>>) -> bool {
    forall|i: int, j: int|
        0 <= i < m.len() && 0 <= j < (#[trigger] m[i]).len() ==> #[trigger] m[i][j] <= MAX_TIME
}

/// The solving context is the one the inputs determine: the matrix is the
/// provider's answer for the collected locations, and the row tables point
/// each visit and visitor at its own location's row.
pub open spec fn ctx_from_inputs<M: DistanceMatrixProvider>(
    m: &M,
    ctx: SolveCtx,
    visits: Seq<Visit>,
    visitors: Seq<Visitor>,
    date: int,
    options: SolveOptions,
) -> bool {
    let locs = crate::geo::spec_locations(visits, visitors);
    &&& ctx.visits == visits
    &&& ctx.visitors == visitors
    &&& ctx.date == date
    &&& ctx.target_weight == options.target_time_weight as int
    &&& ctx.reassignment_penalty == options.reassignment_penalty as int
    &&& ctx.mat == m.spec_matrix_for(locs)
    &&& ctx.rows.len() == visits.len()
    &&& forall|i: int|
        0 <= i < visits.len() ==> 0 <= #[trigger] ctx.rows[i] < locs.len() && locs[ctx.rows[i]]
            == visits[i].location
    &&& ctx.vrows.len() == visitors.len()
    &&& forall|k: int|
        0 <= k < visitors.len() ==> (match (#[trigger] visitors[k]).start_location {
            Some(l) => (match ctx.vrows[k] {
                Some(vr) => 0 <= vr < locs.len() && locs[vr] == l,
                None => false,
            }),
            None => ctx.vrows[k] is None,
        })
}

/// The output lists exactly the internal routes: same visitors in order,
/// the ids of the same visits in the same order, the same windows, the
/// same costs.
pub open spec fn reflects_routes(
    rr: Seq<RouteResult>,
    st: Seq<RouteState>,
    visits: Seq<Visit>,
    visitors: Seq<Visitor>,
) -> bool {
    &&& rr.len() == st.len()
    &&& forall|k: int|
        0 <= k < st.len() ==> {
            let q = #[trigger] rr[k];
            let rt = st[k];
            &&& q.visitor_id@ == visitors[rt.visitor_index as int].id@
            &&& q.visit_ids@.len() == rt.visits@.len()
            &&& (forall|j: int|
                0 <= j < rt.visits@.len() ==> (#[trigger] q.visit_ids@[j])@ == visits[rt.visits@[j] as int].id@)
            &&& q.estimated_windows@ == rt.estimated_windows@
            &&& q.total_travel_time == rt.total_travel_time
        }
}

/// The output diagnostics list exactly the internal unassigned entries.
pub open spec fn reflects_unassigned(
    ru: Seq<UnassignedVisit>,
    un: Seq<(usize, UnassignedReason)>,
    visits: Seq<Visit>,
) -> bool {
    &&& ru.len() == un.len()
    &&& forall|e: int|
        0 <= e < un.len() ==> (#[trigger] un[e]).0 < visits.len() && (#[trigger] ru[e]).visit_id@
            == visits[un[e].0 as int].id@ && ru[e].reason == un[e].1
}

/// Every reported reason is right for its visit: `WrongDate` exactly for a
/// pinned-date mismatch; `MissingPinnedVisitor` exactly for a pinned visit
/// without a visitor; `NoCapableVisitor` only when no capable visitor is
/// available that day; `NoFeasibleWindow` only for pinned visits that
/// could not be scheduled on their visitor or free visits that had a
/// capable, available visitor yet no feasible slot.
pub open spec fn reasons_ok<A: AvailabilityProvider>(
    a: &A,
    ctx: SolveCtx,
    un: Seq<(usize, UnassignedReason)>,
) -> bool {
    forall|e: int|
        0 <= e < un.len() ==> {
            let i = (#[trigger] un[e]).0 as int;
            &&& un[e].0 < ctx.visits.len()
            &&& (match un[e].1 {
                UnassignedReason::WrongDate => spec_wrong_date(ctx.visits[i], ctx.date),
                UnassignedReason::MissingPinnedVisitor => spec_missing_pin(ctx.visits[i], ctx.date),
                UnassignedReason::NoCapableVisitor => spec_free_class(ctx.visits[i], ctx.date)
                    && !spec_any_capable_available(a, ctx.visitors, ctx.visits[i], ctx.date),
                UnassignedReason::NoFeasibleWindow => spec_pinned_class(ctx.visits[i], ctx.date)
                    || (spec_free_class(ctx.visits[i], ctx.date) && spec_any_capable_available(
                    a,
                    ctx.visitors,
                    ctx.visits[i],
                    ctx.date,
                )),
            })
        }
}

/// Every visit on a wrong date, and every pinned visit without a pinned
/// visitor, is reported with its reason.
pub open spec fn diagnostics_complete(
    ctx: SolveCtx,
    un: Seq<(usize, UnassignedReason)>,
) -> bool {
    &&& forall|i: int|
        0 <= i < ctx.visits.len() && spec_wrong_date(#[trigger] ctx.visits[i], ctx.date)
            ==> exists|e: int|
            0 <= e < un.len() && (#[trigger] un[e]).0 as int == i && un[e].1
                == UnassignedReason::WrongDate
    &&& forall|i: int|
        0 <= i < ctx.visits.len() && spec_missing_pin(#[trigger] ctx.visits[i], ctx.date)
            ==> exists|e: int|
            0 <= e < un.len() && (#[trigger] un[e]).0 as int == i && un[e].1
                == UnassignedReason::MissingPinnedVisitor
}

/// The per-route shape the seeding phase leaves behind: visitor `k`'s
/// route holds exactly the visits pinned to it, in input order, with
/// their schedule, when that seed schedule is feasible; otherwise it is
/// empty and idle (its pinned visits having been reported).
pub open spec fn seeded_route_state<A: AvailabilityProvider>(
    a: &A,
    ctx: SolveCtx,
    r: RouteState,
    k: int,
) -> bool {
    &&& r.visitor_index == k
    &&& useq(r.visits@) == (if seed_feasible(a, ctx, k) {
        spec_pinned_indices(ctx.visits, ctx.date, ctx.visitors[k].id@)
    } else {
        Seq::<int>::empty()
    })
    &&& (seed_feasible(a, ctx, k) ==> spec_schedule(
        a.spec_availability(ctx.visitors[k].id@, ctx.date),
        ctx.visitors[k].id@,
        ctx.vrows[k],
        spec_pinned_indices(ctx.visits, ctx.date, ctx.visitors[k].id@),
        ctx.visits,
        ctx.rows,
        ctx.mat,
        ctx.target_weight,
        ctx.reassignment_penalty,
    ) == Some((wins(r.estimated_windows@), r.total_travel_time as int)))
    &&& (!seed_feasible(a, ctx, k) ==> r.estimated_windows@.len() == 0 && r.total_travel_time == 0)
}

/// The whole seeded state: one such route per visitor, in order.
pub open spec fn seeded_routes_ok<A: AvailabilityProvider>(
    a: &A,
    ctx: SolveCtx,
    seeded: Seq<RouteState>,
) -> bool {
    &&& seeded.len() == ctx.visitors.len()
    &&& forall|k: int| 0 <= k < seeded.len() ==> seeded_route_state(a, ctx, #[trigger] seeded[k], k)
}

/// Some capable route admits a feasible insertion of visit `vi`.
pub open spec fn any_feasible_insertion<A: AvailabilityProvider>(
    a: &A,
    ctx: SolveCtx,
    routes: Seq<RouteState>,
    vi: int,
) -> bool {
    exists|k: int, p: int|
        #![trigger spec_insertion(a, ctx, routes[k], vi, p)]
        0 <= k < routes.len() && 0 <= p <= routes[k].visits@.len() && spec_capable(
            ctx.visitors[k],
            ctx.visits[vi],
        ) && spec_insertion(a, ctx, routes[k], vi, p) is Some
}

/// How processing one free visit transforms the construction state: a
/// visit nobody is capable of is reported at once; otherwise, if any
/// capable route admits a feasible insertion, the cheapest one (first on
/// ties, routes then positions) is committed; otherwise the visit is
/// reported, `NoFeasibleWindow` when a capable visitor was available
/// that day and `NoCapableVisitor` when not.
pub open spec fn construction_step<A: AvailabilityProvider>(
    a: &A,
    ctx: SolveCtx,
    routes0: Seq<RouteState>,
    un0: Seq<(usize, UnassignedReason)>,
    routes1: Seq<RouteState>,
    un1: Seq<(usize, UnassignedReason)>,
    vi: int,
) -> bool {
    if !spec_any_capable(ctx.visitors, ctx.visits[vi]) {
        &&& routes1 == routes0
        &&& un1 == un0.push((vi as usize, UnassignedReason::NoCapableVisitor))
    } else if any_feasible_insertion(a, ctx, routes0, vi) {
        &&& un1 == un0
        &&& exists|bk: int, bp: int, nr: RouteState|
            #![trigger spec_insertion(a, ctx, routes0[bk], vi, bp), routes0.update(bk, nr)]
            {
                &&& 0 <= bk < routes0.len()
                &&& 0 <= bp <= routes0[bk].visits@.len()
                &&& spec_capable(ctx.visitors[bk], ctx.visits[vi])
                &&& nr.visitor_index == bk
                &&& useq(nr.visits@) == useq(routes0[bk].visits@).insert(bp, vi)
                &&& spec_insertion(a, ctx, routes0[bk], vi, bp) == Some(
                    (wins(nr.estimated_windows@), nr.total_travel_time as int),
                )
                &&& (forall|k2: int, p2: int|
                    #![trigger spec_insertion(a, ctx, routes0[k2], vi, p2)]
                    0 <= k2 < routes0.len() && 0 <= p2 <= routes0[k2].visits@.len()
                        && spec_capable(ctx.visitors[k2], ctx.visits[vi]) ==> (
                    match spec_insertion(a, ctx, routes0[k2], vi, p2) {
                        Some(r2) => r2.1 >= nr.total_travel_time as int && (lex_before(
                            k2,
                            p2,
                            bk,
                            bp,
                        ) ==> r2.1 > nr.total_travel_time as int),
                        None => true,
                    }))
                &&& routes1 == routes0.update(bk, nr)
            }
    } else {
        &&& routes1 == routes0
        &&& un1 == un0.push(
            (
                vi as usize,
                if spec_any_capable_available(a, ctx.visitors, ctx.visits[vi], ctx.date) {
                    UnassignedReason::NoFeasibleWindow
                } else {
                    UnassignedReason::NoCapableVisitor
                },
            ),
        )
    }
}

/// The construction phase as a relation: from state `(routes0, un0)`,
/// processing the free visits from position `g` on, step by step, ends
/// in state `(routes_end, un_end)`. Each step is determined by the state
/// at its turn, so this pins the whole phase.
pub open spec fn construction_ok<A: AvailabilityProvider>(
    a: &A,
    ctx: SolveCtx,
    free: Seq<int>,
    g: int,
    routes0: Seq<RouteState>,
    un0: Seq<(usize, UnassignedReason)>,
    routes_end: Seq<RouteState>,
    un_end: Seq<(usize, UnassignedReason)>,
) -> bool
    decreases free.len() - g,
{
    if g < 0 || g >= free.len() {
        routes_end == routes0 && un_end == un0
    } else {
        exists|routes1: Seq<RouteState>, un1: Seq<(usize, UnassignedReason)>|
            #![trigger construction_step(a, ctx, routes0, un0, routes1, un1, free[g])]
            construction_step(a, ctx, routes0, un0, routes1, un1, free[g]) && construction_ok(
                a,
                ctx,
                free,
                g + 1,
                routes1,
                un1,
                routes_end,
                un_end,
            )
    }
}

/// The complete warrant a solve hands back with its result: an internal
/// assignment and diagnostic list that the output reflects verbatim, in
/// which every route keeps the route invariant, every input visit is
/// placed exactly once across routes and diagnostics, every reason is
/// right, and the two input-only reasons are reported exhaustively.
pub open spec fn solve_certified<A: AvailabilityProvider>(
    a: &A,
    ctx: SolveCtx,
    st: Seq<RouteState>,
    un: Seq<(usize, UnassignedReason)>,
    r: PlannerResult,
) -> bool {
    &&& st.len() == ctx.visitors.len()
    &&& reflects_routes(r.routes@, st, ctx.visits, ctx.visitors)
    &&& reflects_unassigned(r.unassigned@, un, ctx.visits)
    &&& forall|k: int|
        0 <= k < st.len() ==> (#[trigger] st[k]).visitor_index == k && route_ok(a, ctx, st[k])
    &&& forall|i: int|
        0 <= i < ctx.visits.len() ==> #[trigger] routes_count(st, i) + un_count(un, i) == 1
    &&& (forall|k: int, i: int|
        #![trigger seed_feasible(a, ctx, k), idx_count(st[k].visits@, i)]
        0 <= k < ctx.visitors.len() && 0 <= i < ctx.visits.len() && seed_feasible(a, ctx, k)
            && spec_pinned_to(ctx.visits[i], ctx.date, ctx.visitors[k].id@) ==> idx_count(
            st[k].visits@,
            i,
        ) == 1)
    &&& (exists|seeded: Seq<RouteState>, un_ins: Seq<(usize, UnassignedReason)>, mid: Seq<
        RouteState,
    >|
        #![trigger construction_ok(a, ctx, spec_free_indices(ctx.visits, ctx.date), 0, seeded, un_ins, mid, un)]
        {
            &&& seeded_routes_ok(a, ctx, seeded)
            &&& construction_ok(
                a,
                ctx,
                spec_free_indices(ctx.visits, ctx.date),
                0,
                seeded,
                un_ins,
                mid,
                un,
            )
            &&& mid.len() == st.len()
            &&& sum_costs(st) <= sum_costs(mid)
            &&& (forall|i: int|
                #![trigger routes_count(st, i)]
                routes_count(st, i) == routes_count(mid, i))
            &&& (forall|k: int, i: int|
                #![trigger idx_count(st[k].visits@, i)]
                0 <= k < st.len() && 0 <= i < ctx.visits.len() && spec_visitor_pinned(
                    ctx.visits[i],
                ) ==> idx_count(st[k].visits@, i) == idx_count(mid[k].visits@, i))
        })
    &&& reasons_ok(a, ctx, un)
    &&& diagnostics_complete(ctx, un)
}

/// Classify each visit by its pins: a pinned date different from the
/// service date is reported at once; a visitor pin without a visitor is
/// reported at once; the remaining visits are pinned (kept for seeding)
/// or free (listed for insertion in input order).
#[verifier::loop_isolation(false)]
fn classify(visits: &Vec<Visit>, service_date: i64) -> (r: (
    Vec<(usize, UnassignedReason)>,
    Vec<usize>,
))
    ensures
        ({
            let un = r.0@;
            let free = r.1@;
            &&& (forall|e: int|
                0 <= e < un.len() ==> (#[trigger] un[e]).0 < visits@.len() && (match un[e].1 {
                    UnassignedReason::WrongDate => spec_wrong_date(
                        visits@[un[e].0 as int],
                        service_date as int,
                    ),
                    UnassignedReason::MissingPinnedVisitor => spec_missing_pin(
                        visits@[un[e].0 as int],
                        service_date as int,
                    ),
                    _ => false,
                }))
            &&& (forall|i: int|
                0 <= i < visits@.len() ==> #[trigger] un_count(un, i) == (if spec_wrong_date(
                    visits@[i],
                    service_date as int,
                ) || spec_missing_pin(visits@[i], service_date as int) {
                    1int
                } else {
                    0int
                }))
            &&& (forall|i: int|
                !(0 <= i < visits@.len()) ==> #[trigger] un_count(un, i) == 0)
            &&& (forall|p: int|
                0 <= p < free.len() ==> (#[trigger] free[p]) < visits@.len() && spec_free_class(
                    visits@[free[p] as int],
                    service_date as int,
                ))
            &&& useq(free) == spec_free_indices(visits@, service_date as int)
            &&& (forall|i: int|
                #![trigger idx_count(free, i)]
                idx_count(free, i) == (if 0 <= i < visits@.len() && spec_free_class(
                    visits@[i],
                    service_date as int,
                ) {
                    1int
                } else {
                    0int
                }))
            &&& (forall|i: int|
                0 <= i < visits@.len() && spec_wrong_date(
                    #[trigger] visits@[i],
                    service_date as int,
                ) ==> exists|e: int|
                    0 <= e < un.len() && (#[trigger] un[e]).0 as int == i && un[e].1
                        == UnassignedReason::WrongDate)
            &&& (forall|i: int|
                0 <= i < visits@.len() && spec_missing_pin(
                    #[trigger] visits@[i],
                    service_date as int,
                ) ==> exists|e: int|
                    0 <= e < un.len() && (#[trigger] un[e]).0 as int == i && un[e].1
                        == UnassignedReason::MissingPinnedVisitor)
        }),
{
    let mut un: Vec<(usize, UnassignedReason)> = Vec::new();
    let mut free: Vec<usize> = Vec::new();
    let mut i: usize = 0;
    while i < visits.len()
        invariant
            i <= visits@.len(),
            forall|e: int|
                0 <= e < un@.len() ==> (#[trigger] un@[e]).0 < i && (match un@[e].1 {
                    UnassignedReason::WrongDate => spec_wrong_date(
                        visits@[un@[e].0 as int],
                        service_date as int,
                    ),
                    UnassignedReason::MissingPinnedVisitor => spec_missing_pin(
                        visits@[un@[e].0 as int],
                        service_date as int,
                    ),
                    _ => false,
                }),
            forall|i0: int|
                #![trigger un_count(un@, i0)]
                un_count(un@, i0) == (if 0 <= i0 < i && (spec_wrong_date(
                    visits@[i0],
                    service_date as int,
                ) || spec_missing_pin(visits@[i0], service_date as int)) {
                    1int
                } else {
                    0int
                }),
            useq(free@) == spec_free_prefix(visits@, service_date as int, i as int),
            forall|p: int|
                0 <= p < free@.len() ==> (#[trigger] free@[p]) < i && spec_free_class(
                    visits@[free@[p] as int],
                    service_date as int,
                ),
            forall|i0: int|
                #![trigger idx_count(free@, i0)]
                idx_count(free@, i0) == (if 0 <= i0 < i && spec_free_class(
                    visits@[i0],
                    service_date as int,
                ) {
                    1int
                } else {
                    0int
                }),
            forall|i0: int|
                0 <= i0 < i && spec_wrong_date(#[trigger] visits@[i0], service_date as int)
                    ==> exists|e: int|
                    0 <= e < un@.len() && (#[trigger] un@[e]).0 as int == i0 && un@[e].1
                        == UnassignedReason::WrongDate,
            forall|i0: int|
                0 <= i0 < i && spec_missing_pin(#[trigger] visits@[i0], service_date as int)
                    ==> exists|e: int|
                    0 <= e < un@.len() && (#[trigger] un@[e]).0 as int == i0 && un@[e].1
                        == UnassignedReason::MissingPinnedVisitor,
        decreases visits@.len() - i,
    {
        let ghost un_old = un@;
        let ghost free_old = free@;
        let wrong_date = match visits[i].pinned_date {
            Some(d) => d != service_date,
            None => false,
        };
        let is_pinned = match visits[i].pin_type {
            VisitPinType::Visitor => true,
            VisitPinType::VisitorAndDate => true,
            _ => false,
        };
        if wrong_date {
            un.push((i, UnassignedReason::WrongDate));
        } else if is_pinned {
            let missing = match &visits[i].pinned_visitor {
                Some(_) => false,
                None => true,
            };
            if missing {
                un.push((i, UnassignedReason::MissingPinnedVisitor));
            }
        } else {
            free.push(i);
        }
        proof {
            assert forall|i0: int|
                #![trigger un_count(un@, i0)]
                un_count(un@, i0) == (if 0 <= i0 < i + 1 && (spec_wrong_date(
                visits@[i0],
                service_date as int,
            ) || spec_missing_pin(visits@[i0], service_date as int)) {
                1int
            } else {
                0int
            }) by {
                if un@ != un_old {
                    lemma_un_count_push(un_old, un@.last(), i0);
                }
            }
            assert forall|i0: int|
                #![trigger idx_count(free@, i0)]
                idx_count(free@, i0) == (if 0 <= i0 < i + 1 && spec_free_class(
                visits@[i0],
                service_date as int,
            ) {
                1int
            } else {
                0int
            }) by {
                if free@ != free_old {
                    lemma_idx_count_push(free_old, i, i0);
                }
            }
            if free@ != free_old {
                assert(useq(free@) =~= useq(free_old).push(i as int));
            }
            assert forall|i0: int|
                0 <= i0 < i + 1 && spec_wrong_date(
                #[trigger] visits@[i0],
                service_date as int,
            ) implies exists|e: int|
                0 <= e < un@.len() && (#[trigger] un@[e]).0 as int == i0 && un@[e].1
                    == UnassignedReason::WrongDate by {
                if i0 < i {
                    let e = choose|e: int|
                        0 <= e < un_old.len() && (#[trigger] un_old[e]).0 as int == i0
                            && un_old[e].1 == UnassignedReason::WrongDate;
                    assert(un@[e] == un_old[e]);
                } else {
                    assert(un@[un@.len() - 1].0 as int == i0);
                }
            }
            assert forall|i0: int|
                0 <= i0 < i + 1 && spec_missing_pin(
                #[trigger] visits@[i0],
                service_date as int,
            ) implies exists|e: int|
                0 <= e < un@.len() && (#[trigger] un@[e]).0 as int == i0 && un@[e].1
                    == UnassignedReason::MissingPinnedVisitor by {
                if i0 < i {
                    let e = choose|e: int|
                        0 <= e < un_old.len() && (#[trigger] un_old[e]).0 as int == i0
                            && un_old[e].1 == UnassignedReason::MissingPinnedVisitor;
                    assert(un@[e] == un_old[e]);
                } else {
                    assert(un@[un@.len() - 1].0 as int == i0);
                }
            }
        }
        i = i + 1;
    }
    (un, free)
}

/// Copy a window list.
fn copy_windows(v: &Vec<(u32, u32)>) -> (r: Vec<(u32, u32)>)
    ensures
        r@ == v@,
{
    let mut out: Vec<(u32, u32)> = Vec::new();
    let mut i: usize = 0;
    while i < v.len()
        invariant
            i <= v@.len(),
            out@ == v@.take(i as int),
        decreases v@.len() - i,
    {
        out.push(v[i]);
        proof {
            assert(v@.take(i as int + 1) =~= v@.take(i as int).push(v@[i as int]));
        }
        i = i + 1;
    }
    proof {
        assert(v@.take(v@.len() as int) =~= v@);
    }
    out
}

/// Project the internal routes to the caller-facing form, replacing each
/// visit index by its id.
#[verifier::loop_isolation(false)]
fn project_routes(
    routes: &Vec<RouteState>,
    visits: &Vec<Visit>,
    visitors: &Vec<Visitor>,
) -> (r: Vec<RouteResult>)
    requires
        forall|k: int|
            0 <= k < routes@.len() ==> (#[trigger] routes@[k]).visitor_index < visitors@.len()
                && (forall|j: int|
                0 <= j < routes@[k].visits@.len() ==> (#[trigger] routes@[k].visits@[j])
                    < visits@.len()),
    ensures
        reflects_routes(r@, routes@, visits@, visitors@),
{
    let mut out: Vec<RouteResult> = Vec::new();
    let mut k: usize = 0;
    while k < routes.len()
        invariant
            k <= routes@.len(),
            out@.len() == k,
            reflects_routes(out@, routes@.take(k as int), visits@, visitors@),
        decreases routes@.len() - k,
    {
        let rt = &routes[k];
        let mut ids: Vec<String> = Vec::new();
        let mut j: usize = 0;
        while j < rt.visits.len()
            invariant
                k < routes@.len(),
                rt == routes@[k as int],
                j <= rt.visits@.len(),
                ids@.len() == j,
                forall|j2: int|
                    0 <= j2 < j ==> (#[trigger] ids@[j2])@ == visits@[rt.visits@[j2] as int].id@,
            decreases rt.visits@.len() - j,
        {
            ids.push(visits[rt.visits[j]].id.clone());
            j = j + 1;
        }
        let ws = copy_windows(&rt.estimated_windows);
        let result = RouteResult {
            visitor_id: visitors[rt.visitor_index].id.clone(),
            visit_ids: ids,
            estimated_windows: ws,
            total_travel_time: rt.total_travel_time,
        };
        out.push(result);
        proof {
            assert(routes@.take(k as int + 1).drop_last() =~= routes@.take(k as int));
            assert(out@.drop_last() =~= out@.take(k as int));
            assert forall|k2: int|
                0 <= k2 < k + 1 implies {
                let q = #[trigger] out@[k2];
                let rt2 = routes@.take(k as int + 1)[k2];
                &&& q.visitor_id@ == visitors@[rt2.visitor_index as int].id@
                &&& q.visit_ids@.len() == rt2.visits@.len()
                &&& (forall|j2: int|
                    0 <= j2 < rt2.visits@.len() ==> (#[trigger] q.visit_ids@[j2])@
                        == visits@[rt2.visits@[j2] as int].id@)
                &&& q.estimated_windows@ == rt2.estimated_windows@
                &&& q.total_travel_time == rt2.total_travel_time
            } by {
                if k2 < k {
                    assert(out@[k2] == out@.take(k as int)[k2]);
                    assert(routes@.take(k as int + 1)[k2] == routes@.take(k as int)[k2]);
                }
            }
        }
        k = k + 1;
    }
    proof {
        assert(routes@.take(routes@.len() as int) =~= routes@);
    }
    out
}

/// Project the internal diagnostics to the caller-facing form.
#[verifier::loop_isolation(false)]
fn project_unassigned(
    un: &Vec<(usize, UnassignedReason)>,
    visits: &Vec<Visit>,
) -> (r: Vec<UnassignedVisit>)
    requires
        forall|e: int| 0 <= e < un@.len() ==> (#[trigger] un@[e]).0 < visits@.len(),
    ensures
        reflects_unassigned(r@, un@, visits@),
{
    let mut out: Vec<UnassignedVisit> = Vec::new();
    let mut e: usize = 0;
    while e < un.len()
        invariant
            e <= un@.len(),
            out@.len() == e,
            forall|e2: int|
                0 <= e2 < e ==> (#[trigger] out@[e2]).visit_id@ == visits@[un@[e2].0 as int].id@
                    && out@[e2].reason == un@[e2].1,
        decreases un@.len() - e,
    {
        let (vi, reason) = un[e];
        out.push(UnassignedVisit { visit_id: visits[vi].id.clone(), reason });
        e = e + 1;
    }
    out
}

/// An unassigned entry whose reason is right for its visit.
pub open spec fn entry_ok<A: AvailabilityProvider>(
    a: &A,
    ctx: SolveCtx,
    e0: (usize, UnassignedReason),
) -> bool {
    let i = e0.0 as int;
    &&& e0.0 < ctx.visits.len()
    &&& (match e0.1 {
        UnassignedReason::WrongDate => spec_wrong_date(ctx.visits[i], ctx.date),
        UnassignedReason::MissingPinnedVisitor => spec_missing_pin(ctx.visits[i], ctx.date),
        UnassignedReason::NoCapableVisitor => spec_free_class(ctx.visits[i], ctx.date)
            && !spec_any_capable_available(a, ctx.visitors, ctx.visits[i], ctx.date),
        UnassignedReason::NoFeasibleWindow => spec_pinned_class(ctx.visits[i], ctx.date) || (
        spec_free_class(ctx.visits[i], ctx.date) && spec_any_capable_available(
            a,
            ctx.visitors,
            ctx.visits[i],
            ctx.date,
        )),
    })
}

pub proof fn lemma_reasons_push<A: AvailabilityProvider>(
    a: &A,
    ctx: SolveCtx,
    un: Seq<(usize, UnassignedReason)>,
    e0: (usize, UnassignedReason),
)
    requires
        reasons_ok(a, ctx, un),
        entry_ok(a, ctx, e0),
    ensures
        reasons_ok(a, ctx, un.push(e0)),
{
    assert forall|e: int|
        0 <= e < un.push(e0).len() implies {
        let i = (#[trigger] un.push(e0)[e]).0 as int;
        &&& un.push(e0)[e].0 < ctx.visits.len()
        &&& (match un.push(e0)[e].1 {
            UnassignedReason::WrongDate => spec_wrong_date(ctx.visits[i], ctx.date),
            UnassignedReason::MissingPinnedVisitor => spec_missing_pin(ctx.visits[i], ctx.date),
            UnassignedReason::NoCapableVisitor => spec_free_class(ctx.visits[i], ctx.date)
                && !spec_any_capable_available(a, ctx.visitors, ctx.visits[i], ctx.date),
            UnassignedReason::NoFeasibleWindow => spec_pinned_class(ctx.visits[i], ctx.date) || (
            spec_free_class(ctx.visits[i], ctx.date) && spec_any_capable_available(
                a,
                ctx.visitors,
                ctx.visits[i],
                ctx.date,
            )),
        })
    } by {
        if e < un.len() {
            assert(un.push(e0)[e] == un[e]);
        } else {
            assert(un.push(e0)[e] == e0);
        }
    }
}

/// Extending the diagnostic list never loses a report.
pub proof fn lemma_diag_extend(
    ctx: SolveCtx,
    un1: Seq<(usize, UnassignedReason)>,
    un2: Seq<(usize, UnassignedReason)>,
)
    requires
        diagnostics_complete(ctx, un1),
        un1.len() <= un2.len(),
        un2.take(un1.len() as int) == un1,
    ensures
        diagnostics_complete(ctx, un2),
{
    assert forall|i: int|
        0 <= i < ctx.visits.len() && spec_wrong_date(#[trigger] ctx.visits[i], ctx.date)
        implies exists|e: int|
        0 <= e < un2.len() && (#[trigger] un2[e]).0 as int == i && un2[e].1
            == UnassignedReason::WrongDate by {
        let e = choose|e: int|
            0 <= e < un1.len() && (#[trigger] un1[e]).0 as int == i && un1[e].1
                == UnassignedReason::WrongDate;
        assert(un2[e] == un2.take(un1.len() as int)[e]);
    }
    assert forall|i: int|
        0 <= i < ctx.visits.len() && spec_missing_pin(#[trigger] ctx.visits[i], ctx.date)
        implies exists|e: int|
        0 <= e < un2.len() && (#[trigger] un2[e]).0 as int == i && un2[e].1
            == UnassignedReason::MissingPinnedVisitor by {
        let e = choose|e: int|
            0 <= e < un1.len() && (#[trigger] un1[e]).0 as int == i && un1[e].1
                == UnassignedReason::MissingPinnedVisitor;
        assert(un2[e] == un2.take(un1.len() as int)[e]);
    }
}

/// Whether some of the first `upto` visitors is the one the visit is
/// pinned to.
pub open spec fn pin_matched(ctx: SolveCtx, i: int, upto: int) -> bool {
    exists|r: int|
        0 <= r < upto && (match ctx.visits[i].pinned_visitor {
            Some(pv) => (#[trigger] ctx.visitors[r]).id@ == pv@,
            None => false,
        })
}

/// Solve one service date: classify the visits, collect locations and the
/// duration matrix, seed each visitor's route with its pinned visits,
/// insert the free visits by cheapest insertion, improve by local search,
/// and report every visit either on a route or with a diagnostic reason.
///
/// The result comes with a warrant (`solve_certified`): one route per
/// visitor in input order; every input visit placed exactly once across
/// routes and diagnostics; every route's windows exactly as scheduled,
/// non-overlapping, inside the visitor's availability and any committed
/// window; pins and capabilities respected on routes; and every
/// diagnostic reason right for its visit.
///
/// The preconditions ask only what the problem statement and the machine
/// force: well-formed visits (positive durations, ordered committed
/// windows), distinct visitor ids, and every time quantity the providers
/// hand back bounded by `MAX_TIME` so that cost arithmetic cannot
/// overflow.
#[verifier::rlimit(100)]
#[verifier::loop_isolation(false)]
pub fn solve<A: AvailabilityProvider, M: DistanceMatrixProvider>(
    service_date: i64,
    visits: &Vec<Visit>,
    visitors: &Vec<Visitor>,
    availability: &A,
    matrix_provider: &M,
    options: SolveOptions,
) -> (r: PlannerResult)
    requires
        forall|i: int| 0 <= i < visits@.len() ==> visit_wf(#[trigger] visits@[i]),
        options_wf(options),
        forall|k1: int, k2: int|
            0 <= k1 < k2 < visitors@.len() ==> (#[trigger] visitors@[k1]).id@ != (
            #[trigger] visitors@[k2]).id@,
        forall|k: int|
            0 <= k < visitors@.len() ==> avail_bounded(
                availability.spec_availability((#[trigger] visitors@[k]).id@, service_date as int),
            ),
        matrix_provider.matrix_pre(crate::geo::spec_locations(visits@, visitors@)),
        matrix_bounded(
            matrix_provider.spec_matrix_for(crate::geo::spec_locations(visits@, visitors@)),
        ),
    ensures
        r.routes@.len() == visitors@.len(),
        forall|k: int|
            0 <= k < visitors@.len() ==> (#[trigger] r.routes@[k]).visitor_id@ == visitors@[k].id@,
        exists|ctx: SolveCtx, st: Seq<RouteState>, un: Seq<(usize, UnassignedReason)>|
            ctx_from_inputs(
                matrix_provider,
                ctx,
                visits@,
                visitors@,
                service_date as int,
                options,
            ) && #[trigger] solve_certified(availability, ctx, st, un, r),
{
    let locations = crate::geo::collect_locations(visits, visitors);
    let matrix = matrix_provider.matrix_for(&locations);
    let mut rows: Vec<usize> = Vec::new();
    let mut ri: usize = 0;
    while ri < visits.len()
        invariant
            ri <= visits@.len(),
            rows@.len() == ri,
            forall|i2: int|
                0 <= i2 < ri ==> (#[trigger] rows@[i2]) < locations@.len() && locations@[rows@[i2] as int]
                    == visits@[i2].location,
        decreases visits@.len() - ri,
    {
        let idx = crate::geo::index_of_loc(&locations, visits[ri].location);
        rows.push(idx);
        ri = ri + 1;
    }
    let mut vrows: Vec<Option<usize>> = Vec::new();
    let mut vk: usize = 0;
    while vk < visitors.len()
        invariant
            vk <= visitors@.len(),
            vrows@.len() == vk,
            forall|k2: int|
                0 <= k2 < vk ==> (match (#[trigger] visitors@[k2]).start_location {
                    Some(l) => (match vrows@[k2] {
                        Some(vr) => vr < locations@.len() && locations@[vr as int] == l,
                        None => false,
                    }),
                    None => vrows@[k2] is None,
                }),
        decreases visitors@.len() - vk,
    {
        match visitors[vk].start_location {
            Some(l) => {
                let idx = crate::geo::index_of_loc(&locations, l);
                vrows.push(Some(idx));
            },
            None => {
                vrows.push(None);
            },
        }
        vk = vk + 1;
    }
    let ghost ctx = mk_ctx(visits@, visitors@, service_date as int, rows@, vrows@, matrix@, options);
    proof {
        assert(ctx.mat == matrix_provider.spec_matrix_for(
            crate::geo::spec_locations(visits@, visitors@),
        ));
        assert forall|i: int| 0 <= i < ctx.rows.len() implies 0 <= #[trigger] ctx.rows[i]
            < ctx.mat.len() by {
            assert(ctx.rows[i] == rows@[i] as int);
        }
        assert forall|k: int|
            0 <= k < ctx.vrows.len() implies (match #[trigger] ctx.vrows[k] {
            Some(vr) => 0 <= vr < ctx.mat.len(),
            None => true,
        }) by {
            assert(ctx.vrows[k] == (match vrows@[k] {
                Some(u) => Some(u as int),
                None => None,
            }));
            assert(ctx.mat.len() == matrix@.len());
            assert((match (#[trigger] visitors@[k]).start_location {
                Some(l) => (match vrows@[k] {
                    Some(vr) => vr < locations@.len() && locations@[vr as int] == l,
                    None => false,
                }),
                None => vrows@[k] is None,
            }));
        }
        assert forall|i: int| 0 <= i < ctx.mat.len() implies (#[trigger] ctx.mat[i]).len()
            == ctx.mat.len() by {
            assert(ctx.mat[i] == matrix@[i]@);
        }
        assert forall|i: int, j: int|
            0 <= i < ctx.mat.len() && 0 <= j < ctx.mat.len() implies #[trigger] ctx.mat[i][j]
            <= MAX_TIME by {
            assert(ctx.mat[i] == matrix@[i]@);
        }
        assert(ctx_ok(availability, ctx));
        assert forall|i: int|
            0 <= i < visits@.len() implies 0 <= #[trigger] ctx.rows[i] < crate::geo::spec_locations(
            visits@,
            visitors@,
        ).len() && crate::geo::spec_locations(visits@, visitors@)[ctx.rows[i]]
            == visits@[i].location by {
            assert(ctx.rows[i] == rows@[i] as int);
        }
        assert forall|k: int|
            0 <= k < visitors@.len() implies (match (#[trigger] visitors@[k]).start_location {
            Some(l) => (match ctx.vrows[k] {
                Some(vr) => 0 <= vr < crate::geo::spec_locations(visits@, visitors@).len()
                    && crate::geo::spec_locations(visits@, visitors@)[vr] == l,
                None => false,
            }),
            None => ctx.vrows[k] is None,
        }) by {
            assert(ctx.vrows[k] == (match vrows@[k] {
                Some(u) => Some(u as int),
                None => None,
            }));
        }
        assert(ctx_from_inputs(
            matrix_provider,
            ctx,
            visits@,
            visitors@,
            service_date as int,
            options,
        ));
        lemma_ctx_plain(
            availability,
            visits@,
            visitors@,
            service_date as int,
            rows@,
            vrows@,
            matrix@,
            options,
        );
    }
    let classified = classify(visits, service_date);
    let mut un = classified.0;
    let free = classified.1;
    let ghost un0 = un@;
    proof {
        assert(reasons_ok(availability, ctx, un@)) by {
            assert forall|e: int| 0 <= e < un@.len() implies entry_ok(availability, ctx, un@[e]) by {
                assert((#[trigger] un@[e]).0 < visits@.len());
            }
        }
        assert(diagnostics_complete(ctx, un0));
    }
    // Seed each visitor's route with its pinned visits.
    let mut routes: Vec<RouteState> = Vec::new();
    let mut sk: usize = 0;
    while sk < visitors.len()
        invariant
            sk <= visitors@.len(),
            routes@.len() == sk,
            forall|k2: int|
                0 <= k2 < sk ==> (#[trigger] routes@[k2]).visitor_index == k2 && route_ok(
                    availability,
                    ctx,
                    routes@[k2],
                ),
            forall|i0: int|
                0 <= i0 < visits@.len() ==> #[trigger] routes_count(routes@, i0) + un_count(
                    un@,
                    i0,
                ) == (if spec_wrong_date(visits@[i0], service_date as int) || spec_missing_pin(
                    visits@[i0],
                    service_date as int,
                ) {
                    1int
                } else if spec_pinned_class(visits@[i0], service_date as int) && pin_matched(
                    ctx,
                    i0,
                    sk as int,
                ) {
                    1int
                } else {
                    0int
                }),
            forall|k2: int, i0: int|
                #![trigger seed_feasible(availability, ctx, k2), idx_count(routes@[k2].visits@, i0)]
                0 <= k2 < sk && 0 <= i0 < visits@.len() && seed_feasible(availability, ctx, k2)
                    && spec_pinned_to(
                    visits@[i0],
                    service_date as int,
                    visitors@[k2].id@,
                ) ==> idx_count(routes@[k2].visits@, i0) == 1,
            forall|k2: int|
                0 <= k2 < sk ==> seeded_route_state(availability, ctx, #[trigger] routes@[k2], k2),
            reasons_ok(availability, ctx, un@),
            un0.len() <= un@.len() && un@.take(un0.len() as int) == un0,
        decreases visitors@.len() - sk,
    {
        let pinned = pinned_for(visits, service_date, &visitors[sk].id);
        let ghost routes_before = routes@;
        let ghost un_before = un@;
        let ghost id_sk = visitors@[sk as int].id@;
        if pinned.len() > 0 {
            let sched = crate::schedule::compute_schedule(
                service_date,
                &visitors[sk].id,
                vrows[sk],
                &pinned,
                visits,
                &rows,
                availability,
                &matrix,
                &options,
            );
            proof {
                assert(ctx.vrows[sk as int] == (match vrows@[sk as int] {
                    Some(u) => Some(u as int),
                    None => None,
                }));
                assert(ctx.visitors[sk as int] == visitors@[sk as int]);
            }
            match sched {
                Some(schedres) => {
                    let ws = schedres.0;
                    let c = schedres.1;
                    proof {
                        let segs = availability.spec_availability(
                            id_sk,
                            service_date as int,
                        )->Some_0;
                        assert forall|j: int|
                            0 <= j < useq(pinned@).len() implies 0 <= (#[trigger] useq(pinned@)[j])
                            < visits@.len() by {
                            assert(useq(pinned@)[j] == pinned@[j] as int);
                        }
                        crate::schedule::lemma_windows_len(visits@, segs, useq(pinned@), wins(ws@));
                    }
                    let newroute = RouteState {
                        visitor_index: sk,
                        visits: pinned,
                        estimated_windows: ws,
                        total_travel_time: c,
                    };
                    proof {
                        assert(route_scheduled(availability, ctx, newroute));
                        assert forall|j: int|
                            0 <= j < newroute.visits@.len() implies route_visit_facts(
                            ctx,
                            newroute,
                            #[trigger] newroute.visits@[j],
                        ) by {
                            assert(spec_pinned_to(
                                visits@[newroute.visits@[j] as int],
                                service_date as int,
                                id_sk,
                            ));
                        }
                        assert(route_ok(availability, ctx, newroute));
                    }
                    routes.push(newroute);
                    proof {
                        assert forall|i0: int|
                            0 <= i0 < visits@.len() implies #[trigger] routes_count(routes@, i0)
                            + un_count(un@, i0) == (if spec_wrong_date(
                            visits@[i0],
                            service_date as int,
                        ) || spec_missing_pin(visits@[i0], service_date as int) {
                            1int
                        } else if spec_pinned_class(visits@[i0], service_date as int)
                            && pin_matched(ctx, i0, sk as int + 1) {
                            1int
                        } else {
                            0int
                        }) by {
                            lemma_routes_count_push(routes_before, routes@.last(), i0);
                            lemma_seed_transition(availability, ctx, i0, sk as int);
                        }
                        assert forall|k2: int, i0: int|
                            #![trigger seed_feasible(availability, ctx, k2), idx_count(routes@[k2].visits@, i0)]
                            0 <= k2 < sk + 1 && 0 <= i0 < visits@.len() && seed_feasible(
                            availability,
                            ctx,
                            k2,
                        ) && spec_pinned_to(
                            visits@[i0],
                            service_date as int,
                            visitors@[k2].id@,
                        ) implies idx_count(routes@[k2].visits@, i0) == 1 by {
                            if k2 == sk as int {
                                assert(routes@[k2].visits@ == newroute.visits@);
                                assert(idx_count(newroute.visits@, i0) == 1);
                            } else {
                                assert(routes@[k2] == routes_before[k2]);
                            }
                        }
                        assert(useq(newroute.visits@) == spec_pinned_indices(
                            ctx.visits,
                            ctx.date,
                            ctx.visitors[sk as int].id@,
                        ));
                        assert(seed_feasible(availability, ctx, sk as int));
                        assert(seeded_route_state(availability, ctx, newroute, sk as int));
                        assert forall|k2: int|
                            0 <= k2 < sk + 1 implies seeded_route_state(
                            availability,
                            ctx,
                            #[trigger] routes@[k2],
                            k2,
                        ) by {
                            if k2 < sk {
                                assert(routes@[k2] == routes_before[k2]);
                            }
                        }
                    }
                },
                None => {
                    let mut q: usize = 0;
                    while q < pinned.len()
                        invariant
                            q <= pinned@.len(),
                            forall|i0: int|
                                #![trigger un_count(un@, i0)]
                                un_count(un@, i0) == un_count(un_before, i0) + idx_count(
                                    pinned@.take(q as int),
                                    i0,
                                ),
                            reasons_ok(availability, ctx, un@),
                            un0.len() <= un@.len() && un@.take(un0.len() as int) == un0,
                        decreases pinned@.len() - q,
                    {
                        let ghost un_q = un@;
                        let vi_q = pinned[q];
                        un.push((vi_q, UnassignedReason::NoFeasibleWindow));
                        proof {
                            assert(spec_pinned_to(
                                visits@[vi_q as int],
                                service_date as int,
                                id_sk,
                            ));
                            lemma_reasons_push(
                                availability,
                                ctx,
                                un_q,
                                (vi_q, UnassignedReason::NoFeasibleWindow),
                            );
                            assert forall|i0: int|
                                #![trigger un_count(un@, i0)]
                                un_count(un@, i0) == un_count(un_before, i0) + idx_count(
                                pinned@.take(q as int + 1),
                                i0,
                            ) by {
                                lemma_un_count_push(
                                    un_q,
                                    (vi_q, UnassignedReason::NoFeasibleWindow),
                                    i0,
                                );
                                assert(pinned@.take(q as int + 1) =~= pinned@.take(
                                    q as int,
                                ).push(pinned@[q as int]));
                                lemma_idx_count_push(pinned@.take(q as int), pinned@[q as int], i0);
                            }
                            assert(un@.take(un0.len() as int) =~= un_q.take(un0.len() as int));
                        }
                        q = q + 1;
                    }
                    let newroute = RouteState {
                        visitor_index: sk,
                        visits: Vec::new(),
                        estimated_windows: Vec::new(),
                        total_travel_time: 0,
                    };
                    proof {
                        assert(newroute.visits@.len() == 0);
                        assert(route_ok(availability, ctx, newroute));
                    }
                    routes.push(newroute);
                    proof {
                        assert(pinned@.take(pinned@.len() as int) =~= pinned@);
                        assert forall|i0: int|
                            0 <= i0 < visits@.len() implies #[trigger] routes_count(routes@, i0)
                            + un_count(un@, i0) == (if spec_wrong_date(
                            visits@[i0],
                            service_date as int,
                        ) || spec_missing_pin(visits@[i0], service_date as int) {
                            1int
                        } else if spec_pinned_class(visits@[i0], service_date as int)
                            && pin_matched(ctx, i0, sk as int + 1) {
                            1int
                        } else {
                            0int
                        }) by {
                            lemma_routes_count_push(routes_before, routes@.last(), i0);
                            assert(idx_count(routes@.last().visits@, i0) == 0);
                            lemma_seed_transition(availability, ctx, i0, sk as int);
                        }
                        assert forall|k2: int, i0: int|
                            #![trigger seed_feasible(availability, ctx, k2), idx_count(routes@[k2].visits@, i0)]
                            0 <= k2 < sk + 1 && 0 <= i0 < visits@.len() && seed_feasible(
                            availability,
                            ctx,
                            k2,
                        ) && spec_pinned_to(
                            visits@[i0],
                            service_date as int,
                            visitors@[k2].id@,
                        ) implies idx_count(routes@[k2].visits@, i0) == 1 by {
                            if k2 == sk as int {
                                assert(useq(pinned@) == spec_pinned_indices(
                                    ctx.visits,
                                    ctx.date,
                                    ctx.visitors[k2].id@,
                                ));
                                assert(!seed_feasible(availability, ctx, k2));
                            } else {
                                assert(routes@[k2] == routes_before[k2]);
                            }
                        }
                        assert(!seed_feasible(availability, ctx, sk as int)) by {
                            assert(useq(pinned@) == spec_pinned_indices(
                                ctx.visits,
                                ctx.date,
                                ctx.visitors[sk as int].id@,
                            ));
                        }
                        assert(useq(newroute.visits@) =~= Seq::<int>::empty());
                        assert(seeded_route_state(availability, ctx, newroute, sk as int));
                        assert forall|k2: int|
                            0 <= k2 < sk + 1 implies seeded_route_state(
                            availability,
                            ctx,
                            #[trigger] routes@[k2],
                            k2,
                        ) by {
                            if k2 < sk {
                                assert(routes@[k2] == routes_before[k2]);
                            }
                        }
                    }
                },
            }
        } else {
            let newroute = RouteState {
                visitor_index: sk,
                visits: pinned,
                estimated_windows: Vec::new(),
                total_travel_time: 0,
            };
            proof {
                assert(route_ok(availability, ctx, newroute));
            }
            routes.push(newroute);
            proof {
                assert forall|i0: int|
                    0 <= i0 < visits@.len() implies #[trigger] routes_count(routes@, i0)
                    + un_count(un@, i0) == (if spec_wrong_date(visits@[i0], service_date as int)
                    || spec_missing_pin(visits@[i0], service_date as int) {
                    1int
                } else if spec_pinned_class(visits@[i0], service_date as int) && pin_matched(
                    ctx,
                    i0,
                    sk as int + 1,
                ) {
                    1int
                } else {
                    0int
                }) by {
                    lemma_routes_count_push(routes_before, routes@.last(), i0);
                    lemma_seed_transition(availability, ctx, i0, sk as int);
                }
                assert forall|k2: int, i0: int|
                    #![trigger seed_feasible(availability, ctx, k2), idx_count(routes@[k2].visits@, i0)]
                    0 <= k2 < sk + 1 && 0 <= i0 < visits@.len() && seed_feasible(
                    availability,
                    ctx,
                    k2,
                ) && spec_pinned_to(
                    visits@[i0],
                    service_date as int,
                    visitors@[k2].id@,
                ) implies idx_count(routes@[k2].visits@, i0) == 1 by {
                    if k2 == sk as int {
                        assert(idx_count(pinned@, i0) == 1);
                        assert(idx_count(pinned@, i0) == 0);
                    } else {
                        assert(routes@[k2] == routes_before[k2]);
                    }
                }
                assert(useq(newroute.visits@) =~= Seq::<int>::empty());
                assert(spec_pinned_indices(
                    ctx.visits,
                    ctx.date,
                    ctx.visitors[sk as int].id@,
                ) == useq(pinned@));
                assert(seeded_route_state(availability, ctx, newroute, sk as int)) by {
                    if seed_feasible(availability, ctx, sk as int) {
                        let av = availability.spec_availability(
                            ctx.visitors[sk as int].id@,
                            ctx.date,
                        );
                        let segs = av->Some_0;
                        assert(crate::schedule::spec_sched_from(
                            crate::schedule::SchedCtx {
                                visits: ctx.visits,
                                rows: ctx.rows,
                                mat: ctx.mat,
                                segs: segs,
                                visitor_id: ctx.visitors[sk as int].id@,
                                target_weight: ctx.target_weight,
                                reassignment_penalty: ctx.reassignment_penalty,
                            },
                            Seq::<int>::empty(),
                            0,
                            segs[0].0 as int,
                            0,
                            (match ctx.vrows[sk as int] {
                                Some(r0) => r0,
                                None => 0,
                            }),
                        ) == Some((Seq::<(int, int)>::empty(), 0int)));
                        assert(wins(newroute.estimated_windows@) =~= Seq::<(int, int)>::empty());
                    }
                }
                assert forall|k2: int|
                    0 <= k2 < sk + 1 implies seeded_route_state(
                    availability,
                    ctx,
                    #[trigger] routes@[k2],
                    k2,
                ) by {
                    if k2 < sk {
                        assert(routes@[k2] == routes_before[k2]);
                    }
                }
            }
        }
        sk = sk + 1;
    }
    let ghost routes_seeded = routes@;
    proof {
        assert(seeded_routes_ok(availability, ctx, routes_seeded));
    }
    // Report pinned visits whose visitor is not in the fleet.
    let mut oi: usize = 0;
    while oi < visits.len()
        invariant
            oi <= visits@.len(),
            routes@ == routes_seeded,
            routes@.len() == visitors@.len(),
            forall|k2: int|
                0 <= k2 < routes@.len() ==> (#[trigger] routes@[k2]).visitor_index == k2
                    && route_ok(availability, ctx, routes@[k2]),
            forall|i0: int|
                0 <= i0 < visits@.len() ==> #[trigger] routes_count(routes@, i0) + un_count(
                    un@,
                    i0,
                ) == (if spec_wrong_date(visits@[i0], service_date as int) || spec_missing_pin(
                    visits@[i0],
                    service_date as int,
                ) {
                    1int
                } else if spec_pinned_class(visits@[i0], service_date as int) && (pin_matched(
                    ctx,
                    i0,
                    visitors@.len() as int,
                ) || i0 < oi) {
                    1int
                } else {
                    0int
                }),
            forall|k2: int, i0: int|
                #![trigger seed_feasible(availability, ctx, k2), idx_count(routes@[k2].visits@, i0)]
                0 <= k2 < routes@.len() && 0 <= i0 < visits@.len() && seed_feasible(
                    availability,
                    ctx,
                    k2,
                ) && spec_pinned_to(
                    visits@[i0],
                    service_date as int,
                    visitors@[k2].id@,
                ) ==> idx_count(routes@[k2].visits@, i0) == 1,
            reasons_ok(availability, ctx, un@),
            un0.len() <= un@.len() && un@.take(un0.len() as int) == un0,
        decreases visits@.len() - oi,
    {
        let wrong_date = match visits[oi].pinned_date {
            Some(d) => d != service_date,
            None => false,
        };
        let is_pinned = match visits[oi].pin_type {
            VisitPinType::Visitor => true,
            VisitPinType::VisitorAndDate => true,
            _ => false,
        };
        if !wrong_date && is_pinned {
            match &visits[oi].pinned_visitor {
                Some(pv) => {
                    match find_visitor(visitors, pv) {
                        Some(fk) => {
                            proof {
                                assert(pin_matched(ctx, oi as int, visitors@.len() as int));
                            }
                        },
                        None => {
                            let ghost un_o = un@;
                            un.push((oi, UnassignedReason::NoFeasibleWindow));
                            proof {
                                assert(!pin_matched(ctx, oi as int, visitors@.len() as int)) by {
                                    if pin_matched(ctx, oi as int, visitors@.len() as int) {
                                        let rr = choose|rr: int|
                                            0 <= rr < visitors@.len() && (
                                            match ctx.visits[oi as int].pinned_visitor {
                                                Some(pv2) => (#[trigger] ctx.visitors[rr]).id@
                                                    == pv2@,
                                                None => false,
                                            });
                                        assert(false);
                                    }
                                }
                                lemma_reasons_push(
                                    availability,
                                    ctx,
                                    un_o,
                                    (oi, UnassignedReason::NoFeasibleWindow),
                                );
                                assert forall|i0: int|
                                    0 <= i0 < visits@.len() implies #[trigger] routes_count(
                                    routes@,
                                    i0,
                                ) + un_count(un@, i0) == (if spec_wrong_date(
                                    visits@[i0],
                                    service_date as int,
                                ) || spec_missing_pin(visits@[i0], service_date as int) {
                                    1int
                                } else if spec_pinned_class(visits@[i0], service_date as int) && (
                                pin_matched(ctx, i0, visitors@.len() as int) || i0 < oi + 1) {
                                    1int
                                } else {
                                    0int
                                }) by {
                                    lemma_un_count_push(
                                        un_o,
                                        (oi, UnassignedReason::NoFeasibleWindow),
                                        i0,
                                    );
                                }
                                assert(un@.take(un0.len() as int) =~= un_o.take(un0.len() as int));
                            }
                        },
                    }
                },
                None => {},
            }
        }
        oi = oi + 1;
    }
    // Insert the free visits, cheapest feasible slot first.
    let ghost un_ins = un@;
    let ghost fseq = useq(free@);
    let mut f: usize = 0;
    while f < free.len()
        invariant
            f <= free@.len(),
            forall|re: Seq<RouteState>, ue: Seq<(usize, UnassignedReason)>|
                #![trigger construction_ok(availability, ctx, fseq, f as int, routes@, un@, re, ue)]
                construction_ok(availability, ctx, fseq, f as int, routes@, un@, re, ue)
                    ==> construction_ok(
                    availability,
                    ctx,
                    fseq,
                    0,
                    routes_seeded,
                    un_ins,
                    re,
                    ue,
                ),
            routes@.len() == visitors@.len(),
            forall|k2: int|
                0 <= k2 < routes@.len() ==> (#[trigger] routes@[k2]).visitor_index == k2
                    && route_ok(availability, ctx, routes@[k2]),
            forall|i0: int|
                0 <= i0 < visits@.len() ==> #[trigger] routes_count(routes@, i0) + un_count(
                    un@,
                    i0,
                ) == (if spec_wrong_date(visits@[i0], service_date as int) || spec_missing_pin(
                    visits@[i0],
                    service_date as int,
                ) || spec_pinned_class(visits@[i0], service_date as int) {
                    1int
                } else {
                    0int
                }) + idx_count(free@.take(f as int), i0),
            forall|k2: int, i0: int|
                #![trigger seed_feasible(availability, ctx, k2), idx_count(routes@[k2].visits@, i0)]
                0 <= k2 < routes@.len() && 0 <= i0 < visits@.len() && seed_feasible(
                    availability,
                    ctx,
                    k2,
                ) && spec_pinned_to(
                    visits@[i0],
                    service_date as int,
                    visitors@[k2].id@,
                ) ==> idx_count(routes@[k2].visits@, i0) == 1,
            reasons_ok(availability, ctx, un@),
            un0.len() <= un@.len() && un@.take(un0.len() as int) == un0,
        decreases free@.len() - f,
    {
        let vi = free[f];
        let ghost un_f = un@;
        let ghost routes_f = routes@;
        proof {
            assert(spec_free_class(visits@[vi as int], service_date as int));
            assert(free@.take(f as int + 1) =~= free@.take(f as int).push(free@[f as int]));
        }
        if !visit_is_compatible(&visits[vi], visitors) {
            un.push((vi, UnassignedReason::NoCapableVisitor));
            proof {
                assert(!spec_any_capable_available(
                    availability,
                    visitors@,
                    visits@[vi as int],
                    service_date as int,
                )) by {
                    if spec_any_capable_available(
                        availability,
                        visitors@,
                        visits@[vi as int],
                        service_date as int,
                    ) {
                        let kc = choose|kc: int|
                            0 <= kc < visitors@.len() && spec_capable(
                                #[trigger] visitors@[kc],
                                visits@[vi as int],
                            ) && availability.spec_availability(
                                visitors@[kc].id@,
                                service_date as int,
                            ) is Some;
                        assert(spec_any_capable(visitors@, visits@[vi as int]));
                    }
                }
                lemma_reasons_push(
                    availability,
                    ctx,
                    un_f,
                    (vi, UnassignedReason::NoCapableVisitor),
                );
                assert forall|i0: int|
                    0 <= i0 < visits@.len() implies #[trigger] routes_count(routes@, i0)
                    + un_count(un@, i0) == (if spec_wrong_date(visits@[i0], service_date as int)
                    || spec_missing_pin(visits@[i0], service_date as int) || spec_pinned_class(
                    visits@[i0],
                    service_date as int,
                ) {
                    1int
                } else {
                    0int
                }) + idx_count(free@.take(f as int + 1), i0) by {
                    lemma_un_count_push(un_f, (vi, UnassignedReason::NoCapableVisitor), i0);
                    lemma_idx_count_push(free@.take(f as int), free@[f as int], i0);
                }
                assert(un@.take(un0.len() as int) =~= un_f.take(un0.len() as int));
                assert(fseq[f as int] == vi as int);
                assert(un@ == un_f.push((vi, UnassignedReason::NoCapableVisitor)));
                assert(construction_step(
                    availability,
                    ctx,
                    routes_f,
                    un_f,
                    routes@,
                    un@,
                    vi as int,
                ));
                lemma_construction_extend(
                    availability,
                    ctx,
                    fseq,
                    f as int,
                    routes_seeded,
                    un_ins,
                    routes_f,
                    un_f,
                    routes@,
                    un@,
                );
            }
        } else {
            let found = best_insertion(
                vi,
                &routes,
                service_date,
                visits,
                visitors,
                &rows,
                &vrows,
                availability,
                &matrix,
                &options,
            );
            match found.0 {
                Some(b) => {
                    let bk = b.0;
                    let bp = b.1;
                    let ws = b.2;
                    let c = b.3;
                    let mut new_visits = copy_indices(&routes[bk].visits);
                    new_visits.insert(bp, vi);
                    proof {
                        assert(useq(new_visits@) =~= useq(routes@[bk as int].visits@).insert(
                            bp as int,
                            vi as int,
                        ));
                        routes@[bk as int].visits@.insert_ensures(bp as int, vi);
                        assert forall|j: int|
                            0 <= j < new_visits@.len() implies (#[trigger] new_visits@[j])
                            < visits@.len() by {
                            if j < bp {
                                assert(new_visits@[j] == routes@[bk as int].visits@[j]);
                            } else if j == bp {
                            } else {
                                assert(new_visits@[j] == routes@[bk as int].visits@[j - 1]);
                            }
                        }
                        let segs = availability.spec_availability(
                            visitors@[bk as int].id@,
                            service_date as int,
                        )->Some_0;
                        assert forall|j: int|
                            0 <= j < useq(new_visits@).len() implies 0 <= (
                            #[trigger] useq(new_visits@)[j]) < visits@.len() by {
                            assert(useq(new_visits@)[j] == new_visits@[j] as int);
                        }
                        crate::schedule::lemma_windows_len(
                            visits@,
                            segs,
                            useq(new_visits@),
                            wins(ws@),
                        );
                    }
                    let newroute = RouteState {
                        visitor_index: bk,
                        visits: new_visits,
                        estimated_windows: ws,
                        total_travel_time: c,
                    };
                    proof {
                        assert(route_scheduled(availability, ctx, newroute));
                        assert forall|j: int|
                            0 <= j < newroute.visits@.len() implies route_visit_facts(
                            ctx,
                            newroute,
                            #[trigger] newroute.visits@[j],
                        ) by {
                            if j < bp {
                                assert(newroute.visits@[j] == routes@[bk as int].visits@[j]);
                            } else if j == bp {
                                assert(newroute.visits@[j] == vi);
                                assert(!spec_visitor_pinned(visits@[vi as int]));
                            } else {
                                assert(newroute.visits@[j] == routes@[bk as int].visits@[j - 1]);
                            }
                        }
                        assert(route_ok(availability, ctx, newroute));
                    }
                    routes[bk] = newroute;
                    proof {
                        assert forall|i0: int|
                            0 <= i0 < visits@.len() implies #[trigger] routes_count(routes@, i0)
                            + un_count(un@, i0) == (if spec_wrong_date(
                            visits@[i0],
                            service_date as int,
                        ) || spec_missing_pin(visits@[i0], service_date as int)
                            || spec_pinned_class(visits@[i0], service_date as int) {
                            1int
                        } else {
                            0int
                        }) + idx_count(free@.take(f as int + 1), i0) by {
                            lemma_routes_count_update(
                                routes_f,
                                bk as int,
                                routes@[bk as int],
                                i0,
                            );
                            lemma_idx_count_insert(
                                routes_f[bk as int].visits@,
                                bp as int,
                                vi,
                                i0,
                            );
                            lemma_idx_count_push(free@.take(f as int), free@[f as int], i0);
                        }
                        assert forall|k2: int, i0: int|
                            #![trigger seed_feasible(availability, ctx, k2), idx_count(routes@[k2].visits@, i0)]
                            0 <= k2 < routes@.len() && 0 <= i0 < visits@.len() && seed_feasible(
                            availability,
                            ctx,
                            k2,
                        ) && spec_pinned_to(
                            visits@[i0],
                            service_date as int,
                            visitors@[k2].id@,
                        ) implies idx_count(routes@[k2].visits@, i0) == 1 by {
                            if k2 == bk as int {
                                lemma_idx_count_insert(
                                    routes_f[bk as int].visits@,
                                    bp as int,
                                    vi,
                                    i0,
                                );
                                assert(!spec_visitor_pinned(visits@[vi as int]));
                                assert(vi as int != i0);
                            } else {
                                assert(routes@[k2] == routes_f[k2]);
                            }
                        }
                        assert(fseq[f as int] == vi as int);
                        assert(spec_any_capable(ctx.visitors, ctx.visits[vi as int]));
                        assert(spec_insertion(
                            availability,
                            ctx,
                            routes_f[bk as int],
                            vi as int,
                            bp as int,
                        ) is Some);
                        assert(any_feasible_insertion(availability, ctx, routes_f, vi as int));
                        assert(routes@ == routes_f.update(bk as int, newroute));
                        assert(construction_step(
                            availability,
                            ctx,
                            routes_f,
                            un_f,
                            routes@,
                            un@,
                            vi as int,
                        )) by {
                            assert(spec_insertion(
                                availability,
                                ctx,
                                routes_f[bk as int],
                                vi as int,
                                bp as int,
                            ) == Some(
                                (
                                    wins(newroute.estimated_windows@),
                                    newroute.total_travel_time as int,
                                ),
                            ));
                        }
                        lemma_construction_extend(
                            availability,
                            ctx,
                            fseq,
                            f as int,
                            routes_seeded,
                            un_ins,
                            routes_f,
                            un_f,
                            routes@,
                            un@,
                        );
                    }
                },
                None => {
                    let reason = if found.1 {
                        UnassignedReason::NoFeasibleWindow
                    } else {
                        UnassignedReason::NoCapableVisitor
                    };
                    un.push((vi, reason));
                    proof {
                        lemma_reasons_push(availability, ctx, un_f, (vi, reason));
                        assert forall|i0: int|
                            0 <= i0 < visits@.len() implies #[trigger] routes_count(routes@, i0)
                            + un_count(un@, i0) == (if spec_wrong_date(
                            visits@[i0],
                            service_date as int,
                        ) || spec_missing_pin(visits@[i0], service_date as int)
                            || spec_pinned_class(visits@[i0], service_date as int) {
                            1int
                        } else {
                            0int
                        }) + idx_count(free@.take(f as int + 1), i0) by {
                            lemma_un_count_push(un_f, (vi, reason), i0);
                            lemma_idx_count_push(free@.take(f as int), free@[f as int], i0);
                        }
                        assert(un@.take(un0.len() as int) =~= un_f.take(un0.len() as int));
                        assert(fseq[f as int] == vi as int);
                        assert(spec_any_capable(ctx.visitors, ctx.visits[vi as int]));
                        assert(!any_feasible_insertion(
                            availability,
                            ctx,
                            routes_f,
                            vi as int,
                        )) by {
                            if any_feasible_insertion(availability, ctx, routes_f, vi as int) {
                                let (k9, p9) = choose|k9: int, p9: int|
                                    0 <= k9 < routes_f.len() && 0 <= p9
                                        <= routes_f[k9].visits@.len() && spec_capable(
                                        ctx.visitors[k9],
                                        ctx.visits[vi as int],
                                    ) && #[trigger] spec_insertion(
                                        availability,
                                        ctx,
                                        routes_f[k9],
                                        vi as int,
                                        p9,
                                    ) is Some;
                                assert(spec_insertion(
                                    availability,
                                    ctx,
                                    routes_f[k9],
                                    vi as int,
                                    p9,
                                ) is None);
                            }
                        }
                        assert(un@ == un_f.push((vi, reason)));
                        assert(construction_step(
                            availability,
                            ctx,
                            routes_f,
                            un_f,
                            routes@,
                            un@,
                            vi as int,
                        ));
                        lemma_construction_extend(
                            availability,
                            ctx,
                            fseq,
                            f as int,
                            routes_seeded,
                            un_ins,
                            routes_f,
                            un_f,
                            routes@,
                            un@,
                        );
                    }
                },
            }
        }
        f = f + 1;
    }
    proof {
        assert(construction_ok(
            availability,
            ctx,
            fseq,
            free@.len() as int,
            routes@,
            un@,
            routes@,
            un@,
        ));
        assert(construction_ok(availability, ctx, fseq, 0, routes_seeded, un_ins, routes@, un@));
    }
    // Improve with 2-opt and relocate passes.
    let ghost routes_pre_ls = routes@;
    let ghost un_final = un@;
    let _passes: usize = local_search(
        &mut routes,
        service_date,
        visits,
        visitors,
        &rows,
        &vrows,
        availability,
        &matrix,
        &options,
    );
    // Project the outcome.
    proof {
        assert forall|k2: int, i0: int|
            #![trigger seed_feasible(availability, ctx, k2), idx_count(routes@[k2].visits@, i0)]
            0 <= k2 < routes@.len() && 0 <= i0 < visits@.len() && seed_feasible(
            availability,
            ctx,
            k2,
        ) && spec_pinned_to(
            visits@[i0],
            service_date as int,
            visitors@[k2].id@,
        ) implies idx_count(routes@[k2].visits@, i0) == 1 by {
            assert(spec_visitor_pinned(visits@[i0]));
            assert(idx_count(routes@[k2].visits@, i0) == idx_count(
                routes_pre_ls[k2].visits@,
                i0,
            ));
        }
        assert(free@.take(free@.len() as int) =~= free@);
        assert forall|i0: int|
            0 <= i0 < visits@.len() implies #[trigger] routes_count(routes@, i0) + un_count(
            un@,
            i0,
        ) == 1 by {
            assert(routes_count(routes@, i0) == routes_count(routes_pre_ls, i0));
            assert(idx_count(free@, i0) == (if spec_free_class(visits@[i0], service_date as int) {
                1int
            } else {
                0int
            }));
        }
        assert forall|k2: int|
            0 <= k2 < routes@.len() implies (#[trigger] routes@[k2]).visitor_index
            < visitors@.len() && (forall|j: int|
            0 <= j < routes@[k2].visits@.len() ==> (#[trigger] routes@[k2].visits@[j])
                < visits@.len()) by {
            assert(route_ok(availability, ctx, routes@[k2]));
        }
        assert forall|e: int| 0 <= e < un@.len() implies (#[trigger] un@[e]).0 < visits@.len() by {
            assert(reasons_ok(availability, ctx, un@));
        }
    }
    let out_routes = project_routes(&routes, visits, visitors);
    let out_un = project_unassigned(&un, visits);
    let result = PlannerResult { routes: out_routes, unassigned: out_un };
    proof {
        lemma_diag_extend(ctx, un0, un@);
        assert(un@ == un_final);
        assert(fseq == spec_free_indices(ctx.visits, ctx.date));
        assert(construction_ok(
            availability,
            ctx,
            spec_free_indices(ctx.visits, ctx.date),
            0,
            routes_seeded,
            un_ins,
            routes_pre_ls,
            un@,
        ));
        assert(seeded_routes_ok(availability, ctx, routes_seeded));
        assert(sum_costs(routes@) <= sum_costs(routes_pre_ls));
        assert forall|i: int|
            #![trigger routes_count(routes@, i)]
            routes_count(routes@, i) == routes_count(routes_pre_ls, i) by {}
        assert(solve_certified(availability, ctx, routes@, un@, result));
        assert(ctx_from_inputs(
            matrix_provider,
            ctx,
            visits@,
            visitors@,
            service_date as int,
            options,
        ));
        assert forall|k: int|
            0 <= k < visitors@.len() implies (#[trigger] result.routes@[k]).visitor_id@
            == visitors@[k].id@ by {
            assert(routes@[k].visitor_index == k);
        }
    }
    result
}

/// How placing visitor `sk`'s pinned visits changes the expected count:
/// a pinned visit matches visitor `sk` exactly when it was unmatched
/// among the earlier visitors and its pin names visitor `sk`'s id.
pub proof fn lemma_seed_transition<A: AvailabilityProvider>(a: &A, ctx: SolveCtx, i0: int, sk: int)
    requires
        ctx_ok(a, ctx),
        0 <= i0 < ctx.visits.len(),
        0 <= sk < ctx.visitors.len(),
    ensures
        (if spec_pinned_class(ctx.visits[i0], ctx.date) && pin_matched(ctx, i0, sk + 1) {
            1int
        } else {
            0int
        }) == (if spec_pinned_class(ctx.visits[i0], ctx.date) && pin_matched(ctx, i0, sk) {
            1int
        } else {
            0int
        }) + (if spec_pinned_to(ctx.visits[i0], ctx.date, ctx.visitors[sk].id@) {
            1int
        } else {
            0int
        }),
{
    if spec_pinned_to(ctx.visits[i0], ctx.date, ctx.visitors[sk].id@) {
        assert(pin_matched(ctx, i0, sk + 1)) by {
            assert((match ctx.visits[i0].pinned_visitor {
                Some(pv) => ctx.visitors[sk].id@ == pv@,
                None => false,
            }));
        }
        assert(!pin_matched(ctx, i0, sk)) by {
            if pin_matched(ctx, i0, sk) {
                let rr = choose|rr: int|
                    0 <= rr < sk && (match ctx.visits[i0].pinned_visitor {
                        Some(pv) => (#[trigger] ctx.visitors[rr]).id@ == pv@,
                        None => false,
                    });
                assert(ctx.visitors[rr].id@ == ctx.visitors[sk].id@);
                assert(false);
            }
        }
    } else {
        if spec_pinned_class(ctx.visits[i0], ctx.date) {
            if pin_matched(ctx, i0, sk + 1) {
                let rr = choose|rr: int|
                    0 <= rr < sk + 1 && (match ctx.visits[i0].pinned_visitor {
                        Some(pv) => (#[trigger] ctx.visitors[rr]).id@ == pv@,
                        None => false,
                    });
                if rr == sk {
                    assert(spec_pinned_to(ctx.visits[i0], ctx.date, ctx.visitors[sk].id@));
                    assert(false);
                } else {
                    assert(pin_matched(ctx, i0, sk));
                }
            }
            if pin_matched(ctx, i0, sk) {
                let rr = choose|rr: int|
                    0 <= rr < sk && (match ctx.visits[i0].pinned_visitor {
                        Some(pv) => (#[trigger] ctx.visitors[rr]).id@ == pv@,
                        None => false,
                    });
                assert(pin_matched(ctx, i0, sk + 1));
            }
        }
    }
}

} // verus!
