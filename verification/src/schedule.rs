//! The scheduler: a pure function that pushes an ordered visit sequence
//! through a visitor's availability segments, honouring committed windows,
//! and either returns per-visit windows with a composite cost or reports
//! infeasibility.
//!
//! The executable functions are pinned to spec-level recursions
//! (`spec_fit`, `spec_sched_from`), so the schedule a sequence receives is
//! a function of the inputs alone.

use vstd::prelude::*;

use crate::traits::{AvailabilityProvider, Visit};
use crate::solver::SolveOptions;
use crate::MAX_TIME;

verus! {

/// Everything the per-visit scheduling recursion reads, gathered as one
/// ghost value: the visit table, each visit's matrix row, the duration
/// matrix, the availability segments, and the cost weights.
pub struct SchedCtx {
    pub visits: Seq<Visit>,
    pub rows: Seq<int>,
    pub mat: Seq<Seq<u32>>,
    pub segs: Seq<(u32, u32)>,
    pub visitor_id: Seq<char>,
    pub target_weight: int,
    pub reassignment_penalty: int,
}

/// Absolute difference of two integers.
pub open spec fn abs_diff(a: int, b: int) -> int {
    if a >= b {
        a - b
    } else {
        b - a
    }
}

/// Bounds that make every visit schedulable without arithmetic overflow:
/// a positive duration and all window times at most `MAX_TIME`.
pub open spec fn visit_wf(v: Visit) -> bool {
    &&& 1 <= v.duration_seconds <= MAX_TIME
    &&& (match v.committed_window {
        Some(c) => c.0 <= c.1 <= MAX_TIME,
        None => true,
    })
    &&& (match v.target_time {
        Some(t) => t <= MAX_TIME,
        None => true,
    })
}

/// Bounds on the solve options' weights.
pub open spec fn options_wf(o: SolveOptions) -> bool {
    &&& o.target_time_weight <= MAX_TIME
    &&& o.reassignment_penalty <= MAX_TIME
}

/// Well-formedness of a scheduling context: the matrix is square with
/// bounded entries, every row index is in range, segments and weights are
/// bounded, and every visit is well-formed.
pub open spec fn ctx_wf(ctx: SchedCtx) -> bool {
    &&& ctx.rows.len() == ctx.visits.len()
    &&& forall|i: int| 0 <= i < ctx.rows.len() ==> 0 <= #[trigger] ctx.rows[i] < ctx.mat.len()
    &&& forall|i: int| 0 <= i < ctx.mat.len() ==> (#[trigger] ctx.mat[i]).len() == ctx.mat.len()
    &&& forall|i: int, j: int|
        0 <= i < ctx.mat.len() && 0 <= j < ctx.mat.len() ==> #[trigger] ctx.mat[i][j] <= MAX_TIME
    &&& forall|j: int|
        0 <= j < ctx.segs.len() ==> (#[trigger] ctx.segs[j]).0 <= MAX_TIME && ctx.segs[j].1
            <= MAX_TIME
    &&& 0 <= ctx.target_weight <= MAX_TIME
    &&& 0 <= ctx.reassignment_penalty <= MAX_TIME
    &&& forall|i: int| 0 <= i < ctx.visits.len() ==> visit_wf(#[trigger] ctx.visits[i])
}

/// The earliest placement of a visit of duration `dur`, ready no earlier
/// than `t`, in the availability segments from index `seg` on, under an
/// optional committed window. Returns the start time and segment index of
/// the first segment that fits, or `None` when none does (also when the
/// committed window has already closed before the segment under view).
pub open spec fn spec_fit(
    t: int,
    dur: int,
    seg: int,
    segs: Seq<(u32, u32)>,
    cw: Option<(u32, u32)>,
) -> Option<(int, int)>
    decreases segs.len() - seg,
{
    if seg < 0 || seg >= segs.len() {
        None
    } else {
        let open = segs[seg].0 as int;
        let close = segs[seg].1 as int;
        let s0 = if t > open {
            t
        } else {
            open
        };
        match cw {
            Some(c) => {
                let cs = c.0 as int;
                let ce = c.1 as int;
                if ce < open {
                    None
                } else if cs > close {
                    spec_fit(t, dur, seg + 1, segs, cw)
                } else {
                    let s = if s0 > cs {
                        s0
                    } else {
                        cs
                    };
                    if s + dur <= close && s <= ce && s + dur <= ce {
                        Some((s, seg))
                    } else {
                        spec_fit(t, dur, seg + 1, segs, cw)
                    }
                }
            },
            None => {
                if s0 + dur <= close {
                    Some((s0, seg))
                } else {
                    spec_fit(t, dur, seg + 1, segs, cw)
                }
            },
        }
    }
}

/// What a successful fit guarantees: the chosen segment lies at or after
/// the starting index, the start is no earlier than the ready time, the
/// visit lies inside the chosen segment, and a committed window, if any,
/// contains the start and the end.
pub proof fn lemma_fit_props(
    t: int,
    dur: int,
    seg: int,
    segs: Seq<(u32, u32)>,
    cw: Option<(u32, u32)>,
)
    requires
        0 <= seg,
        0 <= t,
        0 <= dur,
        forall|j: int|
            0 <= j < segs.len() ==> (#[trigger] segs[j]).0 <= MAX_TIME && segs[j].1 <= MAX_TIME,
        spec_fit(t, dur, seg, segs, cw) is Some,
    ensures
        ({
            let (s, gi) = spec_fit(t, dur, seg, segs, cw)->Some_0;
            &&& seg <= gi < segs.len()
            &&& s >= t
            &&& segs[gi].0 <= s
            &&& s + dur <= segs[gi].1
            &&& s + dur <= MAX_TIME
            &&& (match cw {
                Some(c) => c.0 <= s && s <= c.1 && s + dur <= c.1,
                None => true,
            })
        }),
    decreases segs.len() - seg,
{
    let (s, gi) = spec_fit(t, dur, seg, segs, cw)->Some_0;
    let open = segs[seg].0 as int;
    let close = segs[seg].1 as int;
    let s0 = if t > open {
        t
    } else {
        open
    };
    match cw {
        Some(c) => {
            let cs = c.0 as int;
            let ce = c.1 as int;
            if ce < open {
            } else if cs > close {
                lemma_fit_props(t, dur, seg + 1, segs, cw);
            } else {
                let sc = if s0 > cs {
                    s0
                } else {
                    cs
                };
                if sc + dur <= close && sc <= ce && sc + dur <= ce {
                } else {
                    lemma_fit_props(t, dur, seg + 1, segs, cw);
                }
            }
        },
        None => {
            if s0 + dur <= close {
            } else {
                lemma_fit_props(t, dur, seg + 1, segs, cw);
            }
        },
    }
}

/// `usize` sequence as a sequence of mathematical integers.
pub open spec fn useq(s: Seq<usize>) -> Seq<int> {
    s.map_values(|x: usize| x as int)
}

/// Machine-word window pairs as mathematical integer pairs.
pub open spec fn wins(s: Seq<(u32, u32)>) -> Seq<(int, int)> {
    s.map_values(|p: (u32, u32)| (p.0 as int, p.1 as int))
}

/// Bound on availability segments: every open and close time is at most
/// `MAX_TIME`.
pub open spec fn avail_bounded(a: Option<Seq<(u32, u32)>>) -> bool {
    match a {
        Some(segs) => forall|j: int|
            0 <= j < segs.len() ==> (#[trigger] segs[j]).0 <= MAX_TIME && segs[j].1 <= MAX_TIME,
        None => true,
    }
}

/// The largest composite cost one scheduled visit can contribute: its
/// travel leg, its target-time penalty and its reassignment penalty.
pub open spec fn visit_cost_bound() -> int {
    (MAX_TIME as int) * (MAX_TIME as int) + 2 * (MAX_TIME as int)
}

/// An upper bound on any feasible route's composite cost. Each scheduled
/// visit moves the clock forward by at least one second and the clock
/// never passes `2 * MAX_TIME`, so a schedule holds at most that many
/// visits, each contributing at most `visit_cost_bound()`.
pub open spec fn cost_cap() -> int {
    (2 * (MAX_TIME as int) + 1) * visit_cost_bound()
}

/// The greedy forward simulation from visit `k` on: travel to the visit,
/// wait for its committed window, place it in the earliest fitting
/// availability segment, charge travel plus target-time deviation plus
/// reassignment penalty, and continue from its end. `None` is
/// infeasibility of the whole remaining sequence.
pub open spec fn spec_sched_from(
    ctx: SchedCtx,
    vseq: Seq<int>,
    k: int,
    t: int,
    seg: int,
    prev: int,
) -> Option<(Seq<(int, int)>, int)>
    decreases vseq.len() - k,
{
    if k < 0 || k >= vseq.len() {
        Some((Seq::empty(), 0))
    } else {
        let vi = vseq[k];
        let v = ctx.visits[vi];
        let travel = ctx.mat[prev][ctx.rows[vi]] as int;
        let t1 = t + travel;
        let t2 = match v.committed_window {
            Some(c) => if t1 < c.0 as int {
                c.0 as int
            } else {
                t1
            },
            None => t1,
        };
        let late = match v.committed_window {
            Some(c) => t2 > c.1 as int,
            None => false,
        };
        if late {
            None
        } else {
            match spec_fit(t2, v.duration_seconds as int, seg, ctx.segs, v.committed_window) {
                None => None,
                Some(fit) => {
                    let start = fit.0;
                    let dur = v.duration_seconds as int;
                    let c_target = match v.target_time {
                        Some(tt) => abs_diff(start, tt as int) * ctx.target_weight,
                        None => 0,
                    };
                    let c_re = match v.current_visitor {
                        Some(cv) => if cv@ != ctx.visitor_id {
                            ctx.reassignment_penalty
                        } else {
                            0
                        },
                        None => 0,
                    };
                    match spec_sched_from(ctx, vseq, k + 1, start + dur, fit.1, ctx.rows[vi]) {
                        None => None,
                        Some(rest) => Some(
                            (seq![(start, start + dur)] + rest.0, travel + c_target + c_re + rest.1),
                        ),
                    }
                },
            }
        }
    }
}

/// The whole-sequence schedule: infeasible when the visitor has no
/// availability (or an empty segment list); otherwise the forward
/// simulation starting at the first segment's opening time, from the
/// visitor's start location when it has one, else the first visit's
/// location.
pub open spec fn spec_schedule(
    avail: Option<Seq<(u32, u32)>>,
    visitor_id: Seq<char>,
    visitor_row: Option<int>,
    vseq: Seq<int>,
    visits: Seq<Visit>,
    rows: Seq<int>,
    mat: Seq<Seq<u32>>,
    target_weight: int,
    reassignment_penalty: int,
) -> Option<(Seq<(int, int)>, int)> {
    match avail {
        None => None,
        Some(segs) => if segs.len() == 0 {
            None
        } else {
            let ctx = SchedCtx { visits, rows, mat, segs, visitor_id, target_weight, reassignment_penalty };
            let prev0 = match visitor_row {
                Some(r) => r,
                None => if vseq.len() > 0 {
                    rows[vseq[0]]
                } else {
                    0
                },
            };
            spec_sched_from(ctx, vseq, 0, segs[0].0 as int, 0, prev0)
        },
    }
}

/// The route invariants a schedule establishes for an ordered visit
/// sequence `order` with windows `ws`:
/// windows align one-to-one with visits and span exactly each visit's
/// duration; they are non-overlapping and non-decreasing; each lies inside
/// some availability segment; each lies inside its visit's committed
/// window when there is one; and all times are bounded.
pub open spec fn route_windows_wf(
    visits: Seq<Visit>,
    segs: Seq<(u32, u32)>,
    order: Seq<int>,
    ws: Seq<(int, int)>,
) -> bool {
    &&& ws.len() == order.len()
    &&& (forall|i: int|
        0 <= i < ws.len() ==> (#[trigger] ws[i]).1 == ws[i].0 + visits[order[i]].duration_seconds)
    &&& (forall|i: int| 0 <= i && i + 1 < ws.len() ==> (#[trigger] ws[i]).1 <= ws[i + 1].0)
    &&& (forall|i: int|
        0 <= i < ws.len() ==> exists|g: int|
            0 <= g < segs.len() && (#[trigger] segs[g]).0 <= (#[trigger] ws[i]).0 && ws[i].1
                <= segs[g].1)
    &&& (forall|i: int|
        0 <= i < ws.len() ==> (match visits[order[i]].committed_window {
            Some(c) => c.0 <= (#[trigger] ws[i]).0 && ws[i].0 <= c.1 && ws[i].1 <= c.1,
            None => true,
        }))
    &&& (forall|i: int| 0 <= i < ws.len() ==> 0 <= (#[trigger] ws[i]).0 && ws[i].1 <= MAX_TIME)
}

/// A feasible forward simulation yields well-formed windows: the route
/// invariants hold, the first window starts no earlier than the entry
/// time, and the accumulated cost is non-negative and linearly bounded.
pub proof fn lemma_sched_from_wf(ctx: SchedCtx, vseq: Seq<int>, k: int, t: int, seg: int, prev: int)
    requires
        ctx_wf(ctx),
        0 <= k <= vseq.len(),
        0 <= t,
        0 <= seg,
        k < vseq.len() ==> 0 <= prev < ctx.mat.len(),
        forall|i: int| k <= i < vseq.len() ==> 0 <= #[trigger] vseq[i] < ctx.visits.len(),
        spec_sched_from(ctx, vseq, k, t, seg, prev) is Some,
    ensures
        ({
            let (ws, cost) = spec_sched_from(ctx, vseq, k, t, seg, prev)->Some_0;
            &&& route_windows_wf(ctx.visits, ctx.segs, vseq.skip(k), ws)
            &&& (ws.len() > 0 ==> ws[0].0 >= t)
            &&& 0 <= cost <= (vseq.len() - k) * visit_cost_bound()
        }),
    decreases vseq.len() - k,
{
    let (ws, cost) = spec_sched_from(ctx, vseq, k, t, seg, prev)->Some_0;
    if k >= vseq.len() {
        assert(vseq.skip(k) =~= Seq::<int>::empty());
    } else {
        let vi = vseq[k];
        let v = ctx.visits[vi];
        let travel = ctx.mat[prev][ctx.rows[vi]] as int;
        let t1 = t + travel;
        let t2 = match v.committed_window {
            Some(c) => if t1 < c.0 as int {
                c.0 as int
            } else {
                t1
            },
            None => t1,
        };
        let dur = v.duration_seconds as int;
        let fit = spec_fit(t2, dur, seg, ctx.segs, v.committed_window)->Some_0;
        let start = fit.0;
        lemma_fit_props(t2, dur, seg, ctx.segs, v.committed_window);
        let c_target = match v.target_time {
            Some(tt) => abs_diff(start, tt as int) * ctx.target_weight,
            None => 0,
        };
        let c_re = match v.current_visitor {
            Some(cv) => if cv@ != ctx.visitor_id {
                ctx.reassignment_penalty
            } else {
                0
            },
            None => 0,
        };
        lemma_sched_from_wf(ctx, vseq, k + 1, start + dur, fit.1, ctx.rows[vi]);
        let (ws1, cost1) = spec_sched_from(ctx, vseq, k + 1, start + dur, fit.1, ctx.rows[vi])->Some_0;
        assert(ws =~= seq![(start, start + dur)] + ws1);
        assert(vseq.skip(k) =~= seq![vi] + vseq.skip(k + 1));
        assert(c_target <= (MAX_TIME as int) * (MAX_TIME as int) && c_target >= 0) by {
            match v.target_time {
                Some(tt) => {
                    let d = abs_diff(start, tt as int);
                    assert(0 <= d <= MAX_TIME as int);
                    assert(d * ctx.target_weight <= (MAX_TIME as int) * (MAX_TIME as int)
                        && d * ctx.target_weight >= 0) by (nonlinear_arith)
                        requires
                            0 <= d <= MAX_TIME as int,
                            0 <= ctx.target_weight <= MAX_TIME as int,
                    ;
                },
                None => {},
            }
        }
        assert(cost == travel + c_target + c_re + cost1);
        assert((vseq.len() - k - 1) * visit_cost_bound() + visit_cost_bound() == (vseq.len() - k)
            * visit_cost_bound()) by (nonlinear_arith);
        assert(cost <= (vseq.len() - k) * visit_cost_bound());
        let ord = vseq.skip(k);
        let ord1 = vseq.skip(k + 1);
        assert(route_windows_wf(ctx.visits, ctx.segs, ord1, ws1));
        assert(ws.len() == ord.len());
        assert forall|i: int| 0 <= i < ws.len() implies (#[trigger] ws[i]).1 == ws[i].0
            + ctx.visits[ord[i]].duration_seconds by {
            if i > 0 {
                assert(ws[i] == ws1[i - 1]);
                assert(ord[i] == ord1[i - 1]);
            }
        }
        assert forall|i: int| 0 <= i && i + 1 < ws.len() implies (#[trigger] ws[i]).1 <= ws[i + 1].0 by {
            if i == 0 {
                assert(ws[1] == ws1[0]);
                assert(ws1.len() > 0 ==> ws1[0].0 >= start + dur);
            } else {
                assert(ws[i] == ws1[i - 1]);
                assert(ws[i + 1] == ws1[i]);
            }
        }
        assert forall|i: int| 0 <= i < ws.len() implies (match ctx.visits[ord[i]].committed_window {
            Some(c) => c.0 <= (#[trigger] ws[i]).0 && ws[i].0 <= c.1 && ws[i].1 <= c.1,
            None => true,
        }) by {
            if i > 0 {
                assert(ws[i] == ws1[i - 1]);
                assert(ord[i] == ord1[i - 1]);
            }
        }
        assert forall|i: int| 0 <= i < ws.len() implies 0 <= (#[trigger] ws[i]).0 && ws[i].1
            <= MAX_TIME by {
            if i > 0 {
                assert(ws[i] == ws1[i - 1]);
            }
        }
        assert forall|i: int| 0 <= i < ws.len() implies exists|g: int|
            0 <= g < ctx.segs.len() && (#[trigger] ctx.segs[g]).0 <= (#[trigger] ws[i]).0 && ws[i].1
                <= ctx.segs[g].1 by {
            if i == 0 {
                assert(0 <= fit.1 < ctx.segs.len() && ctx.segs[fit.1].0 <= ws[0].0 && ws[0].1
                    <= ctx.segs[fit.1].1);
            } else {
                assert(ws[i] == ws1[i - 1]);
                assert(route_windows_wf(ctx.visits, ctx.segs, vseq.skip(k + 1), ws1));
            }
        }
    }
}

/// In a well-formed schedule each window starts no earlier than its
/// position: every visit lasts at least one second and windows do not
/// overlap.
pub proof fn lemma_window_start_ge(
    visits: Seq<Visit>,
    segs: Seq<(u32, u32)>,
    order: Seq<int>,
    ws: Seq<(int, int)>,
    i: int,
)
    requires
        route_windows_wf(visits, segs, order, ws),
        forall|j: int| 0 <= j < order.len() ==> 0 <= #[trigger] order[j] < visits.len(),
        forall|j: int| 0 <= j < visits.len() ==> visit_wf(#[trigger] visits[j]),
        0 <= i < ws.len(),
    ensures
        ws[i].0 >= i,
    decreases i,
{
    if i > 0 {
        lemma_window_start_ge(visits, segs, order, ws, i - 1);
        assert(visit_wf(visits[order[i - 1]]));
        assert(ws[i - 1].1 == ws[i - 1].0 + visits[order[i - 1]].duration_seconds);
        assert(ws[i - 1].1 <= ws[i].0);
    }
}

/// A well-formed schedule holds at most `MAX_TIME` visits: the clock
/// advances by at least one second per visit and never passes `MAX_TIME`.
pub proof fn lemma_windows_len(
    visits: Seq<Visit>,
    segs: Seq<(u32, u32)>,
    order: Seq<int>,
    ws: Seq<(int, int)>,
)
    requires
        route_windows_wf(visits, segs, order, ws),
        forall|j: int| 0 <= j < order.len() ==> 0 <= #[trigger] order[j] < visits.len(),
        forall|j: int| 0 <= j < visits.len() ==> visit_wf(#[trigger] visits[j]),
    ensures
        ws.len() <= MAX_TIME,
        order.len() <= MAX_TIME,
{
    if ws.len() > MAX_TIME {
        let i = MAX_TIME as int;
        lemma_window_start_ge(visits, segs, order, ws, i);
        assert(visit_wf(visits[order[i]]));
        assert(ws[i].1 == ws[i].0 + visits[order[i]].duration_seconds);
        assert(ws[i].1 <= MAX_TIME);
        assert(false);
    }
}

/// Prefix windows and cost already committed, composed with the outcome
/// of scheduling the remaining visits.
pub open spec fn sched_compose(
    pre_ws: Seq<(int, int)>,
    pre_cost: int,
    rest: Option<(Seq<(int, int)>, int)>,
) -> Option<(Seq<(int, int)>, int)> {
    match rest {
        None => None,
        Some(r) => Some((pre_ws + r.0, pre_cost + r.1)),
    }
}

pub proof fn lemma_compose_nil(rest: Option<(Seq<(int, int)>, int)>)
    ensures
        sched_compose(Seq::empty(), 0, rest) == rest,
{
    match rest {
        None => {},
        Some(r) => {
            assert(Seq::empty() + r.0 =~= r.0);
        },
    }
}

pub proof fn lemma_compose_end(pre_ws: Seq<(int, int)>, pre_cost: int)
    ensures
        sched_compose(pre_ws, pre_cost, Some((Seq::empty(), 0))) == Some((pre_ws, pre_cost)),
{
    assert(pre_ws + Seq::empty() =~= pre_ws);
}

/// Absorbing one scheduled visit into the committed prefix.
pub proof fn lemma_compose_step(
    pre_ws: Seq<(int, int)>,
    pre_cost: int,
    w: (int, int),
    add: int,
    rest: Option<(Seq<(int, int)>, int)>,
)
    ensures
        sched_compose(
            pre_ws,
            pre_cost,
            (match rest {
                None => None,
                Some(r) => Some((seq![w] + r.0, add + r.1)),
            }),
        ) == sched_compose(pre_ws.push(w), pre_cost + add, rest),
{
    match rest {
        None => {},
        Some(r) => {
            assert(pre_ws + (seq![w] + r.0) =~= pre_ws.push(w) + r.0);
        },
    }
}

pub proof fn lemma_wins_push(s: Seq<(u32, u32)>, x: (u32, u32))
    ensures
        wins(s.push(x)) == wins(s).push((x.0 as int, x.1 as int)),
{
    assert(wins(s.push(x)) =~= wins(s).push((x.0 as int, x.1 as int)));
}

/// Find the earliest availability segment at or after `current_window_idx`
/// in which a visit fits entirely, exactly as `spec_fit` describes.
pub fn find_fitting_window(
    earliest_start: u64,
    duration: u32,
    current_window_idx: usize,
    windows: &Vec<(u32, u32)>,
    committed_window: Option<(u32, u32)>,
) -> (r: Option<(u64, usize)>)
    requires
        earliest_start <= 3 * (MAX_TIME as u64),
        forall|j: int|
            0 <= j < windows@.len() ==> (#[trigger] windows@[j]).0 <= MAX_TIME && windows@[j].1
                <= MAX_TIME,
    ensures
        (match r {
            Some((s, gi)) => spec_fit(
                earliest_start as int,
                duration as int,
                current_window_idx as int,
                windows@,
                committed_window,
            ) == Some((s as int, gi as int)),
            None => spec_fit(
                earliest_start as int,
                duration as int,
                current_window_idx as int,
                windows@,
                committed_window,
            ) is None,
        }),
{
    let t = earliest_start;
    let dur = duration as u64;
    let mut idx = current_window_idx;
    while idx < windows.len()
        invariant
            current_window_idx <= idx,
            t == earliest_start,
            t <= 3 * (MAX_TIME as u64),
            dur == duration as u64,
            forall|j: int|
                0 <= j < windows@.len() ==> (#[trigger] windows@[j]).0 <= MAX_TIME && windows@[j].1
                    <= MAX_TIME,
            spec_fit(t as int, duration as int, current_window_idx as int, windows@, committed_window)
                == spec_fit(t as int, duration as int, idx as int, windows@, committed_window),
        decreases windows.len() - idx,
    {
        let (window_start, window_end) = windows[idx];
        let s0: u64 = if t > window_start as u64 {
            t
        } else {
            window_start as u64
        };
        match committed_window {
            Some((committed_start, committed_end)) => {
                if (committed_end as u64) < (window_start as u64) {
                    return None;
                }
                if (committed_start as u64) > (window_end as u64) {
                    idx = idx + 1;
                    continue ;
                }
                let s: u64 = if s0 > committed_start as u64 {
                    s0
                } else {
                    committed_start as u64
                };
                if s + dur <= window_end as u64 && s <= committed_end as u64 && s + dur
                    <= committed_end as u64 {
                    return Some((s, idx));
                }
                idx = idx + 1;
            },
            None => {
                if s0 + dur <= window_end as u64 {
                    return Some((s0, idx));
                }
                idx = idx + 1;
            },
        }
    }
    None
}

/// Schedule the visit sequence `order` for one visitor: either per-visit
/// `(start, end)` windows plus the route's composite cost, or `None` when
/// the sequence cannot be scheduled. The result is exactly
/// `spec_schedule` of the inputs, so scheduling is deterministic, and a
/// feasible result satisfies every route invariant (`route_windows_wf`).
#[verifier::loop_isolation(false)]
pub fn compute_schedule<A: AvailabilityProvider>(
    service_date: i64,
    visitor_id: &String,
    visitor_row: Option<usize>,
    order: &Vec<usize>,
    visits: &Vec<Visit>,
    rows: &Vec<usize>,
    availability: &A,
    matrix: &Vec<Vec<u32>>,
    options: &SolveOptions,
) -> (r: Option<(Vec<(u32, u32)>, u64)>)
    requires
        rows@.len() == visits@.len(),
        forall|i: int| 0 <= i < rows@.len() ==> (#[trigger] rows@[i]) < matrix@.len(),
        forall|i: int| 0 <= i < matrix@.len() ==> (#[trigger] matrix@[i])@.len() == matrix@.len(),
        forall|i: int, j: int|
            0 <= i < matrix@.len() && 0 <= j < matrix@.len() ==> (#[trigger] matrix@[i]@[j])
                <= MAX_TIME,
        forall|i: int| 0 <= i < order@.len() ==> (#[trigger] order@[i]) < visits@.len(),
        (match visitor_row {
            Some(vr) => vr < matrix@.len(),
            None => true,
        }),
        forall|i: int| 0 <= i < visits@.len() ==> visit_wf(#[trigger] visits@[i]),
        options_wf(*options),
        avail_bounded(availability.spec_availability(visitor_id@, service_date as int)),
    ensures
        ({
            let s = spec_schedule(
                availability.spec_availability(visitor_id@, service_date as int),
                visitor_id@,
                (match visitor_row {
                    Some(vr) => Some(vr as int),
                    None => None,
                }),
                useq(order@),
                visits@,
                useq(rows@),
                crate::traits::mat_view(matrix@),
                options.target_time_weight as int,
                options.reassignment_penalty as int,
            );
            match r {
                Some(p) => s == Some((wins(p.0@), p.1 as int)),
                None => s is None,
            }
        }),
        (match r {
            Some(p) => availability.spec_availability(visitor_id@, service_date as int) matches Some(
                segs,
            ) && route_windows_wf(visits@, segs, useq(order@), wins(p.0@)) && p.0@.len()
                == order@.len() && p.1 as int <= cost_cap(),
            None => true,
        }),
{
    let ghost avail_spec = availability.spec_availability(visitor_id@, service_date as int);
    let ghost vrow_spec: Option<int> = match visitor_row {
        Some(vr) => Some(vr as int),
        None => None,
    };
    let ghost full = spec_schedule(
        avail_spec,
        visitor_id@,
        vrow_spec,
        useq(order@),
        visits@,
        useq(rows@),
        crate::traits::mat_view(matrix@),
        options.target_time_weight as int,
        options.reassignment_penalty as int,
    );
    let segs = match availability.availability_for(visitor_id, service_date) {
        None => {
            return None;
        },
        Some(s) => s,
    };
    if segs.len() == 0 {
        return None;
    }
    let ghost ctx = SchedCtx {
        visits: visits@,
        rows: useq(rows@),
        mat: crate::traits::mat_view(matrix@),
        segs: segs@,
        visitor_id: visitor_id@,
        target_weight: options.target_time_weight as int,
        reassignment_penalty: options.reassignment_penalty as int,
    };
    let ghost vs = useq(order@);
    let mut prev: usize = match visitor_row {
        Some(vr) => vr,
        None => {
            if order.len() > 0 {
                rows[order[0]]
            } else {
                0
            }
        },
    };
    let mut t: u64 = segs[0].0 as u64;
    let mut seg: usize = 0;
    let mut cost: u64 = 0;
    let mut result_windows: Vec<(u32, u32)> = Vec::new();
    let mut k: usize = 0;
    let ghost t0 = t as int;
    let ghost prev0 = prev as int;
    proof {
        assert(full == spec_sched_from(ctx, vs, 0, t0, 0, prev0));
        lemma_compose_nil(spec_sched_from(ctx, vs, 0, t0, 0, prev0));
    }
    while k < order.len()
        invariant
            k <= order@.len(),
            result_windows@.len() == k,
            t as int <= 2 * (MAX_TIME as int),
            seg < segs@.len(),
            k < order@.len() ==> prev < matrix@.len(),
            cost as int <= (t as int + 1) * visit_cost_bound(),
            sched_compose(
                wins(result_windows@),
                cost as int,
                spec_sched_from(ctx, vs, k as int, t as int, seg as int, prev as int),
            ) == full,
        decreases order@.len() - k,
    {
        let ghost w_old = wins(result_windows@);
        let ghost c_old = cost as int;
        let ghost k_old = k as int;
        let ghost t_old = t as int;
        let ghost seg_old = seg as int;
        let ghost prev_old = prev as int;
        let vi = order[k];
        let v_dur = visits[vi].duration_seconds;
        let v_cw = visits[vi].committed_window;
        let v_tt = visits[vi].target_time;
        proof {
            assert(vs[k as int] == vi as int);
            assert(ctx.mat[prev as int] == matrix@[prev as int]@);
            assert(ctx.rows[vi as int] == rows@[vi as int] as int);
        }
        let travel = matrix[prev][rows[vi]];
        let t1: u64 = t + travel as u64;
        let mut t2: u64 = t1;
        let mut late = false;
        match v_cw {
            Some((cs, ce)) => {
                if t2 < cs as u64 {
                    t2 = cs as u64;
                }
                if t2 > ce as u64 {
                    late = true;
                }
            },
            None => {},
        }
        if late {
            proof {
                assert(spec_sched_from(ctx, vs, k_old, t_old, seg_old, prev_old) is None);
            }
            return None;
        }
        match find_fitting_window(t2, v_dur, seg, &segs, v_cw) {
            None => {
                proof {
                    assert(spec_sched_from(ctx, vs, k_old, t_old, seg_old, prev_old) is None);
                }
                return None;
            },
            Some((start, gi)) => {
                proof {
                    lemma_fit_props(t2 as int, v_dur as int, seg as int, segs@, v_cw);
                }
                let end_t: u64 = start + v_dur as u64;
                let mut add: u64 = travel as u64;
                match v_tt {
                    Some(tt) => {
                        let diff: u64 = if start >= tt as u64 {
                            start - tt as u64
                        } else {
                            tt as u64 - start
                        };
                        proof {
                            assert(diff as int == abs_diff(start as int, tt as int));
                            assert(diff as int * options.target_time_weight as int <= (
                            MAX_TIME as int) * (MAX_TIME as int) && diff as int
                                * options.target_time_weight as int >= 0) by (nonlinear_arith)
                                requires
                                    0 <= diff as int <= MAX_TIME as int,
                                    0 <= options.target_time_weight as int <= MAX_TIME as int,
                            ;
                        }
                        add = add + diff * options.target_time_weight as u64;
                    },
                    None => {},
                }
                let mut reassigned = false;
                match &visits[vi].current_visitor {
                    Some(cv) => {
                        if !(*cv == *visitor_id) {
                            reassigned = true;
                        }
                    },
                    None => {},
                }
                if reassigned {
                    add = add + options.reassignment_penalty as u64;
                }
                proof {
                    assert(add as int <= visit_cost_bound());
                    assert((t_old + 1) * visit_cost_bound() <= (2 * (MAX_TIME as int) + 1)
                        * visit_cost_bound()) by (nonlinear_arith)
                        requires
                            0 <= t_old + 1 <= 2 * (MAX_TIME as int) + 1,
                    ;
                    assert(visit_wf(visits@[vi as int]));
                    assert(end_t >= t_old + 1);
                    assert((t_old + 2) * visit_cost_bound() <= (end_t as int + 1)
                        * visit_cost_bound()) by (nonlinear_arith)
                        requires
                            t_old + 2 <= end_t as int + 1,
                    ;
                    assert((t_old + 2) * visit_cost_bound() == (t_old + 1) * visit_cost_bound()
                        + visit_cost_bound()) by (nonlinear_arith);
                }
                cost = cost + add;
                result_windows.push((start as u32, end_t as u32));
                t = end_t;
                seg = gi;
                prev = rows[vi];
                k = k + 1;
                proof {
                    let ghost rest = spec_sched_from(
                        ctx,
                        vs,
                        k_old + 1,
                        t as int,
                        seg as int,
                        prev as int,
                    );
                    assert(spec_sched_from(ctx, vs, k_old, t_old, seg_old, prev_old) == (match rest {
                        None => None,
                        Some(r0) => Some(
                            (seq![(start as int, end_t as int)] + r0.0, add as int + r0.1),
                        ),
                    }));
                    lemma_compose_step(
                        w_old,
                        c_old,
                        (start as int, end_t as int),
                        add as int,
                        rest,
                    );
                    lemma_wins_push(
                        result_windows@.drop_last(),
                        (start as u32, end_t as u32),
                    );
                    assert(result_windows@.drop_last() =~= result_windows@.take(
                        result_windows@.len() - 1,
                    ));
                    assert(wins(result_windows@) == w_old.push((start as int, end_t as int)));
                }
            },
        }
    }
    proof {
        assert(spec_sched_from(ctx, vs, k as int, t as int, seg as int, prev as int) == Some(
            (Seq::<(int, int)>::empty(), 0int),
        ));
        lemma_compose_end(wins(result_windows@), cost as int);
        lemma_sched_from_wf(ctx, vs, 0, t0, 0, prev0);
        assert(vs.skip(0) =~= vs);
        assert((t as int + 1) * visit_cost_bound() <= cost_cap()) by (nonlinear_arith)
            requires
                0 <= t as int + 1 <= 2 * (MAX_TIME as int) + 1,
        ;
    }
    Some((result_windows, cost))
}

} // verus!
