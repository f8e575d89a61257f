//! The greedy spline corridor: one pass over sorted keys that emits the
//! spline points, stated as a state machine over the scan and proved to keep
//! every key within `max_error` of its interpolated position.

use crate::common::{steeper, Line, Point};
use vstd::prelude::*;

verus! {

/// Keys in non-decreasing order.
pub open spec fn sorted(data: Seq<u64>) -> bool {
    forall|i: int, j: int| 0 <= i <= j < data.len() ==> data[i] <= data[j]
}

/// The input the index is built over: at least three sorted keys spanning a
/// non-empty range.
pub open spec fn valid_keys(data: Seq<u64>) -> bool {
    &&& data.len() >= 3
    &&& sorted(data)
    &&& data[0] < data[data.len() - 1]
}

/// The point `(data[i], i)`.
pub open spec fn point_at(data: Seq<u64>, i: int) -> Point {
    Point { key: data[i], position: i as usize }
}

/// The upper corridor bound contributed by index `i`: `(data[i], i + eps)`.
pub open spec fn upper_at(data: Seq<u64>, eps: usize, i: int) -> Point {
    Point { key: data[i], position: (i + eps) as usize }
}

/// The lower corridor bound contributed by index `i`: `(data[i], i - eps)`,
/// saturating at zero.
pub open spec fn lower_at(data: Seq<u64>, eps: usize, i: int) -> Point {
    Point { key: data[i], position: if i >= eps { (i - eps) as usize } else { 0usize } }
}

/// The line from `a` to `b`.
pub open spec fn line(a: Point, b: Point) -> Line {
    Line { start: a, end: b }
}

/// The state of the scan: the points emitted so far, the base (the last
/// emitted point) and the two corridor bounds.
pub struct CorridorState {
    pub points: Seq<Point>,
    pub base: Point,
    pub upper: Point,
    pub lower: Point,
}

/// The state before index 2 is considered.
pub open spec fn corridor_start(data: Seq<u64>, eps: usize) -> CorridorState {
    CorridorState {
        points: seq![point_at(data, 0)],
        base: point_at(data, 0),
        upper: upper_at(data, eps, 1),
        lower: lower_at(data, eps, 1),
    }
}

/// One step of the scan, on the candidate `(data[i], i)`.
pub open spec fn corridor_step(data: Seq<u64>, eps: usize, st: CorridorState, i: int) -> CorridorState {
    let c = point_at(data, i);
    let b = st.base;
    if b.key == c.key || b.key == st.upper.key || b.key == st.lower.key {
        // a vertical line: absorb the candidate and restart the corridor there
        CorridorState { upper: upper_at(data, eps, i), lower: lower_at(data, eps, i), ..st }
    } else if steeper(line(b, c), line(b, st.upper)) || steeper(line(b, st.lower), line(b, c)) {
        // the candidate leaves the corridor: the previous key becomes a spline point
        let p = point_at(data, i - 1);
        CorridorState {
            points: st.points.push(p),
            base: p,
            upper: upper_at(data, eps, i),
            lower: lower_at(data, eps, i),
        }
    } else {
        let u = upper_at(data, eps, i);
        let l = lower_at(data, eps, i);
        CorridorState {
            upper: if steeper(line(b, st.upper), line(b, u)) { u } else { st.upper },
            lower: if steeper(line(b, l), line(b, st.lower)) { l } else { st.lower },
            ..st
        }
    }
}

/// The state after the candidates `2..i` have been considered.
pub open spec fn corridor_after(data: Seq<u64>, eps: usize, i: int) -> CorridorState
    decreases i,
{
    if i <= 2 {
        corridor_start(data, eps)
    } else {
        corridor_step(data, eps, corridor_after(data, eps, i - 1), i - 1)
    }
}

/// The spline points of `data` for the error bound `eps`.
pub open spec fn spline_of(data: Seq<u64>, eps: usize) -> Seq<Point> {
    corridor_after(data, eps, data.len() as int).points.push(point_at(data, data.len() - 1))
}

/// `a.position * run + (k - a.key) * rise`: the position that the line from `a`
/// to `b` gives to key `k`, multiplied by the run `b.key - a.key`.
pub open spec fn interp_scaled(a: Point, b: Point, k: int) -> int {
    a.position * (b.key - a.key) + (k - a.key) * (b.position - a.position)
}

/// The line from `a` to `b` places key `k` within `eps` of position `t`.
pub open spec fn within_error(a: Point, b: Point, k: int, t: int, eps: int) -> bool {
    (t - eps) * (b.key - a.key) <= interp_scaled(a, b, k) <= (t + eps) * (b.key - a.key)
}

/// Every index strictly inside the segment from `a` to `b`, whose key is above
/// `a`'s, is placed within `eps` of its position by the segment.
pub open spec fn segment_ok(data: Seq<u64>, eps: int, a: Point, b: Point) -> bool {
    forall|t: int|
        a.position < t < b.position && a.key < data[t] ==> within_error(
            a,
            b,
            data[t] as int,
            t,
            eps,
        )
}

/// The shape of a spline over `data`: it starts at `(data[0], 0)` and ends at
/// `(data[n-1], n-1)`; every point is a point of the data; positions strictly
/// increase; keys never decrease, and strictly increase but between the last
/// two points; every segment keeps its keys within `eps`.
pub open spec fn spline_ok(data: Seq<u64>, eps: int, s: Seq<Point>) -> bool {
    &&& s.len() >= 2
    &&& s[0] == point_at(data, 0)
    &&& s[s.len() - 1] == point_at(data, data.len() - 1)
    &&& forall|q: int|
        0 <= q < s.len() ==> s[q].position < data.len() && #[trigger] s[q] == point_at(
            data,
            s[q].position as int,
        )
    &&& forall|q: int| 0 <= q < s.len() - 1 ==> #[trigger] s[q].position < s[q + 1].position
    &&& forall|q: int| 0 <= q < s.len() - 1 ==> #[trigger] s[q].key <= s[q + 1].key
    &&& forall|q: int| 0 <= q < s.len() - 2 ==> #[trigger] s[q].key < s[q + 1].key
    &&& forall|q: int| 0 <= q < s.len() - 1 ==> #[trigger] segment_ok(data, eps, s[q], s[q + 1])
}

/// The points emitted so far: they start at `(data[0], 0)`, lie on the data,
/// strictly increase in position and key, and each segment keeps its keys
/// within `eps`.
spec fn emitted_ok(data: Seq<u64>, eps: usize, pts: Seq<Point>) -> bool {
    &&& pts.len() >= 1
    &&& pts[0] == point_at(data, 0)
    &&& forall|q: int| 0 <= q < pts.len() ==> #[trigger] pts[q] == point_at(data, pts[q].position as int)
    &&& forall|q: int| 0 <= q < pts.len() - 1 ==> #[trigger] pts[q].position < pts[q + 1].position
    &&& forall|q: int| 0 <= q < pts.len() - 1 ==> #[trigger] pts[q].key < pts[q + 1].key
    &&& forall|q: int|
        0 <= q < pts.len() - 1 ==> #[trigger] segment_ok(data, eps as int, pts[q], pts[q + 1])
}

/// Every bound of the corridor from `b` is at least as tight as the bound of
/// each index in `(b.position, i)` whose key is above `b`'s.
spec fn bounds_tight(data: Seq<u64>, eps: usize, b: Point, upper: Point, lower: Point, i: int) -> bool {
    forall|j: int|
        b.position < j < i && data[j] > b.key ==> !steeper(
            line(b, upper),
            #[trigger] line(b, upper_at(data, eps, j)),
        ) && !steeper(line(b, lower_at(data, eps, j)), line(b, lower))
}

/// The segment from `b` to `p` keeps every index in `(b.position, i)` whose
/// key is above `b`'s within its corridor.
spec fn feasible(data: Seq<u64>, eps: usize, b: Point, p: Point, i: int) -> bool {
    forall|j: int|
        b.position < j < i && data[j] > b.key ==> !steeper(line(b, p), #[trigger] line(b, upper_at(data, eps, j)))
            && !steeper(line(b, lower_at(data, eps, j)), line(b, p))
}

/// What holds of the scan's state before candidate `i`.
spec fn scan_inv(data: Seq<u64>, eps: usize, st: CorridorState, i: int) -> bool {
    let b = st.base;
    let m = b.position as int;
    &&& 2 <= i <= data.len()
    &&& 0 <= m <= i - 2
    &&& b == point_at(data, m)
    &&& b.key <= st.upper.key <= data[i - 1]
    &&& b.key <= st.lower.key <= data[i - 1]
    &&& (st.upper.key == b.key || st.lower.key == b.key) ==> data[i - 1] == b.key
    &&& (st.upper.key > b.key && st.lower.key > b.key) ==> bounds_tight(data, eps, b, st.upper, st.lower, i)
    &&& data[i - 1] > b.key ==> feasible(data, eps, b, point_at(data, i - 1), i)
    &&& emitted_ok(data, eps, st.points)
    &&& st.points[st.points.len() - 1] == b
}

/// Not steeper is transitive among lines with positive runs.
proof fn lemma_not_steeper_trans(a: Line, b: Line, c: Line)
    requires
        a.run() > 0,
        b.run() > 0,
        c.run() > 0,
        !steeper(a, b),
        !steeper(b, c),
    ensures
        !steeper(a, c),
{
    let (ar, ad, br, bd, cr, cd) = (a.rise(), a.run(), b.rise(), b.run(), c.rise(), c.run());
    assert(ar * cd <= cr * ad) by (nonlinear_arith)
        requires
            ad > 0,
            bd > 0,
            cd > 0,
            ar * bd <= br * ad,
            br * cd <= cr * bd,
    {
        assert(ar * bd * cd <= br * ad * cd);
        assert(br * cd * ad <= cr * bd * ad);
        assert(ar * cd * bd <= cr * ad * bd);
    }
}

/// Between two lines from `a` to the same key, the one that ends higher is the steeper.
proof fn lemma_same_key(a: Point, p: Point, q: Point)
    requires
        a.key < p.key,
        p.key == q.key,
    ensures
        steeper(line(a, p), line(a, q)) <==> p.position > q.position,
{
    let d = p.key - a.key;
    let rp = p.position - a.position;
    let rq = q.position - a.position;
    assert(rp * d > rq * d <==> rp > rq) by (nonlinear_arith)
        requires
            d > 0,
    ;
}

/// A point within the corridor of `t` is placed within `eps` of `t` by the segment.
proof fn lemma_constraint_within(data: Seq<u64>, eps: usize, a: Point, p: Point, t: int)
    requires
        0 <= t < data.len(),
        t + eps <= usize::MAX,
        a.key < data[t],
        a.key < p.key,
        !steeper(line(a, p), line(a, upper_at(data, eps, t))),
        !steeper(line(a, lower_at(data, eps, t)), line(a, p)),
    ensures
        within_error(a, p, data[t] as int, t, eps as int),
{
    let run = p.key - a.key;
    let dk = data[t] - a.key;
    let rise = p.position - a.position;
    let lo = lower_at(data, eps, t).position as int;
    assert(lo >= t - eps);
    assert(rise * dk <= (t + eps - a.position) * run);
    assert((lo - a.position) * run <= rise * dk);
    let ap = a.position as int;
    let e = eps as int;
    assert((t - e) * run <= ap * run + dk * rise <= (t + e) * run) by (nonlinear_arith)
        requires
            run > 0,
            lo >= t - e,
            rise * dk <= (t + e - ap) * run,
            (lo - ap) * run <= rise * dk,
    ;
}

proof fn lemma_start_inv(data: Seq<u64>, eps: usize)
    requires
        valid_keys(data),
        data.len() + eps <= usize::MAX,
    ensures
        scan_inv(data, eps, corridor_start(data, eps), 2),
{
    let st = corridor_start(data, eps);
    let b = st.base;
    if data[1] > b.key {
        lemma_same_key(b, point_at(data, 1), upper_at(data, eps, 1));
        lemma_same_key(b, lower_at(data, eps, 1), point_at(data, 1));
    }
}

/// A corridor that restarts at `c`, the first key above the base's.
proof fn lemma_fresh_corridor(data: Seq<u64>, eps: usize, b: Point, i: int)
    requires
        valid_keys(data),
        data.len() + eps <= usize::MAX,
        0 <= b.position < i < data.len(),
        b.key == data[b.position as int],
        data[i] > b.key,
        forall|j: int| b.position < j < i ==> data[j] == b.key,
    ensures
        bounds_tight(data, eps, b, upper_at(data, eps, i), lower_at(data, eps, i), i + 1),
        feasible(data, eps, b, point_at(data, i), i + 1),
{
    let c = point_at(data, i);
    let u = upper_at(data, eps, i);
    let l = lower_at(data, eps, i);
    lemma_same_key(b, c, u);
    lemma_same_key(b, l, c);
    lemma_same_key(b, u, u);
    lemma_same_key(b, l, l);
}

#[verifier::rlimit(30)]
proof fn lemma_vertical_step(data: Seq<u64>, eps: usize, st: CorridorState, i: int)
    requires
        valid_keys(data),
        data.len() + eps <= usize::MAX,
        scan_inv(data, eps, st, i),
        i < data.len(),
        st.base.key == data[i] || st.base.key == st.upper.key || st.base.key == st.lower.key,
    ensures
        scan_inv(
            data,
            eps,
            CorridorState { upper: upper_at(data, eps, i), lower: lower_at(data, eps, i), ..st },
            i + 1,
        ),
{
    let b = st.base;
    let m = b.position as int;
    assert(data[m] <= data[i - 1] <= data[i]);
    if data[i] > b.key {
        assert(data[i - 1] == b.key);
        assert forall|j: int| m < j < i implies data[j] == b.key by {
            assert(data[m] <= data[j] <= data[i - 1]);
        }
        lemma_fresh_corridor(data, eps, b, i);
    }
}

#[verifier::rlimit(30)]
proof fn lemma_emit_step(data: Seq<u64>, eps: usize, st: CorridorState, i: int)
    requires
        valid_keys(data),
        data.len() + eps <= usize::MAX,
        scan_inv(data, eps, st, i),
        i < data.len(),
        st.base.key < data[i],
        st.base.key < st.upper.key,
        st.base.key < st.lower.key,
    ensures
        scan_inv(
            data,
            eps,
            CorridorState {
                points: st.points.push(point_at(data, i - 1)),
                base: point_at(data, i - 1),
                upper: upper_at(data, eps, i),
                lower: lower_at(data, eps, i),
            },
            i + 1,
        ),
{
    let b = st.base;
    let p = point_at(data, i - 1);
    assert(data[i - 1] > b.key);
    assert(data[i - 1] <= data[i]);
    assert forall|t: int| b.position < t < p.position && b.key < data[t] implies within_error(
        b,
        p,
        data[t] as int,
        t,
        eps as int,
    ) by {
        lemma_constraint_within(data, eps, b, p, t);
    }
    lemma_push_point(data, eps, st.points, p);
    if data[i] > p.key {
        lemma_fresh_corridor(data, eps, p, i);
    }
}

proof fn lemma_tighten_step(data: Seq<u64>, eps: usize, st: CorridorState, i: int)
    requires
        valid_keys(data),
        data.len() + eps <= usize::MAX,
        scan_inv(data, eps, st, i),
        i < data.len(),
        st.base.key < data[i],
        st.base.key < st.upper.key,
        st.base.key < st.lower.key,
        !steeper(line(st.base, point_at(data, i)), line(st.base, st.upper)),
        !steeper(line(st.base, st.lower), line(st.base, point_at(data, i))),
    ensures
        ({
            let b = st.base;
            let u = upper_at(data, eps, i);
            let l = lower_at(data, eps, i);
            scan_inv(
                data,
                eps,
                CorridorState {
                    upper: if steeper(line(b, st.upper), line(b, u)) { u } else { st.upper },
                    lower: if steeper(line(b, l), line(b, st.lower)) { l } else { st.lower },
                    ..st
                },
                i + 1,
            )
        }),
{
    let b = st.base;
    assert(data[i - 1] <= data[i]);
    lemma_tighten_bounds(data, eps, b, st.upper, st.lower, i);
    lemma_tighten_feasible(data, eps, b, st.upper, st.lower, i);
}

#[verifier::rlimit(30)]
proof fn lemma_tighten_bounds(data: Seq<u64>, eps: usize, b: Point, upper: Point, lower: Point, i: int)
    requires
        0 <= b.position < i < data.len(),
        data.len() + eps <= usize::MAX,
        b.key < data[i],
        b.key < upper.key,
        b.key < lower.key,
        bounds_tight(data, eps, b, upper, lower, i),
    ensures
        ({
            let u = upper_at(data, eps, i);
            let l = lower_at(data, eps, i);
            let nu = if steeper(line(b, upper), line(b, u)) { u } else { upper };
            let nl = if steeper(line(b, l), line(b, lower)) { l } else { lower };
            bounds_tight(data, eps, b, nu, nl, i + 1)
        }),
{
    let u = upper_at(data, eps, i);
    let l = lower_at(data, eps, i);
    let nu = if steeper(line(b, upper), line(b, u)) { u } else { upper };
    let nl = if steeper(line(b, l), line(b, lower)) { l } else { lower };
    lemma_same_key(b, u, u);
    lemma_same_key(b, l, l);
    assert forall|j: int| b.position < j < i + 1 && data[j] > b.key implies !steeper(
        line(b, nu),
        #[trigger] line(b, upper_at(data, eps, j)),
    ) && !steeper(line(b, lower_at(data, eps, j)), line(b, nl)) by {
        let uj = line(b, upper_at(data, eps, j));
        let lj = line(b, lower_at(data, eps, j));
        if j < i {
            if nu == u {
                lemma_not_steeper_trans(line(b, u), line(b, upper), uj);
            }
            if nl == l {
                lemma_not_steeper_trans(lj, line(b, lower), line(b, l));
            }
        }
    }
}

#[verifier::rlimit(30)]
proof fn lemma_tighten_feasible(data: Seq<u64>, eps: usize, b: Point, upper: Point, lower: Point, i: int)
    requires
        0 <= b.position < i < data.len(),
        data.len() + eps <= usize::MAX,
        b.key < data[i],
        b.key < upper.key,
        b.key < lower.key,
        bounds_tight(data, eps, b, upper, lower, i),
        !steeper(line(b, point_at(data, i)), line(b, upper)),
        !steeper(line(b, lower), line(b, point_at(data, i))),
    ensures
        feasible(data, eps, b, point_at(data, i), i + 1),
{
    let c = point_at(data, i);
    lemma_same_key(b, c, upper_at(data, eps, i));
    lemma_same_key(b, lower_at(data, eps, i), c);
    assert forall|j: int| b.position < j < i + 1 && data[j] > b.key implies !steeper(
        line(b, c),
        #[trigger] line(b, upper_at(data, eps, j)),
    ) && !steeper(line(b, lower_at(data, eps, j)), line(b, c)) by {
        let uj = line(b, upper_at(data, eps, j));
        let lj = line(b, lower_at(data, eps, j));
        if j < i {
            lemma_not_steeper_trans(line(b, c), line(b, upper), uj);
            lemma_not_steeper_trans(lj, line(b, lower), line(b, c));
        }
    }
}

#[verifier::rlimit(30)]
proof fn lemma_push_point(data: Seq<u64>, eps: usize, pts: Seq<Point>, p: Point)
    requires
        emitted_ok(data, eps, pts),
        p == point_at(data, p.position as int),
        pts[pts.len() - 1].position < p.position,
        pts[pts.len() - 1].key < p.key,
        segment_ok(data, eps as int, pts[pts.len() - 1], p),
    ensures
        emitted_ok(data, eps, pts.push(p)),
{
    let np = pts.push(p);
    assert forall|q: int| 0 <= q < np.len() - 1 implies #[trigger] segment_ok(
        data,
        eps as int,
        np[q],
        np[q + 1],
    ) && np[q].key < np[q + 1].key && np[q].position < np[q + 1].position by {
        if q < np.len() - 2 {
            assert(np[q] == pts[q] && np[q + 1] == pts[q + 1]);
        }
    }
    assert forall|q: int| 0 <= q < np.len() implies #[trigger] np[q] == point_at(data, np[q].position as int) by {
        if q < np.len() - 1 {
            assert(np[q] == pts[q]);
        }
    }
}

#[verifier::rlimit(30)]
proof fn lemma_step_inv(data: Seq<u64>, eps: usize, st: CorridorState, i: int)
    requires
        valid_keys(data),
        data.len() + eps <= usize::MAX,
        scan_inv(data, eps, st, i),
        i < data.len(),
    ensures
        scan_inv(data, eps, corridor_step(data, eps, st, i), i + 1),
{
    let c = point_at(data, i);
    let b = st.base;
    assert(data[b.position as int] <= data[i]);
    if b.key == c.key || b.key == st.upper.key || b.key == st.lower.key {
        lemma_vertical_step(data, eps, st, i);
    } else if steeper(line(b, c), line(b, st.upper)) || steeper(line(b, st.lower), line(b, c)) {
        lemma_emit_step(data, eps, st, i);
    } else {
        lemma_tighten_step(data, eps, st, i);
    }
}

proof fn lemma_after_inv(data: Seq<u64>, eps: usize, i: int)
    requires
        valid_keys(data),
        data.len() + eps <= usize::MAX,
        2 <= i <= data.len(),
    ensures
        scan_inv(data, eps, corridor_after(data, eps, i), i),
    decreases i,
{
    if i <= 2 {
        lemma_start_inv(data, eps);
    } else {
        lemma_after_inv(data, eps, i - 1);
        lemma_step_inv(data, eps, corridor_after(data, eps, i - 1), i - 1);
    }
}

/// The spline of valid keys has the shape that `spline_ok` describes: its
/// ends are the first and the last key, and every key inside a segment is
/// interpolated within `eps` of its position.
#[verifier::rlimit(30)]
pub proof fn lemma_spline_shape(data: Seq<u64>, eps: usize)
    requires
        valid_keys(data),
        data.len() + eps <= usize::MAX,
    ensures
        spline_ok(data, eps as int, spline_of(data, eps)),
{
    let n = data.len() as int;
    lemma_after_inv(data, eps, n);
    let st = corridor_after(data, eps, n);
    let b = st.base;
    let f = point_at(data, n - 1);
    let s = spline_of(data, eps);
    if data[n - 1] > b.key {
        assert forall|t: int| b.position < t < f.position && b.key < data[t] implies within_error(
            b,
            f,
            data[t] as int,
            t,
            eps as int,
        ) by {
            lemma_constraint_within(data, eps, b, f, t);
        }
    }
    assert(segment_ok(data, eps as int, b, f));
    assert forall|q: int| 0 <= q < s.len() - 1 implies #[trigger] segment_ok(data, eps as int, s[q], s[q + 1]) by {
        if q < s.len() - 2 {
            assert(s[q] == st.points[q] && s[q + 1] == st.points[q + 1]);
        }
    }
    assert forall|q: int| 0 <= q < s.len() - 1 implies #[trigger] s[q].key <= s[q + 1].key by {
        if q < s.len() - 2 {
            assert(s[q] == st.points[q] && s[q + 1] == st.points[q + 1]);
        }
    }
    assert forall|q: int| 0 <= q < s.len() - 2 implies #[trigger] s[q].key < s[q + 1].key by {
        assert(s[q] == st.points[q] && s[q + 1] == st.points[q + 1]);
    }
    assert forall|q: int| 0 <= q < s.len() - 1 implies #[trigger] s[q].position < s[q + 1].position by {
        if q < s.len() - 2 {
            assert(s[q] == st.points[q] && s[q + 1] == st.points[q + 1]);
        }
    }
    assert forall|q: int| 0 <= q < s.len() implies s[q].position < data.len() && #[trigger] s[q] == point_at(
        data,
        s[q].position as int,
    ) by {
        if q < s.len() - 1 {
            assert(s[q] == st.points[q]);
            assert(st.points[q].position <= b.position) by {
                lemma_positions_below_base(st.points, q);
            }
        }
    }
}

/// Positions increase along the points, so none exceeds the last one's.
proof fn lemma_positions_below_base(pts: Seq<Point>, q: int)
    requires
        0 <= q < pts.len(),
        forall|r: int| 0 <= r < pts.len() - 1 ==> #[trigger] pts[r].position < pts[r + 1].position,
    ensures
        pts[q].position <= pts[pts.len() - 1].position,
    decreases pts.len() - q,
{
    if q < pts.len() - 1 {
        lemma_positions_below_base(pts, q + 1);
    }
}

/// The scan in progress, over the candidates in increasing order.
pub(crate) struct CorridorScan {
    pub(crate) points: Vec<Point>,
    pub(crate) base: Point,
    pub(crate) upper: Point,
    pub(crate) lower: Point,
}

impl CorridorScan {
    pub(crate) open spec fn state(&self) -> CorridorState {
        CorridorState { points: self.points@, base: self.base, upper: self.upper, lower: self.lower }
    }

    /// Emits `(data[0], 0)` and opens the corridor at index 1.
    pub(crate) fn start(data: &Vec<u64>, max_error: usize) -> (r: CorridorScan)
        requires
            valid_keys(data@),
            data.len() + max_error <= usize::MAX,
        ensures
            r.state() == corridor_start(data@, max_error),
    {
        let base = Point::new(data[0], 0);
        let mut points: Vec<Point> = Vec::new();
        points.push(base);
        let r = CorridorScan {
            points,
            base,
            upper: Point::new(data[1], 1 + max_error),
            lower: Point::new(data[1], 1usize.saturating_sub(max_error)),
        };
        assert(r.state().points =~= seq![point_at(data@, 0)]);
        r
    }

    /// Considers the candidate `(data[i], i)`; returns whether it made
    /// `(data[i-1], i-1)` a spline point.
    pub(crate) fn advance(&mut self, data: &Vec<u64>, max_error: usize, i: usize) -> (emitted: bool)
        requires
            valid_keys(data@),
            data.len() + max_error <= usize::MAX,
            2 <= i < data.len(),
            old(self).state() == corridor_after(data@, max_error, i as int),
        ensures
            final(self).state() == corridor_after(data@, max_error, i + 1),
            emitted ==> final(self).points@ == old(self).points@.push(point_at(data@, i - 1)),
            emitted ==> old(self).points@[old(self).points@.len() - 1].key < data@[i - 1],
            !emitted ==> final(self).points@ == old(self).points@,
    {
        proof {
            lemma_after_inv(data@, max_error, i as int);
        }
        let c = Point::new(data[i], i);
        let bc = Line::new(self.base, c);
        let bu = Line::new(self.base, self.upper);
        let bl = Line::new(self.base, self.lower);
        if bc.is_vertical() || bu.is_vertical() || bl.is_vertical() {
            // a repeated key: no slope to compare, restart the corridor at `c`
            self.upper = Point::new(c.key, i + max_error);
            self.lower = Point::new(c.key, i.saturating_sub(max_error));
            return false;
        }
        if bc.is_left(&bu) || bc.is_right(&bl) {
            let p = Point::new(data[i - 1], i - 1);
            self.base = p;
            self.points.push(p);
            self.upper = Point::new(c.key, i + max_error);
            self.lower = Point::new(c.key, i.saturating_sub(max_error));
            true
        } else {
            let u = Point::new(c.key, i + max_error);
            let l = Point::new(c.key, i.saturating_sub(max_error));
            let bu2 = Line::new(self.base, u);
            let bl2 = Line::new(self.base, l);
            if bu.is_left(&bu2) {
                self.upper = u;
            }
            if bl.is_right(&bl2) {
                self.lower = l;
            }
            false
        }
    }
}

/// The points that the scan has emitted before candidate `i` are a prefix of
/// the spline, and the base is the last of them.
pub(crate) proof fn lemma_scan_prefix(data: Seq<u64>, eps: usize, i: int)
    requires
        valid_keys(data),
        data.len() + eps <= usize::MAX,
        2 <= i <= data.len(),
    ensures
        corridor_after(data, eps, i).points.len() >= 1,
        corridor_after(data, eps, i).points[0] == point_at(data, 0),
        data[0] <= corridor_after(data, eps, i).points[corridor_after(data, eps, i).points.len() - 1].key
            <= data[i - 1],
{
    lemma_after_inv(data, eps, i);
    let b = corridor_after(data, eps, i).base;
    assert(data[0] <= data[b.position as int]);
}

/// Tells whether `data` is a valid input for an index.
pub fn check_keys(data: &Vec<u64>) -> (r: bool)
    ensures
        r == valid_keys(data@),
{
    let n = data.len();
    if n < 3 || data[0] >= data[n - 1] {
        return false;
    }
    let mut i: usize = 1;
    while i < n
        invariant
            1 <= i <= n,
            n == data.len(),
            forall|a: int, b: int| 0 <= a <= b < i ==> data@[a] <= data@[b],
        decreases n - i,
    {
        if data[i - 1] > data[i] {
            return false;
        }
        proof {
            assert forall|a: int, b: int| 0 <= a <= b < i + 1 implies data@[a] <= data@[b] by {
                if b == i && a < i {
                    assert(data@[a] <= data@[i - 1]);
                }
            }
        }
        i = i + 1;
    }
    true
}

} // verus!
