//! The query engine shared by the indexes: locate the enclosing spline
//! segment, interpolate a position, and search the keys within `max_error`
//! of it.

use crate::common::Point;
use crate::corridor::{point_at, segment_ok, spline_ok, valid_keys, within_error, interp_scaled};
use vstd::prelude::*;

verus! {

/// `j` is the first index of `s` whose key is at least `k` (`s.len()` if none is).
pub open spec fn first_at_least(s: Seq<Point>, k: u64, j: int) -> bool {
    &&& 0 <= j <= s.len()
    &&& forall|q: int| 0 <= q < j ==> #[trigger] s[q].key < k
    &&& j < s.len() ==> s[j].key >= k
}

/// The position that the segment from `a` to `b` predicts for key `k`,
/// rounded down.
pub open spec fn predicted(a: Point, b: Point, k: int) -> int {
    a.position + (k - a.key) * (b.position - a.position) / (b.key - a.key)
}

/// Keys of `s` never decrease, between any two of its points.
pub open spec fn keys_sorted(s: Seq<Point>) -> bool {
    forall|a: int, b: int| 0 <= a <= b < s.len() ==> #[trigger] s[a].key <= #[trigger] s[b].key
}

/// The keys of a spline never decrease.
pub proof fn lemma_keys_sorted(data: Seq<u64>, eps: int, s: Seq<Point>)
    requires
        spline_ok(data, eps, s),
    ensures
        keys_sorted(s),
{
    assert forall|a: int, b: int| 0 <= a <= b < s.len() implies #[trigger] s[a].key
        <= #[trigger] s[b].key by {
        lemma_keys_sorted_from(s, a, b);
    }
}

proof fn lemma_keys_sorted_from(s: Seq<Point>, a: int, b: int)
    requires
        0 <= a <= b < s.len(),
        forall|q: int| 0 <= q < s.len() - 1 ==> #[trigger] s[q].key <= s[q + 1].key,
    ensures
        s[a].key <= s[b].key,
    decreases b - a,
{
    if a < b {
        lemma_keys_sorted_from(s, a + 1, b);
    }
}

/// The prediction of a segment that keeps `t` within `eps` is within `eps` of `t`.
proof fn lemma_prediction_within(a: Point, b: Point, k: int, t: int, eps: int)
    requires
        a.key <= k,
        a.key < b.key,
        a.position <= b.position,
        within_error(a, b, k, t, eps),
    ensures
        t - eps <= predicted(a, b, k) <= t + eps,
{
    let d = b.key - a.key;
    let x = (k - a.key) * (b.position - a.position);
    let ap = a.position as int;
    assert(x >= 0) by (nonlinear_arith)
        requires
            x == (k - a.key) * (b.position - a.position),
            k - a.key >= 0,
            b.position - a.position >= 0,
    ;
    let q = x / d;
    let r = x % d;
    vstd::arithmetic::div_mod::lemma_fundamental_div_mod(x, d);
    vstd::arithmetic::div_mod::lemma_mod_bound(x, d);
    assert(interp_scaled(a, b, k) == ap * d + x);
    assert(t - eps <= ap + q <= t + eps) by (nonlinear_arith)
        requires
            d > 0,
            x == d * q + r,
            0 <= r < d,
            (t - eps) * d <= ap * d + x <= (t + eps) * d,
    ;
}

/// Within every segment of a spline, the prediction for a key strictly
/// between the segment's ends is within `eps` of each position that holds the
/// key.
pub proof fn lemma_prediction_error(data: Seq<u64>, eps: int, s: Seq<Point>, q: int, i: int)
    requires
        valid_keys(data),
        spline_ok(data, eps, s),
        0 < q < s.len(),
        0 <= i < data.len(),
        s[q - 1].key < data[i] < s[q].key,
    ensures
        i - eps <= predicted(s[q - 1], s[q], data[i] as int) <= i + eps,
{
    let a = s[q - 1];
    let b = s[q];
    assert(s[q - 1] == point_at(data, s[q - 1].position as int));
    assert(s[q] == point_at(data, s[q].position as int));
    assert(a.position < b.position);
    if i <= a.position {
        assert(data[i] <= data[a.position as int]);
    }
    if i >= b.position {
        assert(data[b.position as int] <= data[i]);
    }
    assert(segment_ok(data, eps, s[q - 1], s[(q - 1) + 1]));
    lemma_prediction_within(a, b, data[i] as int, i, eps);
}

/// Computes `predicted(a, b, key)` without overflow: the product is formed
/// in `u128`.
fn predict(a: Point, b: Point, key: u64) -> (r: usize)
    requires
        a.key < key < b.key,
        a.position <= b.position,
    ensures
        r == predicted(a, b, key as int),
        r <= b.position,
{
    let dk = (key - a.key) as u128;
    let rise = (b.position - a.position) as u128;
    let run = (b.key - a.key) as u128;
    proof {
        assert(dk * rise <= rise * run) by (nonlinear_arith)
            requires
                dk < run,
                rise >= 0,
        ;
        assert(rise * run <= u128::MAX) by (nonlinear_arith)
            requires
                rise <= u64::MAX,
                run <= u64::MAX,
        ;
    }
    let x = dk * rise;
    let q = x / run;
    proof {
        assert(q <= rise) by (nonlinear_arith)
            requires
                x <= rise * run,
                run > 0,
                q == x / run,
        ;
    }
    a.position + q as usize
}

/// The first index in `lo..hi` whose key is at least `key`, by binary search.
pub(crate) fn lower_bound(points: &Vec<Point>, key: u64, lo: usize, hi: usize) -> (r: usize)
    requires
        keys_sorted(points@),
        lo <= hi <= points.len(),
        forall|q: int| 0 <= q < lo ==> #[trigger] points@[q].key < key,
        forall|q: int| hi <= q < points.len() ==> #[trigger] points@[q].key >= key,
    ensures
        lo <= r <= hi,
        first_at_least(points@, key, r as int),
{
    let mut left = lo;
    let mut right = hi;
    while left < right
        invariant
            keys_sorted(points@),
            lo <= left <= right <= hi <= points.len(),
            forall|q: int| 0 <= q < left ==> #[trigger] points@[q].key < key,
            forall|q: int| right <= q < points.len() ==> #[trigger] points@[q].key >= key,
        decreases right - left,
    {
        let mid = left + (right - left) / 2;
        if points[mid].key < key {
            assert forall|q: int| 0 <= q < mid + 1 implies #[trigger] points@[q].key < key by {
                assert(points@[q].key <= points@[mid as int].key);
            }
            left = mid + 1;
        } else {
            assert forall|q: int| mid <= q < points.len() implies #[trigger] points@[q].key >= key by {
                assert(points@[mid as int].key <= points@[q].key);
            }
            right = mid;
        }
    }
    left
}

/// The first index from `lo` on whose key is at least `key`, by a linear scan.
pub(crate) fn scan_up(points: &Vec<Point>, key: u64, lo: usize, hi: usize) -> (r: usize)
    requires
        lo <= hi <= points.len(),
        points.len() >= 1,
        points@[points.len() - 1].key >= key,
        forall|q: int| 0 <= q < lo ==> #[trigger] points@[q].key < key,
        forall|q: int| hi <= q < points.len() ==> #[trigger] points@[q].key >= key,
    ensures
        lo <= r <= hi,
        first_at_least(points@, key, r as int),
{
    let mut cur = lo;
    while points[cur].key < key
        invariant
            lo <= cur <= hi,
            cur < points.len(),
            points@[points.len() - 1].key >= key,
            forall|q: int| 0 <= q < cur ==> #[trigger] points@[q].key < key,
            forall|q: int| hi <= q < points.len() ==> #[trigger] points@[q].key >= key,
        decreases points.len() - cur,
    {
        cur = cur + 1;
    }
    cur
}

/// The first index in `from..=to` whose key is above `key` (`to + 1` if none is).
fn upper_bound(data: &Vec<u64>, key: u64, from: usize, to: usize) -> (r: usize)
    requires
        from <= to < data.len(),
        crate::corridor::sorted(data@),
    ensures
        from <= r <= to + 1,
        forall|q: int| from <= q < r ==> #[trigger] data@[q] <= key,
        forall|q: int| r <= q <= to ==> #[trigger] data@[q] > key,
{
    let mut lo = from;
    let mut hi = to + 1;
    while lo < hi
        invariant
            crate::corridor::sorted(data@),
            from <= lo <= hi <= to + 1,
            to < data.len(),
            forall|q: int| from <= q < lo ==> #[trigger] data@[q] <= key,
            forall|q: int| hi <= q <= to ==> #[trigger] data@[q] > key,
        decreases hi - lo,
    {
        let mid = lo + (hi - lo) / 2;
        if data[mid] <= key {
            assert forall|q: int| from <= q < mid + 1 implies #[trigger] data@[q] <= key by {
                assert(data@[q] <= data@[mid as int]);
            }
            lo = mid + 1;
        } else {
            assert forall|q: int| mid <= q <= to implies #[trigger] data@[q] > key by {
                assert(data@[mid as int] <= data@[q]);
            }
            hi = mid;
        }
    }
    lo
}

/// Finishes a lookup once `j`, the first spline point whose key is at least
/// `key`, is known: an exact hit on a spline point gives its position;
/// otherwise the keys within `max_error` of the interpolated position are
/// searched.
#[verifier::rlimit(30)]
pub(crate) fn refine(data: &Vec<u64>, points: &Vec<Point>, max_error: usize, j: usize, key: u64) -> (r: Option<usize>)
    requires
        valid_keys(data@),
        data.len() + max_error <= usize::MAX,
        spline_ok(data@, max_error as int, points@),
        data@[0] <= key <= data@[data.len() - 1],
        first_at_least(points@, key, j as int),
    ensures
        match r {
            Some(i) => i < data.len() && data@[i as int] == key,
            None => !data@.contains(key),
        },
{
    let ghost s = points@;
    let n = data.len();
    proof {
        assert(s[s.len() - 1] == point_at(data@, n - 1));
        if j as int == s.len() {
            assert(s[s.len() - 1].key < key);
        }
    }
    let b = points[j];
    proof {
        assert(s[j as int] == point_at(data@, s[j as int].position as int));
    }
    if b.key == key {
        return Some(b.position);
    }
    if j == 0 {
        return None;
    }
    let a = points[j - 1];
    proof {
        assert(s[j - 1] == point_at(data@, s[j - 1].position as int));
        assert(s[(j - 1) as int].position < s[(j - 1) + 1].position);
    }
    let pred = predict(a, b, key);
    let from = pred.saturating_sub(max_error);
    let to = if pred + max_error > n - 1 {
        n - 1
    } else {
        pred + max_error
    };
    let r = upper_bound(data, key, from, to);
    if r > from && data[r - 1] == key {
        Some(r - 1)
    } else {
        proof {
            assert forall|t: int| 0 <= t < n implies data@[t] != key by {
                if data@[t] == key {
                    if t <= a.position {
                        assert(data@[t] <= data@[a.position as int]);
                    }
                    if t >= b.position {
                        assert(data@[b.position as int] <= data@[t]);
                    }
                    lemma_prediction_error(data@, max_error as int, s, j as int, t);
                    assert(from <= t <= to);
                    assert(t < r);
                    assert(data@[t] <= data@[r - 1]);
                }
            }
        }
        None
    }
}

} // verus!
