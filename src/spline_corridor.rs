//! An index made of the spline alone: a lookup binary-searches the spline
//! points for the enclosing segment.

use crate::common::Point;
use crate::corridor::{
    corridor_after, lemma_spline_shape, point_at, spline_of, spline_ok, valid_keys, CorridorScan,
};
use crate::lookup::{lemma_keys_sorted, lower_bound, refine};
use vstd::prelude::*;

verus! {

/// The error bound used when none is given.
pub const DEFAULT_MAX_ERROR: usize = 32;

/// A greedy spline over borrowed sorted keys. Lookups find the enclosing
/// segment by binary search over the spline points.
pub struct GreedySplineCorridor<'a> {
    data: &'a Vec<u64>,
    max_error: usize,
    points: Vec<Point>,
}

impl<'a> GreedySplineCorridor<'a> {
    /// The indexed keys.
    pub closed spec fn keys(&self) -> Seq<u64> {
        self.data@
    }

    /// The error bound.
    pub closed spec fn error_bound(&self) -> usize {
        self.max_error
    }

    /// The spline points.
    pub closed spec fn spline(&self) -> Seq<Point> {
        self.points@
    }

    /// The index is the spline of its keys.
    pub open spec fn wf(&self) -> bool {
        &&& valid_keys(self.keys())
        &&& self.keys().len() + self.error_bound() <= usize::MAX
        &&& self.spline() == spline_of(self.keys(), self.error_bound())
        &&& spline_ok(self.keys(), self.error_bound() as int, self.spline())
    }

    /// Builds the spline points of sorted keys with the greedy corridor, in one pass.
    pub fn spline_points(data: &Vec<u64>, max_error: usize) -> (r: Vec<Point>)
        requires
            valid_keys(data@),
            data.len() + max_error <= usize::MAX,
        ensures
            r@ == spline_of(data@, max_error),
            spline_ok(data@, max_error as int, r@),
    {
        let n = data.len();
        let mut scan = CorridorScan::start(data, max_error);
        let mut i: usize = 2;
        while i < n
            invariant
                valid_keys(data@),
                n == data.len(),
                n + max_error <= usize::MAX,
                2 <= i <= n,
                scan.state() == corridor_after(data@, max_error, i as int),
            decreases n - i,
        {
            scan.advance(data, max_error, i);
            i = i + 1;
        }
        let mut points = scan.points;
        points.push(Point::new(data[n - 1], n - 1));
        proof {
            lemma_spline_shape(data@, max_error);
        }
        points
    }

    /// Builds the spline of `data` for the error bound `max_error`.
    pub fn new(data: &'a Vec<u64>, max_error: usize) -> (r: GreedySplineCorridor<'a>)
        requires
            valid_keys(data@),
            data.len() + max_error <= usize::MAX,
        ensures
            r.wf(),
            r.keys() == data@,
            r.error_bound() == max_error,
            r.spline() == spline_of(data@, max_error),
    {
        GreedySplineCorridor { data, max_error, points: GreedySplineCorridor::spline_points(data, max_error) }
    }

    /// Builds the spline with the default error bound of 32.
    pub fn default(data: &'a Vec<u64>) -> (r: GreedySplineCorridor<'a>)
        requires
            valid_keys(data@),
            data.len() + DEFAULT_MAX_ERROR <= usize::MAX,
        ensures
            r.wf(),
            r.keys() == data@,
            r.error_bound() == DEFAULT_MAX_ERROR,
    {
        GreedySplineCorridor::new(data, DEFAULT_MAX_ERROR)
    }

    /// The spline points, in increasing key order.
    pub fn points(&self) -> (r: &Vec<Point>)
        ensures
            r@ == self.spline(),
    {
        &self.points
    }

    /// Returns an index holding `key`, or `None` if no key equals it.
    pub fn search(&self, key: u64) -> (r: Option<usize>)
        requires
            self.wf(),
        ensures
            match r {
                Some(i) => i < self.keys().len() && self.keys()[i as int] == key,
                None => !self.keys().contains(key),
            },
    {
        let n = self.data.len();
        if key < self.data[0] || key > self.data[n - 1] {
            proof {
                assert forall|t: int| 0 <= t < n implies self.data@[t] != key by {
                    assert(self.data@[0] <= self.data@[t] <= self.data@[n - 1]);
                }
            }
            return None;
        }
        proof {
            lemma_keys_sorted(self.data@, self.max_error as int, self.points@);
            assert(self.points@[self.points@.len() - 1] == point_at(self.data@, n - 1));
        }
        let j = lower_bound(&self.points, key, 0, self.points.len());
        refine(self.data, &self.points, self.max_error, j, key)
    }
}

} // verus!
