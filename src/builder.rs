//! The radix spline built in two passes: first the spline, then the radix
//! table by a walk over the spline points. It yields the same spline and
//! table as the one-pass build.

use crate::common::Point;
use crate::corridor::{point_at, spline_of, spline_ok, valid_keys};
use crate::lookup::{keys_sorted, lemma_keys_sorted, refine};
use crate::radix::{
    fill, first_with_prefix, get_num_shift_bits, lemma_extend_table, lemma_first_with_prefix_unique,
    lemma_prefix_monotone, RadixSpline,
    locate_segment, max_prefix_of, prefix, prefix_of, shift_for, table_ok, DEFAULT_RADIX_BITS,
};
use crate::spline_corridor::{GreedySplineCorridor, DEFAULT_MAX_ERROR};
use vstd::prelude::*;
use vstd::std_specs::bits::axiom_u64_leading_zeros;

verus! {

/// A radix spline over borrowed sorted keys, whose table is filled after the
/// spline is complete.
pub struct Builder<'a> {
    min_key: u64,
    max_key: u64,
    num_radix_bits: usize,
    shift_radix_bits: u32,
    max_error: usize,
    data: &'a Vec<u64>,
    points: Vec<Point>,
    table: Vec<usize>,
}

impl<'a> Builder<'a> {
    /// The indexed keys.
    pub closed spec fn keys(&self) -> Seq<u64> {
        self.data@
    }

    /// The error bound.
    pub closed spec fn error_bound(&self) -> usize {
        self.max_error
    }

    /// The right shift that turns a key offset into its prefix.
    pub closed spec fn shift(&self) -> u32 {
        self.shift_radix_bits
    }

    /// The spline points.
    pub closed spec fn spline(&self) -> Seq<Point> {
        self.points@
    }

    /// The radix table.
    pub closed spec fn radix_table(&self) -> Seq<usize> {
        self.table@
    }

    /// The stored smallest and largest keys are those of the data.
    pub closed spec fn bounds_ok(&self) -> bool {
        &&& self.min_key == self.data@[0]
        &&& self.max_key == self.data@[self.data@.len() - 1]
    }

    /// The spline and the table are those of the keys.
    pub open spec fn wf(&self) -> bool {
        let data = self.keys();
        &&& valid_keys(data)
        &&& data.len() + self.error_bound() <= usize::MAX
        &&& self.bounds_ok()
        &&& self.spline() == spline_of(data, self.error_bound())
        &&& spline_ok(data, self.error_bound() as int, self.spline())
        &&& table_ok(
            self.radix_table(),
            self.spline(),
            data[0],
            self.shift(),
            prefix_of(data[data.len() - 1], data[0], self.shift()),
        )
    }

    /// The index is the one built from `data` with these parameters.
    pub open spec fn built_from(&self, data: Seq<u64>, num_radix_bits: usize, max_error: usize) -> bool {
        &&& self.wf()
        &&& self.keys() == data
        &&& self.error_bound() == max_error
        &&& self.shift() == shift_for((data[data.len() - 1] - data[0]) as u64, num_radix_bits as int)
    }

    /// Builds the spline of `data`, then its radix table.
    pub fn new(data: &'a Vec<u64>, num_radix_bits: usize, max_error: usize) -> (r: Builder<'a>)
        requires
            valid_keys(data@),
            data.len() + max_error <= usize::MAX,
            max_prefix_of(data@, num_radix_bits as int) + 2 <= usize::MAX,
        ensures
            r.built_from(data@, num_radix_bits, max_error),
    {
        let min_key = data[0];
        let max_key = data[data.len() - 1];
        // widths above 64 keep every bit, as 64 does
        let bits: u32 = if num_radix_bits > 64 {
            64
        } else {
            num_radix_bits as u32
        };
        let shift_radix_bits = get_num_shift_bits(max_key - min_key, bits);
        proof {
            axiom_u64_leading_zeros((max_key - min_key) as u64);
            assert(shift_radix_bits == shift_for((max_key - min_key) as u64, num_radix_bits as int));
        }
        let max_prefix = prefix(max_key, min_key, shift_radix_bits);
        let len = max_prefix as usize + 2;
        let mut table: Vec<usize> = Vec::new();
        while table.len() < len
            invariant
                table.len() <= len,
            decreases len - table.len(),
        {
            table.push(0);
        }
        let points = GreedySplineCorridor::spline_points(data, max_error);
        Builder::build_table(&points, data, shift_radix_bits, min_key, &mut table, Ghost(max_error));
        Builder {
            min_key,
            max_key,
            num_radix_bits,
            shift_radix_bits,
            max_error,
            data,
            points,
            table,
        }
    }

    /// Builds the index with 18 radix bits and an error bound of 32.
    pub fn default(data: &'a Vec<u64>) -> (r: Builder<'a>)
        requires
            valid_keys(data@),
            data.len() + DEFAULT_MAX_ERROR <= usize::MAX,
            max_prefix_of(data@, DEFAULT_RADIX_BITS as int) + 2 <= usize::MAX,
        ensures
            r.built_from(data@, DEFAULT_RADIX_BITS as usize, DEFAULT_MAX_ERROR),
    {
        Builder::new(data, DEFAULT_RADIX_BITS as usize, DEFAULT_MAX_ERROR)
    }

    /// Fills the table from the finished spline: each spline point takes the
    /// entries from the previous point's prefix (exclusive) to its own.
    #[verifier::rlimit(30)]
    fn build_table(
        points: &Vec<Point>,
        data: &Vec<u64>,
        shift_radix_bits: u32,
        min_key: u64,
        table: &mut Vec<usize>,
        eps: Ghost<usize>,
    )
        requires
            valid_keys(data@),
            min_key == data@[0],
            spline_ok(data@, eps@ as int, points@),
            old(table).len() == prefix_of(data@[data.len() - 1], min_key, shift_radix_bits) + 2,
        ensures
            table_ok(
                final(table)@,
                points@,
                min_key,
                shift_radix_bits,
                prefix_of(data@[data.len() - 1], min_key, shift_radix_bits),
            ),
    {
        let n = data.len();
        let ghost s = points@;
        let ghost max_prefix = prefix_of(data@[n - 1], min_key, shift_radix_bits);
        proof {
            lemma_keys_sorted(data@, eps@ as int, s);
            assert(s[0] == point_at(data@, 0));
            assert(s[s.len() - 1] == point_at(data@, n - 1));
            let z = (data@[0] - min_key) as u64;
            assert(z == 0);
            assert(shift_radix_bits < 64 ==> (z >> (shift_radix_bits as u64)) == 0) by (bit_vector)
                requires
                    z == 0,
            ;
            lemma_prefix_monotone(data@[0], data@[n - 1], min_key, shift_radix_bits);
            assert forall|q: int| 0 <= q < s.len() implies min_key <= #[trigger] s[q].key <= data@[n - 1] by {
                assert(s[0].key <= s[q].key <= s[s.len() - 1].key);
            }
        }
        fill(table, 0, 1, 0);
        let mut last_prefix: usize = 0;
        let mut j: usize = 1;
        while j < points.len()
            invariant
                keys_sorted(s),
                s == points@,
                1 <= j <= s.len(),
                forall|q: int| 0 <= q < s.len() ==> min_key <= #[trigger] s[q].key <= data@[n - 1],
                n == data.len(),
                max_prefix == prefix_of(data@[n - 1], min_key, shift_radix_bits),
                table.len() == max_prefix + 2,
                last_prefix <= max_prefix,
                last_prefix == prefix_of(s[j - 1].key, min_key, shift_radix_bits),
                forall|q: int|
                    0 <= q < j ==> prefix_of(#[trigger] s.subrange(0, j as int)[q].key, min_key, shift_radix_bits)
                        <= last_prefix,
                forall|p: int|
                    0 <= p <= last_prefix ==> first_with_prefix(
                        s.subrange(0, j as int),
                        min_key,
                        shift_radix_bits,
                        p,
                        #[trigger] table@[p] as int,
                    ) && table@[p] < j,
            decreases s.len() - j,
        {
            let ghost old_table = table@;
            let key = points[j].key;
            proof {
                lemma_prefix_monotone(s[j - 1].key, key, min_key, shift_radix_bits);
                lemma_prefix_monotone(key, data@[n - 1], min_key, shift_radix_bits);
            }
            let cur_prefix = prefix(key, min_key, shift_radix_bits) as usize;
            fill(table, last_prefix + 1, cur_prefix + 1, j);
            proof {
                assert(s.subrange(0, j + 1) =~= s.subrange(0, j as int).push(s[j as int]));
                lemma_extend_table(
                    s.subrange(0, j as int),
                    s.subrange(0, j + 1),
                    old_table,
                    table@,
                    min_key,
                    shift_radix_bits,
                    last_prefix as int,
                    cur_prefix as int,
                );
            }
            last_prefix = cur_prefix;
            j = j + 1;
        }
        proof {
            assert(s.subrange(0, j as int) =~= s);
        }
        let ghost mid_table = table@;
        let end = table.len();
        fill(table, last_prefix + 1, end, points.len());
        proof {
            assert(last_prefix == max_prefix);
            assert forall|p: int| 0 <= p < table@.len() implies first_with_prefix(
                s,
                min_key,
                shift_radix_bits,
                p,
                #[trigger] table@[p] as int,
            ) by {
                if p <= last_prefix {
                    assert(table@[p] == mid_table[p]);
                }
            }
        }
    }

    /// The spline points, in increasing key order.
    pub fn points(&self) -> (r: &Vec<Point>)
        ensures
            r@ == self.spline(),
    {
        &self.points
    }

    /// The radix table.
    pub fn table(&self) -> (r: &Vec<usize>)
        ensures
            r@ == self.radix_table(),
    {
        &self.table
    }

    /// Returns an index holding `key`, or `None` if no key equals it.
    pub fn search(&self, key: u64) -> (r: Option<usize>)
        requires
            self.wf(),
        ensures
            match r {
                Some(i) => i < self.keys().len() && self.keys()[i as int] == key,
                None => !self.keys().contains(key),
            },
    {
        let n = self.data.len();
        if key < self.min_key || key > self.max_key {
            proof {
                assert forall|t: int| 0 <= t < n implies self.data@[t] != key by {
                    assert(self.data@[0] <= self.data@[t] <= self.data@[n - 1]);
                }
            }
            return None;
        }
        let j = locate_segment(
            &self.points,
            &self.table,
            self.data,
            self.min_key,
            self.shift_radix_bits,
            Ghost(self.max_error),
            key,
        );
        refine(self.data, &self.points, self.max_error, j, key)
    }
}

/// The two-pass build and the one-pass build of the same keys, with the same
/// parameters, give the same spline points and the same radix table.
pub proof fn lemma_two_pass_matches_one_pass(
    data: Seq<u64>,
    num_radix_bits: u32,
    max_error: usize,
    two: &Builder,
    one: &RadixSpline,
)
    requires
        two.built_from(data, num_radix_bits as usize, max_error),
        one.built_from(data, num_radix_bits, max_error),
    ensures
        two.spline() == one.spline(),
        two.radix_table() == one.radix_table(),
{
    assert forall|p: int| 0 <= p < two.radix_table().len() implies two.radix_table()[p] == one.radix_table()[p] by {
        lemma_first_with_prefix_unique(
            one.spline(),
            data[0],
            one.shift(),
            p,
            two.radix_table()[p] as int,
            one.radix_table()[p] as int,
        );
    }
    assert(two.radix_table() =~= one.radix_table());
}

} // verus!
