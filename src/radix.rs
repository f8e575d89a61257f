//! The radix spline: the greedy spline and a radix table over key prefixes,
//! built together in one pass. A lookup reads two table entries to bound the
//! spline points that can enclose the key.

use crate::common::{BuildError, Point};
use crate::corridor::{
    check_keys, corridor_after, lemma_scan_prefix, lemma_spline_shape, point_at, spline_of, spline_ok,
    valid_keys, CorridorScan,
};
use crate::spline_corridor::DEFAULT_MAX_ERROR;
use crate::lookup::{first_at_least, lemma_keys_sorted, lower_bound, refine, scan_up};
use vstd::prelude::*;
use vstd::std_specs::bits::{axiom_u64_leading_zeros, u64_leading_zeros};

verus! {

/// The prefix width used when none is given.
pub const DEFAULT_RADIX_BITS: u32 = 18;

/// Below this many candidate spline points a lookup scans them in order;
/// from it on, it binary-searches them.
pub const LINEAR_SCAN_LIMIT: usize = 32;

/// The right shift that keeps about `num_radix_bits` significant bits of a
/// key offset no larger than `diff`: `max(0, 64 - num_radix_bits - lz(diff))`.
pub open spec fn shift_for(diff: u64, num_radix_bits: int) -> u32 {
    let bits = 64 - u64_leading_zeros(diff);
    if bits < num_radix_bits {
        0
    } else {
        (bits - num_radix_bits) as u32
    }
}

/// The radix prefix of `key`: `(key - min_key) >> shift`.
pub open spec fn prefix_of(key: u64, min_key: u64, shift: u32) -> int {
    if shift >= 64 {
        0
    } else {
        (((key - min_key) as u64) >> (shift as u64)) as int
    }
}

/// The largest prefix of the keys, that of the last one.
pub open spec fn max_prefix_of(data: Seq<u64>, num_radix_bits: int) -> int {
    let diff = (data[data.len() - 1] - data[0]) as u64;
    prefix_of(data[data.len() - 1], data[0], shift_for(diff, num_radix_bits))
}

/// `v` is the first index of `s` whose key has a prefix of at least `p`
/// (`s.len()` if none has).
pub open spec fn first_with_prefix(s: Seq<Point>, min_key: u64, shift: u32, p: int, v: int) -> bool {
    &&& 0 <= v <= s.len()
    &&& forall|q: int| 0 <= q < v ==> prefix_of(#[trigger] s[q].key, min_key, shift) < p
    &&& v < s.len() ==> prefix_of(s[v].key, min_key, shift) >= p
}

/// The radix table of the spline `s`: one entry for each prefix up to
/// `max_prefix + 1`, each the first spline point with at least that prefix.
pub open spec fn table_ok(table: Seq<usize>, s: Seq<Point>, min_key: u64, shift: u32, max_prefix: int) -> bool {
    &&& table.len() == max_prefix + 2
    &&& forall|p: int| 0 <= p < table.len() ==> first_with_prefix(s, min_key, shift, p, #[trigger] table[p] as int)
}

proof fn lemma_shr_monotone(a: u64, b: u64, s: u64)
    by (bit_vector)
    requires
        a <= b,
    ensures
        (a >> s) <= (b >> s),
{
}

/// Prefixes never decrease as keys grow.
pub proof fn lemma_prefix_monotone(k1: u64, k2: u64, min_key: u64, shift: u32)
    requires
        min_key <= k1 <= k2,
    ensures
        prefix_of(k1, min_key, shift) <= prefix_of(k2, min_key, shift),
{
    if shift < 64 {
        lemma_shr_monotone((k1 - min_key) as u64, (k2 - min_key) as u64, shift as u64);
    }
}

/// Each table entry is pinned down by its prefix.
pub(crate) proof fn lemma_first_with_prefix_unique(s: Seq<Point>, min_key: u64, shift: u32, p: int, v: int, w: int)
    requires
        first_with_prefix(s, min_key, shift, p, v),
        first_with_prefix(s, min_key, shift, p, w),
    ensures
        v == w,
{
    if v < w {
        assert(prefix_of(s[v].key, min_key, shift) < p);
    }
    if w < v {
        assert(prefix_of(s[w].key, min_key, shift) < p);
    }
}

/// Entries for larger prefixes are never smaller.
proof fn lemma_first_with_prefix_monotone(s: Seq<Point>, min_key: u64, shift: u32, p: int, q: int, v: int, w: int)
    requires
        p <= q,
        first_with_prefix(s, min_key, shift, p, v),
        first_with_prefix(s, min_key, shift, q, w),
    ensures
        v <= w,
{
    if w < v {
        assert(prefix_of(s[w].key, min_key, shift) < p);
    }
}

pub(crate) fn get_num_shift_bits(diff: u64, num_radix_bits: u32) -> (r: u32)
    ensures
        r == shift_for(diff, num_radix_bits as int),
{
    let zeros = diff.leading_zeros();
    proof {
        axiom_u64_leading_zeros(diff);
    }
    if 64 - zeros < num_radix_bits {
        0
    } else {
        64 - num_radix_bits - zeros
    }
}

pub(crate) fn prefix(key: u64, min_key: u64, shift: u32) -> (r: u64)
    requires
        min_key <= key,
    ensures
        r == prefix_of(key, min_key, shift),
{
    if shift >= 64 {
        0
    } else {
        (key - min_key) >> (shift as u64)
    }
}

/// Sets the entries `from..to` of `table` to `v`.
pub(crate) fn fill(table: &mut Vec<usize>, from: usize, to: usize, v: usize)
    requires
        from <= to <= old(table).len(),
    ensures
        final(table).len() == old(table).len(),
        forall|p: int| from <= p < to ==> #[trigger] final(table)@[p] == v,
        forall|p: int| 0 <= p < old(table).len() && !(from <= p < to) ==> #[trigger] final(table)@[p] == old(table)@[p],
{
    let mut p = from;
    while p < to
        invariant
            from <= p <= to <= table.len(),
            table.len() == old(table).len(),
            forall|q: int| from <= q < p ==> #[trigger] table@[q] == v,
            forall|q: int| 0 <= q < old(table).len() && !(from <= q < p) ==> #[trigger] table@[q] == old(table)@[q],
        decreases to - p,
    {
        table.set(p, v);
        p = p + 1;
    }
}

/// After the point of prefix `cur` joins `s`, the entries from `last + 1`
/// to `cur` point at it, and the entries up to `last` keep their meaning.
#[verifier::rlimit(30)]
pub(crate) proof fn lemma_extend_table(
    old_s: Seq<Point>,
    s: Seq<Point>,
    old_table: Seq<usize>,
    table: Seq<usize>,
    min_key: u64,
    shift: u32,
    last: int,
    cur: int,
)
    requires
        old_s.len() >= 1,
        s == old_s.push(s[s.len() - 1]),
        last <= cur,
        cur == prefix_of(s[s.len() - 1].key, min_key, shift),
        forall|q: int| 0 <= q < old_s.len() ==> prefix_of(#[trigger] old_s[q].key, min_key, shift) <= last,
        forall|p: int|
            0 <= p <= last ==> first_with_prefix(old_s, min_key, shift, p, #[trigger] old_table[p] as int)
                && old_table[p] < old_s.len(),
        table.len() == old_table.len(),
        cur < table.len(),
        forall|p: int| last < p <= cur ==> #[trigger] table[p] == s.len() - 1,
        forall|p: int| 0 <= p <= last ==> #[trigger] table[p] == old_table[p],
    ensures
        forall|q: int| 0 <= q < s.len() ==> prefix_of(#[trigger] s[q].key, min_key, shift) <= cur,
        forall|p: int|
            0 <= p <= cur ==> first_with_prefix(s, min_key, shift, p, #[trigger] table[p] as int)
                && table[p] < s.len(),
{
    assert forall|q: int| 0 <= q < s.len() implies prefix_of(#[trigger] s[q].key, min_key, shift) <= cur by {
        if q < old_s.len() {
            assert(s[q] == old_s[q]);
        }
    }
    assert forall|p: int| 0 <= p <= cur implies first_with_prefix(s, min_key, shift, p, #[trigger] table[p] as int)
        && table[p] < s.len() by {
        if p <= last {
            let v = old_table[p] as int;
            assert(table[p] == old_table[p]);
            assert(first_with_prefix(old_s, min_key, shift, p, v));
            assert forall|q: int| 0 <= q < v implies prefix_of(#[trigger] s[q].key, min_key, shift) < p by {
                assert(s[q] == old_s[q]);
            }
            assert(s[v] == old_s[v]);
        } else {
            assert forall|q: int| 0 <= q < s.len() - 1 implies prefix_of(#[trigger] s[q].key, min_key, shift) < p by {
                assert(s[q] == old_s[q]);
            }
        }
    }
}

/// The first spline point whose key is at least `key`: the table entries of
/// `key`'s prefix and of the next one bound it, and the points between them
/// are scanned in order when they are few, binary-searched otherwise.
#[verifier::rlimit(30)]
pub(crate) fn locate_segment(
    points: &Vec<Point>,
    table: &Vec<usize>,
    data: &Vec<u64>,
    min_key: u64,
    shift: u32,
    eps: Ghost<usize>,
    key: u64,
) -> (j: usize)
    requires
        valid_keys(data@),
        min_key == data@[0],
        spline_ok(data@, eps@ as int, points@),
        table_ok(table@, points@, min_key, shift, prefix_of(data@[data.len() - 1], min_key, shift)),
        data@[0] <= key <= data@[data.len() - 1],
    ensures
        first_at_least(points@, key, j as int),
{
    let ghost s = points@;
    let n = data.len();
    let ghost max_prefix = prefix_of(data@[n - 1], min_key, shift);
    proof {
        lemma_prefix_monotone(key, data@[n - 1], min_key, shift);
        lemma_keys_sorted(data@, eps@ as int, s);
        assert(s[s.len() - 1] == point_at(data@, n - 1));
    }
    let table_len = table.len();
    assert(table_len == max_prefix + 2);
    let p = prefix(key, min_key, shift) as usize;
    let start = table[p];
    let end = table[p + 1];
    proof {
        assert(first_with_prefix(s, min_key, shift, p as int, start as int));
        assert(first_with_prefix(s, min_key, shift, p + 1, end as int));
        lemma_first_with_prefix_monotone(s, min_key, shift, p as int, p + 1, start as int, end as int);
        assert forall|q: int| 0 <= q < start implies #[trigger] s[q].key < key by {
            if s[q].key >= key {
                lemma_prefix_monotone(key, s[q].key, min_key, shift);
            }
        }
        assert forall|q: int| end <= q < s.len() implies #[trigger] s[q].key >= key by {
            let e = end as int;
            assert(s[e].key <= s[q].key);
            assert(s[e] == point_at(data@, s[e].position as int));
            assert(data@[0] <= data@[s[e].position as int]);
            if s[e].key < key {
                lemma_prefix_monotone(s[e].key, key, min_key, shift);
            }
        }
    }
    if end - start < LINEAR_SCAN_LIMIT {
        scan_up(points, key, start, end)
    } else {
        lower_bound(points, key, start, end)
    }
}

/// The radix table of a spline never decreases; every entry but the last is
/// the index of a spline point, and the last is one past the final point.
#[verifier::rlimit(30)]
pub proof fn lemma_table_shape(data: Seq<u64>, eps: int, s: Seq<Point>, table: Seq<usize>, shift: u32)
    requires
        valid_keys(data),
        spline_ok(data, eps, s),
        table_ok(table, s, data[0], shift, prefix_of(data[data.len() - 1], data[0], shift)),
    ensures
        forall|p: int, q: int| 0 <= p <= q < table.len() ==> #[trigger] table[p] <= #[trigger] table[q],
        forall|p: int| 0 <= p < table.len() - 1 ==> #[trigger] table[p] < s.len(),
        table[table.len() - 1] == s.len(),
{
    let n = data.len() as int;
    let min_key = data[0];
    let max_prefix = prefix_of(data[n - 1], min_key, shift);
    assert forall|p: int, q: int| 0 <= p <= q < table.len() implies #[trigger] table[p] <= #[trigger] table[q] by {
        lemma_first_with_prefix_monotone(s, min_key, shift, p, q, table[p] as int, table[q] as int);
    }
    assert(s[s.len() - 1] == point_at(data, n - 1));
    assert forall|p: int| 0 <= p < table.len() - 1 implies #[trigger] table[p] < s.len() by {
        assert(first_with_prefix(s, min_key, shift, p, table[p] as int));
        if table[p] == s.len() {
            assert(prefix_of(s[s.len() - 1].key, min_key, shift) < p);
        }
    }
    let last = table.len() - 1;
    assert(first_with_prefix(s, min_key, shift, last, table[last] as int));
    if table[last] < s.len() {
        let v = table[last] as int;
        assert(s[v] == point_at(data, s[v].position as int));
        assert(data[0] <= data[s[v].position as int] <= data[n - 1]);
        lemma_prefix_monotone(s[v].key, data[n - 1], min_key, shift);
    }
}

/// Two indexes built from the same keys with the same parameters have the
/// same spline points and the same radix table.
pub proof fn lemma_build_deterministic(
    data: Seq<u64>,
    num_radix_bits: u32,
    max_error: usize,
    a: &RadixSpline,
    b: &RadixSpline,
)
    requires
        a.built_from(data, num_radix_bits, max_error),
        b.built_from(data, num_radix_bits, max_error),
    ensures
        a.spline() == b.spline(),
        a.radix_table() == b.radix_table(),
{
    let s = a.spline();
    let shift = a.shift();
    assert forall|p: int| 0 <= p < a.radix_table().len() implies a.radix_table()[p] == b.radix_table()[p] by {
        lemma_first_with_prefix_unique(
            s,
            data[0],
            shift,
            p,
            a.radix_table()[p] as int,
            b.radix_table()[p] as int,
        );
    }
    assert(a.radix_table() =~= b.radix_table());
}

/// The radix spline over borrowed sorted keys.
pub struct RadixSpline<'a> {
    data: &'a Vec<u64>,
    min_key: u64,
    shift_radix_bits: u32,
    max_error: usize,
    points: Vec<Point>,
    table: Vec<usize>,
}

impl<'a> RadixSpline<'a> {
    /// The indexed keys.
    pub closed spec fn keys(&self) -> Seq<u64> {
        self.data@
    }

    /// The error bound.
    pub closed spec fn error_bound(&self) -> usize {
        self.max_error
    }

    /// The right shift that turns a key offset into its prefix.
    pub closed spec fn shift(&self) -> u32 {
        self.shift_radix_bits
    }

    /// The spline points.
    pub closed spec fn spline(&self) -> Seq<Point> {
        self.points@
    }

    /// The radix table.
    pub closed spec fn radix_table(&self) -> Seq<usize> {
        self.table@
    }

    /// The smallest key.
    pub closed spec fn min_key(&self) -> u64 {
        self.min_key
    }

    /// The spline and the table are those of the keys.
    pub open spec fn wf(&self) -> bool {
        let data = self.keys();
        &&& valid_keys(data)
        &&& data.len() + self.error_bound() <= usize::MAX
        &&& self.min_key() == data[0]
        &&& self.spline() == spline_of(data, self.error_bound())
        &&& spline_ok(data, self.error_bound() as int, self.spline())
        &&& table_ok(
            self.radix_table(),
            self.spline(),
            data[0],
            self.shift(),
            prefix_of(data[data.len() - 1], data[0], self.shift()),
        )
    }

    /// The index is the one built from `data` with these parameters.
    pub open spec fn built_from(&self, data: Seq<u64>, num_radix_bits: u32, max_error: usize) -> bool {
        &&& self.wf()
        &&& self.keys() == data
        &&& self.error_bound() == max_error
        &&& self.shift() == shift_for((data[data.len() - 1] - data[0]) as u64, num_radix_bits as int)
    }

    /// Builds the spline and the radix table of `data`.
    pub fn new(data: &'a Vec<u64>, num_radix_bits: u32, max_error: usize) -> (r: RadixSpline<'a>)
        requires
            valid_keys(data@),
            data.len() + max_error <= usize::MAX,
            max_prefix_of(data@, num_radix_bits as int) + 2 <= usize::MAX,
        ensures
            r.built_from(data@, num_radix_bits, max_error),
    {
        let min_key = data[0];
        let max_key = data[data.len() - 1];
        let shift_radix_bits = get_num_shift_bits(max_key - min_key, num_radix_bits);
        let max_prefix = prefix(max_key, min_key, shift_radix_bits);
        let len = max_prefix as usize + 2;
        let mut table: Vec<usize> = Vec::new();
        while table.len() < len
            invariant
                table.len() <= len,
            decreases len - table.len(),
        {
            table.push(0);
        }
        let mut points: Vec<Point> = Vec::new();
        RadixSpline::build(&mut points, &mut table, data, min_key, shift_radix_bits, max_error);
        RadixSpline { data, min_key, shift_radix_bits, max_error, points, table }
    }

    /// Builds the index after checking the keys: `InvalidInput` when there
    /// are fewer than three, they are out of order, or the last is not above
    /// the first.
    pub fn try_new(data: &'a Vec<u64>, num_radix_bits: u32, max_error: usize) -> (r: Result<RadixSpline<'a>, BuildError>)
        requires
            data.len() + max_error <= usize::MAX,
            valid_keys(data@) ==> max_prefix_of(data@, num_radix_bits as int) + 2 <= usize::MAX,
        ensures
            match r {
                Ok(idx) => valid_keys(data@) && idx.built_from(data@, num_radix_bits, max_error),
                Err(e) => !valid_keys(data@) && e == BuildError::InvalidInput,
            },
    {
        if !check_keys(data) {
            return Err(BuildError::InvalidInput);
        }
        Ok(RadixSpline::new(data, num_radix_bits, max_error))
    }

    /// Builds the spline and, as each spline point is emitted, the table
    /// entries up to its prefix: one pass over the keys.
    #[verifier::rlimit(50)]
    fn build(
        points: &mut Vec<Point>,
        table: &mut Vec<usize>,
        data: &Vec<u64>,
        min_key: u64,
        shift_radix_bits: u32,
        max_error: usize,
    )
        requires
            valid_keys(data@),
            data.len() + max_error <= usize::MAX,
            min_key == data@[0],
            old(table).len() == prefix_of(data@[data.len() - 1], min_key, shift_radix_bits) + 2,
        ensures
            final(points)@ == spline_of(data@, max_error),
            spline_ok(data@, max_error as int, final(points)@),
            table_ok(
                final(table)@,
                final(points)@,
                min_key,
                shift_radix_bits,
                prefix_of(data@[data.len() - 1], min_key, shift_radix_bits),
            ),
    {
        let n = data.len();
        let ghost max_prefix = prefix_of(data@[n - 1], min_key, shift_radix_bits);
        let mut scan = CorridorScan::start(data, max_error);
        let mut last_prefix: usize = 0;
        proof {
            assert(scan.points@[0] == point_at(data@, 0));
            lemma_prefix_monotone(data@[0], data@[n - 1], min_key, shift_radix_bits);
            let z = (data@[0] - min_key) as u64;
            assert(z == 0);
            assert(shift_radix_bits < 64 ==> (z >> (shift_radix_bits as u64)) == 0) by (bit_vector)
                requires
                    z == 0,
            ;
        }
        fill(table, 0, 1, 0);
        let mut i: usize = 2;
        while i < n
            invariant
                valid_keys(data@),
                n == data.len(),
                n + max_error <= usize::MAX,
                min_key == data@[0],
                2 <= i <= n,
                scan.state() == corridor_after(data@, max_error, i as int),
                table.len() == max_prefix + 2,
                max_prefix == prefix_of(data@[n - 1], min_key, shift_radix_bits),
                last_prefix <= max_prefix,
                scan.points@.len() >= 1,
                last_prefix == prefix_of(scan.points@[scan.points@.len() - 1].key, min_key, shift_radix_bits),
                forall|q: int|
                    0 <= q < scan.points@.len() ==> prefix_of(#[trigger] scan.points@[q].key, min_key, shift_radix_bits)
                        <= last_prefix,
                forall|p: int|
                    0 <= p <= last_prefix ==> first_with_prefix(
                        scan.points@,
                        min_key,
                        shift_radix_bits,
                        p,
                        #[trigger] table@[p] as int,
                    ) && table@[p] < scan.points@.len(),
            decreases n - i,
        {
            let ghost old_points = scan.points@;
            let ghost old_table = table@;
            proof {
                lemma_scan_prefix(data@, max_error, i as int);
            }
            let emitted = scan.advance(data, max_error, i);
            if emitted {
                let key = data[i - 1];
                proof {
                    lemma_prefix_monotone(old_points[old_points.len() - 1].key, key, min_key, shift_radix_bits);
                    lemma_prefix_monotone(key, data@[n - 1], min_key, shift_radix_bits);
                }
                let cur_prefix = prefix(key, min_key, shift_radix_bits) as usize;
                let v = scan.points.len() - 1;
                fill(table, last_prefix + 1, cur_prefix + 1, v);
                proof {
                    lemma_extend_table(
                        old_points,
                        scan.points@,
                        old_table,
                        table@,
                        min_key,
                        shift_radix_bits,
                        last_prefix as int,
                        cur_prefix as int,
                    );
                }
                last_prefix = cur_prefix;
            }
            i = i + 1;
        }
        let ghost old_points = scan.points@;
        let ghost old_table = table@;
        proof {
            lemma_scan_prefix(data@, max_error, n as int);
            lemma_prefix_monotone(old_points[old_points.len() - 1].key, data@[n - 1], min_key, shift_radix_bits);
        }
        let mut all = scan.points;
        all.push(Point::new(data[n - 1], n - 1));
        let cur_prefix = prefix(data[n - 1], min_key, shift_radix_bits) as usize;
        let v = all.len() - 1;
        fill(table, last_prefix + 1, cur_prefix + 1, v);
        proof {
            lemma_extend_table(
                old_points,
                all@,
                old_table,
                table@,
                min_key,
                shift_radix_bits,
                last_prefix as int,
                cur_prefix as int,
            );
        }
        let ghost mid_table = table@;
        let end = table.len();
        fill(table, cur_prefix + 1, end, all.len());
        proof {
            assert forall|p: int| 0 <= p < table@.len() implies first_with_prefix(
                all@,
                min_key,
                shift_radix_bits,
                p,
                #[trigger] table@[p] as int,
            ) by {
                if p <= cur_prefix {
                    assert(table@[p] == mid_table[p]);
                }
            }
            lemma_spline_shape(data@, max_error);
        }
        *points = all;
    }

    /// Builds the index with 18 radix bits and an error bound of 32.
    pub fn default(data: &'a Vec<u64>) -> (r: RadixSpline<'a>)
        requires
            valid_keys(data@),
            data.len() + DEFAULT_MAX_ERROR <= usize::MAX,
            max_prefix_of(data@, DEFAULT_RADIX_BITS as int) + 2 <= usize::MAX,
        ensures
            r.built_from(data@, DEFAULT_RADIX_BITS, DEFAULT_MAX_ERROR),
    {
        RadixSpline::new(data, DEFAULT_RADIX_BITS, DEFAULT_MAX_ERROR)
    }

    /// The first spline point whose key is at least `key`, found between the
    /// table entries of `key`'s prefix and of the next one.
    fn get_spline_segment(&self, key: u64) -> (j: usize)
        requires
            self.wf(),
            self.keys()[0] <= key <= self.keys()[self.keys().len() - 1],
        ensures
            first_at_least(self.spline(), key, j as int),
    {
        locate_segment(
            &self.points,
            &self.table,
            self.data,
            self.min_key,
            self.shift_radix_bits,
            Ghost(self.max_error),
            key,
        )
    }

    /// The spline points, in increasing key order.
    pub fn points(&self) -> (r: &Vec<Point>)
        ensures
            r@ == self.spline(),
    {
        &self.points
    }

    /// The radix table.
    pub fn table(&self) -> (r: &Vec<usize>)
        ensures
            r@ == self.radix_table(),
    {
        &self.table
    }

    /// Returns an index holding `key`, or `None` if no key equals it.
    pub fn search(&self, key: u64) -> (r: Option<usize>)
        requires
            self.wf(),
        ensures
            match r {
                Some(i) => i < self.keys().len() && self.keys()[i as int] == key,
                None => !self.keys().contains(key),
            },
    {
        let n = self.data.len();
        if key < self.min_key || key > self.data[n - 1] {
            proof {
                assert forall|t: int| 0 <= t < n implies self.data@[t] != key by {
                    assert(self.data@[0] <= self.data@[t] <= self.data@[n - 1]);
                }
            }
            return None;
        }
        let j = self.get_spline_segment(key);
        refine(self.data, &self.points, self.max_error, j, key)
    }
}

} // verus!
