//! Geometry shared by the builders: points `(key, position)` and the lines
//! between them.

use vstd::prelude::*;

verus! {

/// A key together with its position in the sorted data (`data[position] == key`).
/// Two points are equal, and ordered, by their keys alone.
#[derive(Clone, Copy, Debug, Default)]
pub struct Point {
    pub key: u64,
    pub position: usize,
}

impl Point {
    pub fn new(key: u64, position: usize) -> (r: Point)
        ensures
            r.key == key,
            r.position == position,
    {
        Point { key, position }
    }

    pub fn key(&self) -> (r: u64)
        ensures
            r == self.key,
    {
        self.key
    }

    pub fn position(&self) -> (r: usize)
        ensures
            r == self.position,
    {
        self.position
    }
}

impl PartialEq for Point {
    fn eq(&self, other: &Point) -> (r: bool) {
        self.key == other.key
    }
}

impl vstd::std_specs::cmp::PartialEqSpecImpl for Point {
    open spec fn obeys_eq_spec() -> bool {
        true
    }

    open spec fn eq_spec(&self, other: &Point) -> bool {
        self.key == other.key
    }
}

impl Eq for Point {}

impl PartialOrd for Point {
    fn partial_cmp(&self, other: &Point) -> (r: Option<core::cmp::Ordering>) {
        if self.key < other.key {
            Some(core::cmp::Ordering::Less)
        } else if self.key > other.key {
            Some(core::cmp::Ordering::Greater)
        } else {
            Some(core::cmp::Ordering::Equal)
        }
    }
}

impl vstd::std_specs::cmp::PartialOrdSpecImpl for Point {
    open spec fn obeys_partial_cmp_spec() -> bool {
        true
    }

    open spec fn partial_cmp_spec(&self, other: &Point) -> Option<core::cmp::Ordering> {
        if self.key < other.key {
            Some(core::cmp::Ordering::Less)
        } else if self.key > other.key {
            Some(core::cmp::Ordering::Greater)
        } else {
            Some(core::cmp::Ordering::Equal)
        }
    }
}

/// Why an index could not be built.
#[derive(Clone, Copy, Debug, PartialEq, Eq, Structural)]
pub enum BuildError {
    /// Fewer than three keys, keys out of order, or the last key not above
    /// the first.
    InvalidInput,
}

/// How a line turns relative to another line from the same start point.
#[derive(Clone, Copy, Debug, PartialEq, Eq, Structural)]
pub enum Direction {
    /// The line is strictly steeper.
    Left,
    /// The line is strictly shallower.
    Right,
    /// Both lines have the same slope.
    Coincide,
}

/// The directed segment from `start` to `end`.
#[derive(Clone, Copy, Debug)]
pub struct Line {
    pub start: Point,
    pub end: Point,
}

/// `a` is strictly steeper than `b`, both having positive run:
/// `dy_a / dx_a > dy_b / dx_b`, compared by cross-multiplication.
pub open spec fn steeper(a: Line, b: Line) -> bool {
    a.rise() * b.run() > b.rise() * a.run()
}

/// The direction of `a` relative to `b`.
pub open spec fn direction_of(a: Line, b: Line) -> Direction {
    if steeper(a, b) {
        Direction::Left
    } else if steeper(b, a) {
        Direction::Right
    } else {
        Direction::Coincide
    }
}

impl Line {
    /// The change in position along the line; it may be negative.
    pub open spec fn rise(self) -> int {
        self.end.position - self.start.position
    }

    /// The change in key along the line.
    pub open spec fn run(self) -> int {
        self.end.key - self.start.key
    }

    pub fn new(start: Point, end: Point) -> (r: Line)
        ensures
            r.start == start,
            r.end == end,
    {
        Line { start, end }
    }

    pub fn is_vertical(&self) -> (r: bool)
        ensures
            r == (self.start.key == self.end.key),
    {
        self.start.key == self.end.key
    }

    /// Compares the slopes of two lines with increasing keys, exactly: the
    /// cross products are formed on magnitudes in `u128`, which cannot overflow.
    pub fn get_direction(&self, other: &Line) -> (r: Direction)
        requires
            self.start.key < self.end.key,
            other.start.key < other.end.key,
        ensures
            r == direction_of(*self, *other),
    {
        let run = (self.end.key - self.start.key) as u128;
        let other_run = (other.end.key - other.start.key) as u128;
        let falls = self.end.position < self.start.position;
        let other_falls = other.end.position < other.start.position;
        let mag: u128 = if falls {
            (self.start.position - self.end.position) as u128
        } else {
            (self.end.position - self.start.position) as u128
        };
        let other_mag: u128 = if other_falls {
            (other.start.position - other.end.position) as u128
        } else {
            (other.end.position - other.start.position) as u128
        };
        proof {
            lemma_product_fits(mag, other_run);
            lemma_product_fits(other_mag, run);
        }
        // |rise| * other_run and |other_rise| * run
        let lhs = mag * other_run;
        let rhs = other_mag * run;
        proof {
            let a = self.rise();
            let b = other.rise();
            assert(a == if falls { -(mag as int) } else { mag as int });
            assert(b == if other_falls { -(other_mag as int) } else { other_mag as int });
            lemma_signed_products(a, b, mag as int, other_mag as int, run as int, other_run as int, falls, other_falls);
        }
        if !falls && !other_falls {
            if lhs > rhs {
                Direction::Left
            } else if lhs < rhs {
                Direction::Right
            } else {
                Direction::Coincide
            }
        } else if falls && other_falls {
            if lhs < rhs {
                Direction::Left
            } else if lhs > rhs {
                Direction::Right
            } else {
                Direction::Coincide
            }
        } else if other_falls {
            Direction::Left
        } else {
            Direction::Right
        }
    }

    /// `self` is strictly steeper than `other`.
    pub fn is_left(&self, other: &Line) -> (r: bool)
        requires
            self.start.key < self.end.key,
            other.start.key < other.end.key,
        ensures
            r == steeper(*self, *other),
    {
        matches!(self.get_direction(other), Direction::Left)
    }

    /// `self` is strictly shallower than `other`.
    pub fn is_right(&self, other: &Line) -> (r: bool)
        requires
            self.start.key < self.end.key,
            other.start.key < other.end.key,
        ensures
            r == steeper(*other, *self),
    {
        matches!(self.get_direction(other), Direction::Right)
    }
}

proof fn lemma_product_fits(a: u128, b: u128)
    requires
        a <= u64::MAX,
        b <= u64::MAX,
    ensures
        a * b <= u128::MAX,
{
    assert(a * b <= (u64::MAX as int) * (u64::MAX as int)) by (nonlinear_arith)
        requires
            a <= u64::MAX,
            b <= u64::MAX,
    ;
}

/// Relates the signed cross products to the products of magnitudes.
proof fn lemma_signed_products(
    a: int,
    b: int,
    mag: int,
    other_mag: int,
    run: int,
    other_run: int,
    falls: bool,
    other_falls: bool,
)
    requires
        mag >= 0,
        other_mag >= 0,
        run > 0,
        other_run > 0,
        falls ==> mag > 0,
        other_falls ==> other_mag > 0,
        a == if falls { -mag } else { mag },
        b == if other_falls { -other_mag } else { other_mag },
    ensures
        a * other_run == if falls { -(mag * other_run) } else { mag * other_run },
        b * run == if other_falls { -(other_mag * run) } else { other_mag * run },
        falls ==> mag * other_run > 0,
        other_falls ==> other_mag * run > 0,
{
    assert(falls ==> mag * other_run > 0) by (nonlinear_arith)
        requires
            falls ==> mag > 0,
            other_run > 0,
    ;
    assert(other_falls ==> other_mag * run > 0) by (nonlinear_arith)
        requires
            other_falls ==> other_mag > 0,
            run > 0,
    ;
    assert(a * other_run == if falls { -(mag * other_run) } else { mag * other_run }) by (nonlinear_arith)
        requires
            a == if falls { -mag } else { mag },
    ;
    assert(b * run == if other_falls { -(other_mag * run) } else { other_mag * run }) by (nonlinear_arith)
        requires
            b == if other_falls { -other_mag } else { other_mag },
    ;
}

} // verus!
