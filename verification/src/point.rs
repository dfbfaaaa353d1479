//! Lattice points in axial coordinates and the operations on them.

use crate::axial::Axial;
use crate::neighborhood::{
    column_high, column_low, lemma_region_contains, lemma_region_distinct, lemma_region_len,
    lemma_ring_contains, lemma_ring_distinct, lemma_ring_index, lemma_side_offset,
    lemma_spiral_contains, lemma_spiral_distinct, lemma_spiral_len, region_size, side_offset,
};
use crate::segment::{lemma_interpolate_between, lemma_line_ends, round_half_away};
use std::ops::{Add, Mul, Sub};
use vstd::arithmetic::div_mod::{
    lemma_fundamental_div_mod, lemma_fundamental_div_mod_converse, lemma_mod_pos_bound,
};
use vstd::prelude::*;
use vstd::std_specs::ops::{AddSpecImpl, MulSpecImpl, SubSpecImpl};

verus! {

/// A lattice location or displacement, given by its position on two axes.
#[derive(Clone, Copy, Debug, PartialEq, Eq, Structural)]
pub struct Point {
    pub hx: i32,
    pub hy: i32,
}

impl View for Point {
    type V = Axial;

    open spec fn view(&self) -> Axial {
        Axial { hx: self.hx as int, hy: self.hy as int }
    }
}

impl DeepView for Point {
    type V = Axial;

    open spec fn deep_view(&self) -> Axial {
        self@
    }
}

/// The reference point for all others.
pub fn origin() -> (r: Point)
    ensures
        r@ == Axial::origin(),
{
    Point { hx: 0, hy: 0 }
}

/// The unit displacement in one of the six directions.
pub fn unit(direction: usize) -> (r: Point)
    requires
        direction < 6,
    ensures
        r@ == Axial::unit(direction as int),
{
    let units: [Point; 6] = [
        Point { hx: 0, hy: -1 },
        Point { hx: 1, hy: -1 },
        Point { hx: 1, hy: 0 },
        Point { hx: 0, hy: 1 },
        Point { hx: -1, hy: 1 },
        Point { hx: -1, hy: 0 },
    ];
    units[direction]
}

/// The remainder of `n` by a positive `modulus`, never negative.
fn euclid_rem(n: i32, modulus: i32) -> (r: i32)
    requires
        modulus > 0,
    ensures
        r == n as int % modulus as int,
{
    let m: i32 = n % modulus;
    proof {
        let d = modulus as int;
        let a = -(n as int);
        if n < 0 {
            lemma_fundamental_div_mod(a, d);
            lemma_mod_pos_bound(a, d);
            let q = a / d;
            if a % d == 0 {
                assert(n == (-q) * d + 0) by (nonlinear_arith)
                    requires
                        a == d * q,
                        a == -n,
                ;
                lemma_fundamental_div_mod_converse(n as int, d, -q, 0);
            } else {
                assert(n == (-q - 1) * d + (d - a % d)) by (nonlinear_arith)
                    requires
                        a == d * q + a % d,
                        a == -n,
                ;
                lemma_fundamental_div_mod_converse(n as int, d, -q - 1, d - a % d);
            }
        }
    }
    if m < 0 {
        m + modulus
    } else {
        m
    }
}

/// A product of two bounded integers is bounded by the product of the bounds.
proof fn lemma_product_bound(a: int, b: int, m: int, n: int)
    requires
        -m <= a <= m,
        -n <= b <= n,
    ensures
        -(m * n) <= a * b <= m * n,
{
    assert((m - a) * (n - b) >= 0 && (m + a) * (n + b) >= 0 && (m - a) * (n + b) >= 0 && (m + a)
        * (n - b) >= 0) by (nonlinear_arith)
        requires
            -m <= a <= m,
            -n <= b <= n,
    ;
    assert((m - a) * (n - b) == m * n - m * b - a * n + a * b) by (nonlinear_arith);
    assert((m + a) * (n + b) == m * n + m * b + a * n + a * b) by (nonlinear_arith);
    assert((m - a) * (n + b) == m * n + m * b - a * n - a * b) by (nonlinear_arith);
    assert((m + a) * (n - b) == m * n - m * b + a * n - a * b) by (nonlinear_arith);
}

/// The fraction `numerator / denominator` rounded to the nearest integer,
/// halves away from zero.
fn round_ratio(numerator: i128, denominator: i128) -> (r: i128)
    requires
        0 < denominator <= 0x4_0000_0000,
        -0x4_0000_0000_0000_0000 <= numerator <= 0x4_0000_0000_0000_0000,
    ensures
        r == round_half_away(numerator as int, denominator as int),
{
    if numerator >= 0 {
        (2 * numerator + denominator) / (2 * denominator)
    } else {
        -((denominator - 2 * numerator) / (2 * denominator))
    }
}

/// Appends a point to a list and says what the list then stands for.
fn push_point(points: &mut Vec<Point>, p: Point)
    ensures
        final(points)@ == old(points)@.push(p),
        final(points).deep_view() == old(points).deep_view().push(p@),
{
    points.push(p);
    assert(points.deep_view() =~= old(points).deep_view().push(p@));
}

impl AddSpecImpl for Point {
    open spec fn obeys_add_spec() -> bool {
        true
    }

    open spec fn add_req(self, rhs: Point) -> bool {
        self@.plus(rhs@).fits()
    }

    open spec fn add_spec(self, rhs: Point) -> Point {
        Point { hx: (self.hx + rhs.hx) as i32, hy: (self.hy + rhs.hy) as i32 }
    }
}

impl Add for Point {
    type Output = Point;

    /// The sum of two points is the sum of both components.
    fn add(self, rhs: Point) -> (r: Point)
        ensures
            r@ == self@.plus(rhs@),
    {
        Point { hx: self.hx + rhs.hx, hy: self.hy + rhs.hy }
    }
}

impl SubSpecImpl for Point {
    open spec fn obeys_sub_spec() -> bool {
        true
    }

    open spec fn sub_req(self, rhs: Point) -> bool {
        self@.minus(rhs@).fits()
    }

    open spec fn sub_spec(self, rhs: Point) -> Point {
        Point { hx: (self.hx - rhs.hx) as i32, hy: (self.hy - rhs.hy) as i32 }
    }
}

impl Sub for Point {
    type Output = Point;

    /// The difference of two points is the difference of both components.
    fn sub(self, rhs: Point) -> (r: Point)
        ensures
            r@ == self@.minus(rhs@),
    {
        Point { hx: self.hx - rhs.hx, hy: self.hy - rhs.hy }
    }
}

impl MulSpecImpl<i32> for Point {
    open spec fn obeys_mul_spec() -> bool {
        true
    }

    open spec fn mul_req(self, rhs: i32) -> bool {
        self@.scaled(rhs as int).fits()
    }

    open spec fn mul_spec(self, rhs: i32) -> Point {
        Point { hx: (self.hx * rhs) as i32, hy: (self.hy * rhs) as i32 }
    }
}

impl Mul<i32> for Point {
    type Output = Point;

    /// A displacement times a scalar has both components multiplied by it.
    fn mul(self, rhs: i32) -> (r: Point)
        ensures
            r@ == self@.scaled(rhs as int),
    {
        Point { hx: self.hx * rhs, hy: self.hy * rhs }
    }
}

impl Point {
    /// The position on the third axis, which depends on the other two.
    pub fn hz(&self) -> (r: i32)
        requires
            i32::MIN <= self@.hz() <= i32::MAX,
        ensures
            r == self@.hz(),
    {
        self.hy - self.hx
    }

    /// The point one step away in `direction`, counted modulo 6.
    pub fn neighbor(&self, direction: i32) -> (r: Point)
        requires
            self@.neighbor(direction as int).fits(),
        ensures
            r@ == self@.neighbor(direction as int),
    {
        *self + unit(euclid_rem(direction, 6) as usize)
    }

    /// The displacement that points the opposite way.
    pub fn invert(&self) -> (r: Point)
        requires
            self@.inverted().fits(),
        ensures
            r@ == self@.inverted(),
    {
        Point { hx: -self.hx, hy: -self.hy }
    }

    /// The mirror image across one of the three axes, chosen by `axis`
    /// modulo 3.
    pub fn reflect(&self, axis: i32) -> (r: Point)
        requires
            self@.reflect(axis as int).fits(),
        ensures
            r@ == self@.reflect(axis as int),
    {
        let a: i32 = euclid_rem(axis, 3);
        if a == 0 {
            self.reflect_hx()
        } else if a == 1 {
            self.reflect_hy()
        } else {
            self.reflect_hz()
        }
    }

    /// The mirror image that keeps the position on the first axis.
    pub fn reflect_hx(&self) -> (r: Point)
        requires
            self@.reflect(0).fits(),
        ensures
            r@ == self@.reflect(0),
    {
        Point { hx: self.hx, hy: self.hz() }
    }

    /// The mirror image that keeps the position on the second axis.
    pub fn reflect_hy(&self) -> (r: Point)
        requires
            self@.reflect(1).fits(),
        ensures
            r@ == self@.reflect(1),
    {
        Point { hx: self.hz(), hy: self.hy }
    }

    /// The mirror image that exchanges the first two axes.
    pub fn reflect_hz(&self) -> (r: Point)
        ensures
            r@ == self@.reflect(2),
    {
        Point { hx: self.hy, hy: self.hx }
    }

    /// The displacement turned about the origin by `hextant` sixths of a
    /// turn.
    pub fn rotate(&self, hextant: i32) -> (r: Point)
        requires
            self@.rotate(hextant as int).fits(),
        ensures
            r@ == self@.rotate(hextant as int),
    {
        let shift: i32 = euclid_rem(hextant, 3);
        let odd: bool = euclid_rem(hextant, 2) != 0;
        let hx: i64 = self.hx as i64;
        let hy: i64 = self.hy as i64;
        let hz: i64 = hy - hx;
        let (x, y): (i64, i64) = if shift == 0 {
            (hx, hy)
        } else if shift == 1 {
            (hy, hz)
        } else {
            (hz, hx)
        };
        if odd {
            Point { hx: (-x) as i32, hy: (-y) as i32 }
        } else {
            Point { hx: x as i32, hy: y as i32 }
        }
    }

    /// The number of steps from one point to the other, in a width that
    /// holds it for every pair of points.
    fn span(&self, other: &Point) -> (r: i64)
        ensures
            r == self@.distance(other@),
            0 <= r <= 0x2_0000_0000,
    {
        let dx: i64 = self.hx as i64 - other.hx as i64;
        let dy: i64 = self.hy as i64 - other.hy as i64;
        let sum: i64 = dx + dy;
        let ax: i64 = if dx < 0 { -dx } else { dx };
        let ay: i64 = if dy < 0 { -dy } else { dy };
        let az: i64 = if sum < 0 { -sum } else { sum };
        (ax + az + ay) / 2
    }

    /// The number of steps from one point to the other.
    pub fn distance(&self, other: &Point) -> (r: i32)
        requires
            self@.distance(other@) <= i32::MAX,
        ensures
            r == self@.distance(other@),
    {
        self.span(other) as i32
    }

    /// The point at `step` on the straight walk from `self` to `other`.
    /// Steps before the start or past the end continue the walk in a straight
    /// line.
    pub fn interpolate(&self, other: &Point, step: i32) -> (r: Point)
        requires
            self@.interpolate(other@, step as int).fits(),
        ensures
            r@ == self@.interpolate(other@, step as int),
    {
        let length: i128 = self.span(other) as i128;
        if length == 0 {
            return *self;
        }
        let dx: i128 = other.hx as i128 - self.hx as i128;
        let dy: i128 = other.hy as i128 - self.hy as i128;
        let s: i128 = step as i128;
        proof {
            lemma_product_bound(self.hx as int, length as int, 0x8000_0000, 0x2_0000_0000);
            lemma_product_bound(self.hy as int, length as int, 0x8000_0000, 0x2_0000_0000);
            lemma_product_bound(s as int, dx as int, 0x8000_0000, 0x1_0000_0000);
            lemma_product_bound(s as int, dy as int, 0x8000_0000, 0x1_0000_0000);
        }
        let x: i128 = round_ratio(self.hx as i128 * length + s * dx, length);
        let y: i128 = round_ratio(self.hy as i128 * length + s * dy, length);
        Point { hx: x as i32, hy: y as i32 }
    }

    /// The straight walk from `self` to `other`, both ends included.
    pub fn line(&self, other: &Point) -> (r: Vec<Point>)
        requires
            self@.distance(other@) <= i32::MAX,
        ensures
            r.deep_view() == self@.line(other@),
            r.len() == self@.distance(other@) + 1,
            r@.first() == *self,
            r@.last() == *other,
    {
        let length: i32 = self.distance(other);
        let mut points: Vec<Point> = Vec::new();
        let mut step: i32 = 0;
        while step < length
            invariant
                0 <= step <= length,
                length == self@.distance(other@),
                points.len() == step,
                forall|i: int| 0 <= i < step ==> (#[trigger] points[i])@ == self@.interpolate(other@, i),
            decreases length - step,
        {
            proof {
                lemma_interpolate_between(self@, other@, step as int);
            }
            points.push(self.interpolate(other, step));
            step = step + 1;
        }
        proof {
            lemma_interpolate_between(self@, other@, length as int);
        }
        points.push(self.interpolate(other, length));
        proof {
            assert(points.deep_view() =~= self@.line(other@));
            lemma_line_ends(self@, other@);
            assert(points@.first()@ == points.deep_view()[0]);
            assert(points@.last()@ == points.deep_view().last());
        }
        points
    }

    /// All points within `dist` steps of this one, column by column along
    /// the first axis and, within a column, upwards along the second.
    pub fn region(&self, dist: i32) -> (r: Vec<Point>)
        requires
            dist >= 0,
            self@.reach_fits(dist as int),
        ensures
            r.deep_view() == self@.region(dist as nat),
            r.len() == region_size(dist as int),
            r.deep_view().no_duplicates(),
            forall|q: Axial| r.deep_view().contains(q) <==> self@.distance(q) <= dist,
    {
        let ghost reach = dist as nat;
        let mut points: Vec<Point> = Vec::new();
        let mut hx: i64 = -(dist as i64);
        assert(points.deep_view() =~= self@.region_columns(reach, 0));
        while hx <= dist as i64
            invariant
                dist >= 0,
                reach == dist,
                self@.reach_fits(dist as int),
                -dist <= hx <= dist + 1,
                points.deep_view() == self@.region_columns(reach, (hx + dist) as nat),
            decreases dist + 1 - hx,
        {
            let low: i64 = if hx <= 0 { -hx - dist as i64 } else { -(dist as i64) };
            let high: i64 = if hx <= 0 { dist as i64 } else { dist as i64 - hx };
            let ghost done = points.deep_view();
            let ghost column = self@.region_column(reach, hx as int);
            let mut hy: i64 = low;
            assert(points.deep_view() =~= done + column.take(0));
            while hy <= high
                invariant
                    dist >= 0,
                    reach == dist,
                    self@.reach_fits(dist as int),
                    -dist <= hx <= dist,
                    low == column_low(dist as int, hx as int),
                    high == column_high(dist as int, hx as int),
                    column == self@.region_column(reach, hx as int),
                    low <= hy <= high + 1,
                    points.deep_view() == done + column.take(hy - low),
                decreases high + 1 - hy,
            {
                let offset = Point { hx: hx as i32, hy: hy as i32 };
                push_point(&mut points, *self + offset);
                assert(done + column.take(hy - low + 1) =~= (done + column.take(hy - low)).push(
                    column[hy - low],
                ));
                hy = hy + 1;
            }
            assert(column.take(high - low + 1) =~= column);
            hx = hx + 1;
        }
        proof {
            lemma_region_len(self@, reach);
            lemma_region_distinct(self@, reach);
            assert forall|q: Axial| points.deep_view().contains(q) <==> self@.distance(q)
                <= dist by {
                lemma_region_contains(self@, reach, q);
            }
        }
        points
    }

    /// Appends to `points` the ring of the given radius around this point.
    fn push_ring(&self, radius: i32, points: &mut Vec<Point>)
        requires
            radius >= 0,
            self@.reach_fits(radius as int),
        ensures
            final(points).deep_view() == old(points).deep_view() + self@.ring(radius as nat),
    {
        let ghost before = points.deep_view();
        let ghost ring = self@.ring(radius as nat);
        if radius == 0 {
            push_point(points, *self);
            assert(points.deep_view() =~= before + ring);
            return ;
        }
        proof {
            lemma_side_offset(self@, radius as nat, 0, 0);
        }
        let mut next: Point = *self + unit(4) * radius;
        let mut side: i32 = 0;
        assert(points.deep_view() =~= before + ring.take(0));
        while side < 6
            invariant
                radius > 0,
                self@.reach_fits(radius as int),
                ring == self@.ring(radius as nat),
                0 <= side <= 6,
                next@ == self@.plus(side_offset(radius as int, side as int % 6, 0)),
                points.deep_view() == before + ring.take(side * radius),
            decreases 6 - side,
        {
            let mut along: i32 = 0;
            while along < radius
                invariant
                    radius > 0,
                    self@.reach_fits(radius as int),
                    ring == self@.ring(radius as nat),
                    0 <= side < 6,
                    0 <= along <= radius,
                    next@ == self@.plus(side_offset(radius as int, side as int, along as int)),
                    points.deep_view() == before + ring.take(side * radius + along),
                decreases radius - along,
            {
                let ghost index = side * radius + along;
                proof {
                    lemma_ring_index(self@, radius as nat, side as int, along as int);
                }
                push_point(points, next);
                assert(before + ring.take(index + 1) =~= (before + ring.take(index)).push(
                    ring[index],
                ));
                next = next.neighbor(side);
                along = along + 1;
            }
            assert((side + 1) * radius == side * radius + radius) by (nonlinear_arith);
            side = side + 1;
        }
        assert(ring.take(6 * radius) =~= ring);
    }

    /// The points at exactly `radius` steps from this one, in the order of a
    /// walk around it. The ring of radius 0 is the point itself.
    pub fn ring(&self, radius: i32) -> (r: Vec<Point>)
        requires
            radius >= 0,
            self@.reach_fits(radius as int),
        ensures
            r.deep_view() == self@.ring(radius as nat),
            r.len() == if radius == 0 {
                1
            } else {
                6 * radius
            },
            r.deep_view().no_duplicates(),
            forall|q: Axial| r.deep_view().contains(q) <==> self@.distance(q) == radius,
    {
        let mut points: Vec<Point> = Vec::new();
        self.push_ring(radius, &mut points);
        proof {
            assert(points.deep_view() =~= self@.ring(radius as nat));
            lemma_ring_distinct(self@, radius as nat);
            assert forall|q: Axial| points.deep_view().contains(q) <==> self@.distance(q)
                == radius by {
                lemma_ring_contains(self@, radius as nat, q);
            }
        }
        points
    }

    /// The rings of radius 0 to `radius` around this point, one after the
    /// other.
    pub fn spiral(&self, radius: i32) -> (r: Vec<Point>)
        requires
            radius >= 0,
            self@.reach_fits(radius as int),
        ensures
            r.deep_view() == self@.spiral(radius as nat),
            r.len() == region_size(radius as int),
            r.deep_view().no_duplicates(),
            forall|q: Axial| r.deep_view().contains(q) <==> self@.distance(q) <= radius,
    {
        let mut points: Vec<Point> = Vec::new();
        self.push_ring(0, &mut points);
        assert(points.deep_view() =~= self@.spiral(0));
        let mut done: i32 = 0;
        while done < radius
            invariant
                0 <= done <= radius,
                self@.reach_fits(radius as int),
                points.deep_view() == self@.spiral(done as nat),
            decreases radius - done,
        {
            done = done + 1;
            self.push_ring(done, &mut points);
        }
        proof {
            lemma_spiral_len(self@, radius as nat);
            lemma_spiral_distinct(self@, radius as nat);
            assert forall|q: Axial| points.deep_view().contains(q) <==> self@.distance(q)
                <= radius by {
                lemma_spiral_contains(self@, radius as nat, q);
            }
        }
        points
    }
}

} // verus!
