//! The surroundings of a lattice point: the region within a distance, the
//! ring at a distance and the spiral of rings, with the laws that count and
//! place their points.

use crate::axial::Axial;
use vstd::arithmetic::div_mod::{
    lemma_fundamental_div_mod, lemma_fundamental_div_mod_converse, lemma_mod_pos_bound,
};
use vstd::math::{max, min};
use vstd::prelude::*;
use vstd::seq_lib::{lemma_no_dup_in_concat, lemma_seq_concat_contains_all_elements};

verus! {

/// The lowest offset on the second axis in the column of a region that lies
/// `hx` columns from the centre.
pub open spec fn column_low(dist: int, hx: int) -> int {
    max(-dist, -hx - dist)
}

/// The highest offset on the second axis in the column of a region that lies
/// `hx` columns from the centre.
pub open spec fn column_high(dist: int, hx: int) -> int {
    min(dist, -hx + dist)
}

/// The number of lattice points within `dist` steps of a point.
pub open spec fn region_size(dist: int) -> int {
    3 * dist * dist + 3 * dist + 1
}

impl Axial {
    /// Whether every point within `dist` steps of this one can be held in 32
    /// signed bits per coordinate.
    pub open spec fn reach_fits(self, dist: int) -> bool {
        &&& i32::MIN <= self.hx - dist
        &&& self.hx + dist <= i32::MAX
        &&& i32::MIN <= self.hy - dist
        &&& self.hy + dist <= i32::MAX
    }

    /// The points of a region in the column `hx` columns from the centre,
    /// from the lowest to the highest.
    pub open spec fn region_column(self, dist: nat, hx: int) -> Seq<Axial> {
        Seq::new(
            (column_high(dist as int, hx) - column_low(dist as int, hx) + 1) as nat,
            |k: int| self.plus(Axial { hx, hy: column_low(dist as int, hx) + k }),
        )
    }

    /// The first `count` columns of a region, one after the other.
    pub open spec fn region_columns(self, dist: nat, count: nat) -> Seq<Axial>
        decreases count,
    {
        if count == 0 {
            Seq::empty()
        } else {
            self.region_columns(dist, (count - 1) as nat) + self.region_column(
                dist,
                count - 1 - dist,
            )
        }
    }

    /// All points within `dist` steps of this one, column by column from the
    /// offset `-dist` to the offset `dist` on the first axis.
    pub open spec fn region(self, dist: nat) -> Seq<Axial> {
        self.region_columns(dist, 2 * dist + 1)
    }
}

/// Which points the first columns of a region hold.
proof fn lemma_columns_contain(center: Axial, dist: nat, count: nat, q: Axial)
    requires
        count <= 2 * dist + 1,
    ensures
        center.region_columns(dist, count).contains(q) <==> ({
            let o = q.minus(center);
            &&& -dist <= o.hx < count - dist
            &&& column_low(dist as int, o.hx) <= o.hy <= column_high(dist as int, o.hx)
        }),
    decreases count,
{
    if count > 0 {
        let o = q.minus(center);
        let hx = count - 1 - dist;
        let before = center.region_columns(dist, (count - 1) as nat);
        let column = center.region_column(dist, hx);
        lemma_columns_contain(center, dist, (count - 1) as nat, q);
        lemma_seq_concat_contains_all_elements(before, column, q);
        let low = column_low(dist as int, hx);
        let high = column_high(dist as int, hx);
        if o.hx == hx && low <= o.hy <= high {
            assert(column[o.hy - low] == q);
        }
    }
}

/// A region holds a point if and only if the point is within the region's
/// distance of the centre.
pub proof fn lemma_region_contains(center: Axial, dist: nat, q: Axial)
    ensures
        center.region(dist).contains(q) <==> center.distance(q) <= dist,
{
    lemma_columns_contain(center, dist, 2 * dist + 1, q);
}

/// The first columns of a region hold no point twice.
proof fn lemma_columns_distinct(center: Axial, dist: nat, count: nat)
    requires
        count <= 2 * dist + 1,
    ensures
        center.region_columns(dist, count).no_duplicates(),
    decreases count,
{
    if count > 0 {
        let hx = count - 1 - dist;
        let before = center.region_columns(dist, (count - 1) as nat);
        let column = center.region_column(dist, hx);
        lemma_columns_distinct(center, dist, (count - 1) as nat);
        assert forall|i: int, j: int| 0 <= i < before.len() && 0 <= j < column.len() implies before[i]
            != column[j] by {
            lemma_columns_contain(center, dist, (count - 1) as nat, before[i]);
            assert(before.contains(before[i]));
        }
        lemma_no_dup_in_concat(before, column);
    }
}

/// A region holds no point twice.
pub proof fn lemma_region_distinct(center: Axial, dist: nat)
    ensures
        center.region(dist).no_duplicates(),
{
    lemma_columns_distinct(center, dist, 2 * dist + 1);
}

/// The number of points in the columns of a region up to and including the
/// one through the centre: the columns grow by one point each.
proof fn lemma_columns_len_growing(center: Axial, dist: nat, count: nat)
    requires
        count <= dist + 1,
    ensures
        2 * center.region_columns(dist, count).len() == count * (2 * dist + 1 + count),
    decreases count,
{
    if count == 0 {
        assert(count * (2 * dist + 1 + count) == 0) by (nonlinear_arith)
            requires
                count == 0,
        ;
    } else {
        let fewer = (count - 1) as nat;
        lemma_columns_len_growing(center, dist, fewer);
        assert(center.region_column(dist, count - 1 - dist).len() == dist + count);
        assert(count * (2 * dist + 1 + count) == fewer * (2 * dist + 1 + fewer) + 2 * (dist
            + count)) by (nonlinear_arith)
            requires
                fewer == count - 1,
        ;
    }
}

/// The number of points in the columns of a region from the one through the
/// centre on: the columns shrink by one point each.
proof fn lemma_columns_len_shrinking(center: Axial, dist: nat, beyond: nat)
    requires
        beyond <= dist,
    ensures
        2 * center.region_columns(dist, dist + 1 + beyond).len() == (dist + 1) * (3 * dist + 2)
            + beyond * (4 * dist + 1 - beyond),
    decreases beyond,
{
    if beyond == 0 {
        lemma_columns_len_growing(center, dist, dist + 1);
    } else {
        let fewer = (beyond - 1) as nat;
        lemma_columns_len_shrinking(center, dist, fewer);
        assert(center.region_column(dist, beyond as int).len() == 2 * dist + 1 - beyond);
        assert(beyond * (4 * dist + 1 - beyond) == fewer * (4 * dist + 1 - fewer) + 2 * (2 * dist
            + 1 - beyond)) by (nonlinear_arith)
            requires
                fewer == beyond - 1,
        ;
    }
}

/// A region of reach `dist` has `3 * dist * dist + 3 * dist + 1` points,
/// wherever its centre lies.
pub proof fn lemma_region_len(center: Axial, dist: nat)
    ensures
        center.region(dist).len() == region_size(dist as int),
{
    lemma_columns_len_shrinking(center, dist, dist);
    assert((dist + 1) * (3 * dist + 2) + dist * (4 * dist + 1 - dist) == 2 * (3 * dist * dist + 3
        * dist + 1)) by (nonlinear_arith);
}

/// The whole surroundings of a point fit into 32 signed bits per coordinate
/// exactly when every point within the distance does.
pub proof fn lemma_reach_fits(center: Axial, dist: nat)
    ensures
        center.reach_fits(dist as int) <==> (forall|q: Axial| center.distance(q) <= dist ==> q.fits()),
{
    if center.reach_fits(dist as int) {
        assert forall|q: Axial| center.distance(q) <= dist implies q.fits() by {}
    }
    if forall|q: Axial| center.distance(q) <= dist ==> q.fits() {
        let d = dist as int;
        let low = center.plus(Axial { hx: -d, hy: d });
        let high = center.plus(Axial { hx: d, hy: -d });
        assert(center.distance(low) <= dist);
        assert(center.distance(high) <= dist);
        assert(low.fits());
        assert(high.fits());
    }
}

impl Axial {
    /// The point of a ring at which the side numbered `side` starts.
    pub open spec fn ring_corner(self, radius: nat, side: int) -> Axial {
        self.plus(Axial::unit((side + 4) % 6).scaled(radius as int))
    }

    /// The point at `index` of a ring of positive radius. The ring has six
    /// sides of `radius` points each; side `k` starts at its corner and runs
    /// in direction `k`.
    pub open spec fn ring_point(self, radius: nat, index: int) -> Axial {
        let side = index / (radius as int);
        let along = index % (radius as int);
        self.ring_corner(radius, side).plus(Axial::unit(side).scaled(along))
    }

    /// The points at exactly `radius` steps from this one, in the order of a
    /// walk around it that starts `radius` steps away in direction 4. The
    /// ring of radius 0 is the point itself.
    pub open spec fn ring(self, radius: nat) -> Seq<Axial> {
        if radius == 0 {
            seq![self]
        } else {
            Seq::new(6 * radius, |index: int| self.ring_point(radius, index))
        }
    }

    /// The rings of radius 0 to `radius`, one after the other.
    pub open spec fn spiral(self, radius: nat) -> Seq<Axial>
        decreases radius,
    {
        if radius == 0 {
            self.ring(0)
        } else {
            self.spiral((radius - 1) as nat) + self.ring(radius)
        }
    }
}

/// The offset from the centre of the point `along` steps down the side
/// `side` of a ring, written out by coordinates.
pub open spec fn side_offset(radius: int, side: int, along: int) -> Axial {
    if side == 0 {
        Axial { hx: -radius, hy: radius - along }
    } else if side == 1 {
        Axial { hx: along - radius, hy: -along }
    } else if side == 2 {
        Axial { hx: along, hy: -radius }
    } else if side == 3 {
        Axial { hx: radius, hy: along - radius }
    } else if side == 4 {
        Axial { hx: radius - along, hy: along }
    } else {
        Axial { hx: -along, hy: radius }
    }
}

/// Walking `along` steps from a corner of a ring in the direction of its side
/// arrives at the offset that `side_offset` gives.
pub proof fn lemma_side_offset(center: Axial, radius: nat, side: int, along: int)
    requires
        0 <= side < 6,
    ensures
        center.ring_corner(radius, side).plus(Axial::unit(side).scaled(along)) == center.plus(
            side_offset(radius as int, side, along),
        ),
{
    lemma_unit_scaled((side + 4) % 6, radius as int);
    lemma_unit_scaled(side, along);
}

/// A unit displacement stretched by `k`, written out by coordinates.
proof fn lemma_unit_scaled(direction: int, k: int)
    ensures
        Axial::unit(direction).scaled(k) == if direction == 0 {
            Axial { hx: 0, hy: -k }
        } else if direction == 1 {
            Axial { hx: k, hy: -k }
        } else if direction == 2 {
            Axial { hx: k, hy: 0 }
        } else if direction == 3 {
            Axial { hx: 0, hy: k }
        } else if direction == 4 {
            Axial { hx: -k, hy: k }
        } else {
            Axial { hx: -k, hy: 0 }
        },
{
    let u = Axial::unit(direction);
    assert(u.hx == 0 ==> u.hx * k == 0) by (nonlinear_arith);
    assert(u.hy == 0 ==> u.hy * k == 0) by (nonlinear_arith);
    assert(u.hx == 1 ==> u.hx * k == k) by (nonlinear_arith);
    assert(u.hy == 1 ==> u.hy * k == k) by (nonlinear_arith);
    assert(u.hx == -1 ==> u.hx * k == -k) by (nonlinear_arith);
    assert(u.hy == -1 ==> u.hy * k == -k) by (nonlinear_arith);
}

/// The point of a ring at a given side and a given number of steps down it.
pub proof fn lemma_ring_index(center: Axial, radius: nat, side: int, along: int)
    requires
        0 <= side < 6,
        0 <= along < radius,
    ensures
        0 <= side * radius + along < center.ring(radius).len(),
        center.ring(radius)[side * radius + along] == center.plus(
            side_offset(radius as int, side, along),
        ),
{
    let r = radius as int;
    assert(0 <= side * r && side * r + r <= 6 * r) by (nonlinear_arith)
        requires
            0 <= side < 6,
            r > 0,
    ;
    lemma_fundamental_div_mod_converse(side * r + along, r, side, along);
    lemma_side_offset(center, radius, side, along);
}

/// The side and the steps down it of every index into a ring.
proof fn lemma_ring_position(radius: nat, index: int)
    requires
        0 <= index < 6 * radius,
    ensures
        0 <= index / (radius as int) < 6,
        0 <= index % (radius as int) < radius,
        index == (index / (radius as int)) * radius + index % (radius as int),
{
    let r = radius as int;
    lemma_fundamental_div_mod(index, r);
    lemma_mod_pos_bound(index, r);
    let side = index / r;
    assert(0 <= side < 6 && r * side == side * r) by (nonlinear_arith)
        requires
            0 <= index - r * side < r,
            0 <= index < 6 * r,
    ;
}

/// Every point of a ring lies exactly `radius` steps from the centre.
pub proof fn lemma_ring_distance(center: Axial, radius: nat, index: int)
    requires
        0 <= index < center.ring(radius).len(),
    ensures
        center.distance(center.ring(radius)[index]) == radius,
{
    if radius > 0 {
        lemma_ring_position(radius, index);
        lemma_ring_index(center, radius, index / (radius as int), index % (radius as int));
    }
}

/// A ring is a closed walk: it starts `radius` steps from the centre in
/// direction 4, each of its points is the neighbor of the one before in the
/// direction of the side that the earlier one lies on, and one more step from
/// the last point leads back to the first.
pub proof fn lemma_ring_walk(center: Axial, radius: nat, index: int)
    requires
        radius > 0,
        0 <= index < 6 * radius,
    ensures
        center.ring(radius)[0] == center.plus(Axial::unit(4).scaled(radius as int)),
        index + 1 < 6 * radius ==> center.ring(radius)[index + 1] == center.ring(
            radius,
        )[index].neighbor(index / (radius as int)),
        index + 1 == 6 * radius ==> center.ring(radius)[0] == center.ring(radius)[index].neighbor(
            index / (radius as int),
        ),
{
    let r = radius as int;
    let side = index / r;
    let along = index % r;
    lemma_ring_index(center, radius, 0, 0);
    lemma_ring_position(radius, index);
    lemma_ring_index(center, radius, side, along);
    if along + 1 < r {
        lemma_ring_index(center, radius, side, along + 1);
    } else if side < 5 {
        lemma_ring_index(center, radius, side + 1, 0);
        assert((side + 1) * r + 0 == side * r + along + 1) by (nonlinear_arith)
            requires
                along + 1 == r,
        ;
    } else {
        assert(side * r + along + 1 == 6 * r) by (nonlinear_arith)
            requires
                along + 1 == r,
                side == 5,
        ;
    }
}

/// The index in a ring of the point at the offset `o` from the centre, for an
/// offset of exactly `radius` steps.
pub open spec fn ring_index_of(radius: int, o: Axial) -> int {
    if o.hx == -radius && 0 < o.hy {
        radius - o.hy
    } else if o.hx + o.hy == -radius && o.hx < 0 {
        radius + (o.hx + radius)
    } else if o.hy == -radius && o.hx < radius {
        2 * radius + o.hx
    } else if o.hx == radius && o.hy < 0 {
        3 * radius + (o.hy + radius)
    } else if o.hx + o.hy == radius && 0 < o.hx {
        4 * radius + o.hy
    } else {
        5 * radius - o.hx
    }
}

/// Every point at `radius` steps from the centre stands in the ring, at the
/// index that `ring_index_of` gives.
pub proof fn lemma_ring_finds(center: Axial, radius: nat, q: Axial)
    requires
        radius > 0,
        center.distance(q) == radius,
    ensures
        0 <= ring_index_of(radius as int, q.minus(center)) < 6 * radius,
        center.ring(radius)[ring_index_of(radius as int, q.minus(center))] == q,
{
    let r = radius as int;
    let o = q.minus(center);
    if o.hx == -r && 0 < o.hy {
        lemma_ring_index(center, radius, 0, r - o.hy);
        assert(0 * r + (r - o.hy) == r - o.hy);
    } else if o.hx + o.hy == -r && o.hx < 0 {
        lemma_ring_index(center, radius, 1, o.hx + r);
        assert(1 * r + (o.hx + r) == r + (o.hx + r));
    } else if o.hy == -r && o.hx < r {
        lemma_ring_index(center, radius, 2, o.hx);
    } else if o.hx == r && o.hy < 0 {
        lemma_ring_index(center, radius, 3, o.hy + r);
    } else if o.hx + o.hy == r && 0 < o.hx {
        lemma_ring_index(center, radius, 4, o.hy);
    } else {
        lemma_ring_index(center, radius, 5, -o.hx);
    }
}

/// A ring holds a point if and only if the point lies exactly `radius` steps
/// from the centre.
pub proof fn lemma_ring_contains(center: Axial, radius: nat, q: Axial)
    ensures
        center.ring(radius).contains(q) <==> center.distance(q) == radius,
{
    let ring = center.ring(radius);
    if ring.contains(q) {
        let index = choose|i: int| 0 <= i < ring.len() && ring[i] == q;
        lemma_ring_distance(center, radius, index);
    }
    if center.distance(q) == radius {
        if radius == 0 {
            assert(ring[0] == q);
        } else {
            lemma_ring_finds(center, radius, q);
            assert(ring[ring_index_of(radius as int, q.minus(center))] == q);
        }
    }
}

/// A ring holds no point twice.
pub proof fn lemma_ring_distinct(center: Axial, radius: nat)
    ensures
        center.ring(radius).no_duplicates(),
{
    let ring = center.ring(radius);
    let r = radius as int;
    assert forall|i: int, j: int| 0 <= i < ring.len() && 0 <= j < ring.len() && i != j implies ring[i]
        != ring[j] by {
        lemma_ring_position(radius, i);
        lemma_ring_position(radius, j);
        lemma_ring_index(center, radius, i / r, i % r);
        lemma_ring_index(center, radius, j / r, j % r);
    }
}

/// A ring of positive radius has six points for each step of the radius.
pub proof fn lemma_ring_len(center: Axial, radius: nat)
    ensures
        center.ring(radius).len() == if radius == 0 {
            1
        } else {
            6 * radius
        },
{
}

/// A spiral has as many points as the region of the same reach:
/// `3 * radius * radius + 3 * radius + 1`.
pub proof fn lemma_spiral_len(center: Axial, radius: nat)
    ensures
        center.spiral(radius).len() == region_size(radius as int),
        center.spiral(radius).len() == center.region(radius).len(),
    decreases radius,
{
    lemma_region_len(center, radius);
    let r = radius as int;
    if radius == 0 {
        assert(3 * r * r + 3 * r + 1 == 1) by (nonlinear_arith)
            requires
                r == 0,
        ;
    } else {
        lemma_spiral_len(center, (radius - 1) as nat);
        assert(3 * r * r + 3 * r + 1 == 3 * (r - 1) * (r - 1) + 3 * (r - 1) + 1 + 6 * r)
            by (nonlinear_arith);
    }
}

/// A spiral holds a point if and only if the point is within `radius` steps
/// of the centre.
pub proof fn lemma_spiral_contains(center: Axial, radius: nat, q: Axial)
    ensures
        center.spiral(radius).contains(q) <==> center.distance(q) <= radius,
    decreases radius,
{
    lemma_ring_contains(center, radius, q);
    if radius > 0 {
        lemma_spiral_contains(center, (radius - 1) as nat, q);
        lemma_seq_concat_contains_all_elements(
            center.spiral((radius - 1) as nat),
            center.ring(radius),
            q,
        );
    }
}

/// A spiral holds no point twice.
pub proof fn lemma_spiral_distinct(center: Axial, radius: nat)
    ensures
        center.spiral(radius).no_duplicates(),
    decreases radius,
{
    lemma_ring_distinct(center, radius);
    if radius > 0 {
        let inner = center.spiral((radius - 1) as nat);
        let ring = center.ring(radius);
        lemma_spiral_distinct(center, (radius - 1) as nat);
        assert forall|i: int, j: int| 0 <= i < inner.len() && 0 <= j < ring.len() implies inner[i]
            != ring[j] by {
            lemma_spiral_contains(center, (radius - 1) as nat, inner[i]);
            assert(inner.contains(inner[i]));
            lemma_ring_distance(center, radius, j);
        }
        lemma_no_dup_in_concat(inner, ring);
    }
}

/// A spiral and the region of the same reach hold the same points.
pub proof fn lemma_spiral_covers_region(center: Axial, radius: nat, q: Axial)
    ensures
        center.spiral(radius).contains(q) <==> center.region(radius).contains(q),
{
    lemma_spiral_contains(center, radius, q);
    lemma_region_contains(center, radius, q);
}

} // verus!
