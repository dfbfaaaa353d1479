//! The mathematical model of the lattice: points with unbounded integer
//! coordinates, their algebra, the six directions, the symmetries and the
//! distance, together with the laws that relate them.

use vstd::prelude::*;

verus! {

/// A lattice point, or a displacement between two of them, over the
/// mathematical integers.
pub ghost struct Axial {
    pub hx: int,
    pub hy: int,
}

/// The absolute value of an integer.
pub open spec fn magnitude(n: int) -> int {
    if n < 0 {
        -n
    } else {
        n
    }
}

impl Axial {
    /// The reference point.
    pub open spec fn origin() -> Axial {
        Axial { hx: 0, hy: 0 }
    }

    /// The displacement of one step in `direction`, for directions 0 to 5.
    /// Each direction is one sixth of a turn from the one before.
    pub open spec fn unit(direction: int) -> Axial {
        if direction == 0 {
            Axial { hx: 0, hy: -1 }
        } else if direction == 1 {
            Axial { hx: 1, hy: -1 }
        } else if direction == 2 {
            Axial { hx: 1, hy: 0 }
        } else if direction == 3 {
            Axial { hx: 0, hy: 1 }
        } else if direction == 4 {
            Axial { hx: -1, hy: 1 }
        } else {
            Axial { hx: -1, hy: 0 }
        }
    }

    /// The position on the third axis, which is never stored.
    pub open spec fn hz(self) -> int {
        self.hy - self.hx
    }

    /// Whether both coordinates can be held in 32 signed bits.
    pub open spec fn fits(self) -> bool {
        &&& i32::MIN <= self.hx <= i32::MAX
        &&& i32::MIN <= self.hy <= i32::MAX
    }

    /// The component-wise sum.
    pub open spec fn plus(self, other: Axial) -> Axial {
        Axial { hx: self.hx + other.hx, hy: self.hy + other.hy }
    }

    /// The component-wise difference.
    pub open spec fn minus(self, other: Axial) -> Axial {
        Axial { hx: self.hx - other.hx, hy: self.hy - other.hy }
    }

    /// The displacement stretched by the factor `k`.
    pub open spec fn scaled(self, k: int) -> Axial {
        Axial { hx: self.hx * k, hy: self.hy * k }
    }

    /// The displacement pointing the opposite way.
    pub open spec fn inverted(self) -> Axial {
        Axial { hx: -self.hx, hy: -self.hy }
    }

    /// The point one step away in `direction`, which is taken modulo 6 with a
    /// remainder that is never negative.
    pub open spec fn neighbor(self, direction: int) -> Axial {
        self.plus(Axial::unit(direction % 6))
    }

    /// The mirror image across the axis `axis` modulo 3.
    pub open spec fn reflect(self, axis: int) -> Axial {
        if axis % 3 == 0 {
            Axial { hx: self.hx, hy: self.hz() }
        } else if axis % 3 == 1 {
            Axial { hx: self.hz(), hy: self.hy }
        } else {
            Axial { hx: self.hy, hy: self.hx }
        }
    }

    /// The displacement turned by `hextant` sixths of a turn: the three axis
    /// positions are shifted cyclically by `hextant` modulo 3, and the sign is
    /// flipped when `hextant` is odd.
    pub open spec fn rotate(self, hextant: int) -> Axial {
        let shifted = if hextant % 3 == 0 {
            Axial { hx: self.hx, hy: self.hy }
        } else if hextant % 3 == 1 {
            Axial { hx: self.hy, hy: self.hz() }
        } else {
            Axial { hx: self.hz(), hy: self.hx }
        };
        if hextant % 2 == 0 {
            shifted
        } else {
            shifted.inverted()
        }
    }

    /// The number of steps between two points.
    pub open spec fn distance(self, other: Axial) -> int {
        let d = self.minus(other);
        (magnitude(d.hx) + magnitude(d.hx + d.hy) + magnitude(d.hy)) / 2
    }
}

/// The three axis positions depend on each other: the first and the third
/// add up to the second.
pub proof fn lemma_axes_dependent(p: Axial)
    ensures
        p.hz() == p.hy - p.hx,
        p.hx + p.hz() == p.hy,
{
}

/// Points form a commutative group under addition, with the origin as the
/// neutral element and the inverted point as the inverse; subtracting is
/// adding the inverse.
pub proof fn lemma_additive_group(a: Axial, b: Axial, c: Axial)
    ensures
        a.plus(b).plus(c) == a.plus(b.plus(c)),
        a.plus(b) == b.plus(a),
        a.plus(Axial::origin()) == a,
        a.plus(a.inverted()) == Axial::origin(),
        a.minus(b) == a.plus(b.inverted()),
        a.minus(a) == Axial::origin(),
{
}

/// Scaling by 1 changes nothing, scaling by -1 inverts, scaling by 0 gives
/// the origin, and scaling distributes over the sum of two points.
pub proof fn lemma_scaling(a: Axial, b: Axial, k: int)
    ensures
        a.scaled(1) == a,
        a.scaled(-1) == a.inverted(),
        a.scaled(0) == Axial::origin(),
        a.plus(b).scaled(k) == a.scaled(k).plus(b.scaled(k)),
{
    assert((a.hx + b.hx) * k == a.hx * k + b.hx * k) by (nonlinear_arith);
    assert((a.hy + b.hy) * k == a.hy * k + b.hy * k) by (nonlinear_arith);
}

/// Opposite directions give opposite unit displacements.
pub proof fn lemma_unit_opposite(direction: int)
    requires
        0 <= direction < 3,
    ensures
        Axial::unit(direction + 3) == Axial::unit(direction).inverted(),
{
}

/// Each direction is next to the one after it: their unit displacements
/// end one step apart.
pub proof fn lemma_unit_adjacent(direction: int)
    requires
        0 <= direction < 6,
    ensures
        Axial::unit(direction).distance(Axial::unit((direction + 1) % 6)) == 1,
{
}

/// The neighbor of the origin in a direction is the unit displacement of
/// that direction.
pub proof fn lemma_neighbor_of_origin(direction: int)
    requires
        0 <= direction < 6,
    ensures
        Axial::origin().neighbor(direction) == Axial::unit(direction),
{
}

/// Directions count modulo 6, and every neighbor is one step away.
pub proof fn lemma_neighbor(p: Axial, direction: int, turns: int)
    ensures
        p.neighbor(direction + 6 * turns) == p.neighbor(direction),
        p.distance(p.neighbor(direction)) == 1,
{
}

/// Axes count modulo 3.
pub proof fn lemma_reflect_periodic(p: Axial, axis: int, turns: int)
    ensures
        p.reflect(axis + 3 * turns) == p.reflect(axis),
{
}

/// Turning is periodic: six sixths of a turn more or less change nothing.
pub proof fn lemma_rotate_periodic(p: Axial, hextant: int, turns: int)
    ensures
        p.rotate(hextant + 6 * turns) == p.rotate(hextant),
{
}

/// No turn, a full turn forwards and a full turn backwards leave a
/// displacement as it is; half a turn inverts it.
pub proof fn lemma_rotate_full_and_half(p: Axial)
    ensures
        p.rotate(0) == p,
        p.rotate(6) == p,
        p.rotate(-6) == p,
        p.rotate(3) == p.inverted(),
{
}

/// The distance is the same in both directions.
pub proof fn lemma_distance_symmetric(p: Axial, q: Axial)
    ensures
        p.distance(q) == q.distance(p),
{
}

/// Each unit displacement is one step long.
pub proof fn lemma_unit_distance(direction: int)
    requires
        0 <= direction < 6,
    ensures
        Axial::origin().distance(Axial::unit(direction)) == 1,
{
}

/// The sum that the distance halves is even, and the distance is the
/// largest of the three magnitudes in it.
pub proof fn lemma_distance_is_largest(p: Axial, q: Axial)
    ensures
        ({
            let d = p.minus(q);
            let (x, y, z) = (magnitude(d.hx), magnitude(d.hy), magnitude(d.hx + d.hy));
            &&& (x + z + y) % 2 == 0
            &&& p.distance(q) >= x
            &&& p.distance(q) >= y
            &&& p.distance(q) >= z
            &&& p.distance(q) == x || p.distance(q) == y || p.distance(q) == z
        }),
{
}

/// The distance is a metric that moving both points by the same
/// displacement does not change: it is never negative, it is zero between a
/// point and itself only, and no detour is shorter than the direct way.
pub proof fn lemma_distance_metric(p: Axial, q: Axial, r: Axial)
    ensures
        p.distance(q) >= 0,
        p.distance(q) == 0 <==> p == q,
        p.distance(r) <= p.distance(q) + q.distance(r),
        p.plus(r).distance(q.plus(r)) == p.distance(q),
{
    lemma_distance_is_largest(p, q);
    lemma_distance_is_largest(q, r);
    lemma_distance_is_largest(p, r);
}

} // verus!
