//! Straight walks between two lattice points: the rounding rule, the point at
//! each step and the laws of the resulting line.

use crate::axial::Axial;
use vstd::arithmetic::div_mod::{
    lemma_div_is_ordered, lemma_fundamental_div_mod, lemma_fundamental_div_mod_converse,
    lemma_mod_pos_bound,
};
use vstd::prelude::*;

verus! {

/// The integer nearest to the fraction `numerator / denominator`, for a
/// positive denominator. A fraction halfway between two integers goes to the
/// one farther from zero.
pub open spec fn round_half_away(numerator: int, denominator: int) -> int {
    if numerator >= 0 {
        (2 * numerator + denominator) / (2 * denominator)
    } else {
        -((denominator - 2 * numerator) / (2 * denominator))
    }
}

impl Axial {
    /// The point at `step` on the straight walk from `self` to `other`: each
    /// coordinate of `self + (other - self) * step / length` on its own is
    /// rounded to the nearest integer, where `length` is the distance between
    /// the two ends. Where the ends coincide the walk stays in place.
    pub open spec fn interpolate(self, other: Axial, step: int) -> Axial {
        let length = self.distance(other);
        if length == 0 {
            self
        } else {
            Axial {
                hx: round_half_away(self.hx * length + step * (other.hx - self.hx), length),
                hy: round_half_away(self.hy * length + step * (other.hy - self.hy), length),
            }
        }
    }

    /// The points of the straight walk from `self` to `other`, both ends
    /// included.
    pub open spec fn line(self, other: Axial) -> Seq<Axial> {
        Seq::new((self.distance(other) + 1) as nat, |step: int| self.interpolate(other, step))
    }
}

/// A whole number is its own rounding: `k * d / d` rounds to `k`.
pub proof fn lemma_round_exact(k: int, d: int)
    requires
        d > 0,
    ensures
        round_half_away(k * d, d) == k,
{
    if k >= 0 {
        assert(k * d >= 0 && 2 * (k * d) + d == k * (2 * d) + d) by (nonlinear_arith)
            requires
                k >= 0,
                d > 0,
        ;
        lemma_fundamental_div_mod_converse(2 * (k * d) + d, 2 * d, k, d);
    } else {
        assert(k * d < 0 && d - 2 * (k * d) == (-k) * (2 * d) + d) by (nonlinear_arith)
            requires
                k < 0,
                d > 0,
        ;
        lemma_fundamental_div_mod_converse(d - 2 * (k * d), 2 * d, -k, d);
    }
}

/// Rounding keeps the order: a larger numerator never rounds to a smaller
/// integer.
pub proof fn lemma_round_monotone(a: int, b: int, d: int)
    requires
        d > 0,
        a <= b,
    ensures
        round_half_away(a, d) <= round_half_away(b, d),
{
    if a >= 0 {
        lemma_div_is_ordered(2 * a + d, 2 * b + d, 2 * d);
    } else if b < 0 {
        lemma_div_is_ordered(d - 2 * b, d - 2 * a, 2 * d);
    } else {
        lemma_div_is_ordered(0, d - 2 * a, 2 * d);
        lemma_div_is_ordered(0, 2 * b + d, 2 * d);
    }
}

/// The rounded value is nearest: it differs from the fraction by at most one
/// half, and where it differs by exactly one half it is the candidate farther
/// from zero.
pub proof fn lemma_round_nearest(n: int, d: int)
    requires
        d > 0,
    ensures
        ({
            let r = round_half_away(n, d);
            &&& -d <= 2 * (r * d - n) <= d
            &&& n >= 0 ==> 2 * (r * d - n) > -d
            &&& n < 0 ==> 2 * (r * d - n) < d
        }),
{
    let r = round_half_away(n, d);
    if n >= 0 {
        let x = 2 * n + d;
        lemma_fundamental_div_mod(x, 2 * d);
        lemma_mod_pos_bound(x, 2 * d);
        assert(2 * d * r == 2 * (r * d)) by (nonlinear_arith);
    } else {
        let x = d - 2 * n;
        lemma_fundamental_div_mod(x, 2 * d);
        lemma_mod_pos_bound(x, 2 * d);
        assert(2 * d * (-r) == -2 * (r * d)) by (nonlinear_arith);
    }
}

/// Every point of a walk lies, on each axis, between the two ends.
pub proof fn lemma_interpolate_between(a: Axial, b: Axial, step: int)
    requires
        0 <= step <= a.distance(b),
    ensures
        ({
            let p = a.interpolate(b, step);
            &&& a.hx <= b.hx ==> a.hx <= p.hx <= b.hx
            &&& b.hx <= a.hx ==> b.hx <= p.hx <= a.hx
            &&& a.hy <= b.hy ==> a.hy <= p.hy <= b.hy
            &&& b.hy <= a.hy ==> b.hy <= p.hy <= a.hy
        }),
{
    let length = a.distance(b);
    if length > 0 {
        lemma_round_between(a.hx, b.hx, step, length);
        lemma_round_between(a.hy, b.hy, step, length);
    }
}

/// One coordinate of a walk lies between the coordinates of the two ends.
proof fn lemma_round_between(from: int, to: int, step: int, length: int)
    requires
        0 <= step <= length,
        length > 0,
    ensures
        ({
            let r = round_half_away(from * length + step * (to - from), length);
            &&& from <= to ==> from <= r <= to
            &&& to <= from ==> to <= r <= from
        }),
{
    let n = from * length + step * (to - from);
    lemma_round_exact(from, length);
    lemma_round_exact(to, length);
    if from <= to {
        assert(from * length <= n <= to * length) by (nonlinear_arith)
            requires
                n == from * length + step * (to - from),
                0 <= step <= length,
                from <= to,
        ;
        lemma_round_monotone(from * length, n, length);
        lemma_round_monotone(n, to * length, length);
    }
    if to <= from {
        assert(to * length <= n <= from * length) by (nonlinear_arith)
            requires
                n == from * length + step * (to - from),
                0 <= step <= length,
                to <= from,
        ;
        lemma_round_monotone(to * length, n, length);
        lemma_round_monotone(n, from * length, length);
    }
}

/// A walk from a point to itself is that point alone.
pub proof fn lemma_line_to_self(p: Axial)
    ensures
        p.line(p) == seq![p],
{
    assert(p.line(p) =~= seq![p]);
}

/// A walk has one point more than the distance between its ends, starts at
/// the first end and stops at the second.
pub proof fn lemma_line_ends(p: Axial, q: Axial)
    ensures
        p.line(q).len() == p.distance(q) + 1,
        p.line(q)[0] == p,
        p.line(q).last() == q,
{
    let length = p.distance(q);
    assert(length >= 0);
    if length > 0 {
        lemma_round_exact(p.hx, length);
        lemma_round_exact(p.hy, length);
        lemma_round_exact(q.hx, length);
        lemma_round_exact(q.hy, length);
        assert(p.hx * length + length * (q.hx - p.hx) == q.hx * length) by (nonlinear_arith);
        assert(p.hy * length + length * (q.hy - p.hy) == q.hy * length) by (nonlinear_arith);
        assert(p.hx * length + 0 * (q.hx - p.hx) == p.hx * length);
        assert(p.hy * length + 0 * (q.hy - p.hy) == p.hy * length);
    } else {
        assert(p.hx == q.hx && p.hy == q.hy);
    }
}

} // verus!
