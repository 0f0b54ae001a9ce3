//! Axis-aligned boxes: containment, overlap, hull, growth and distance.

use crate::point::{span, Point, PointModel};
use vstd::math::{abs, max, min};
use vstd::prelude::*;

verus! {

/// A box as a mathematical value: two corners with unbounded coordinates.
/// Nothing is assumed of their order; [`SquareModel::wf`] says when they are
/// the lower and the upper corner in fact.
pub struct SquareModel {
    pub lower: PointModel,
    pub upper: PointModel,
}

impl SquareModel {
    /// The lower corner is below and left of the upper one, or on it.
    pub open spec fn wf(self) -> bool {
        self.lower.x <= self.upper.x && self.lower.y <= self.upper.y
    }

    /// Every coordinate fits a machine coordinate.
    pub open spec fn in_range(self) -> bool {
        &&& i64::MIN <= self.lower.x <= i64::MAX
        &&& i64::MIN <= self.lower.y <= i64::MAX
        &&& i64::MIN <= self.upper.x <= i64::MAX
        &&& i64::MIN <= self.upper.y <= i64::MAX
    }

    /// The box that has `p` and `q` as two opposite corners, whichever two
    /// they are.
    pub open spec fn spanning(p: PointModel, q: PointModel) -> SquareModel {
        SquareModel {
            lower: PointModel { x: min(p.x, q.x), y: min(p.y, q.y) },
            upper: PointModel { x: max(p.x, q.x), y: max(p.y, q.y) },
        }
    }

    /// The box that stands for "no overlap": both corners at the origin.
    pub open spec fn origin() -> SquareModel {
        SquareModel { lower: PointModel { x: 0, y: 0 }, upper: PointModel { x: 0, y: 0 } }
    }

    /// The distance between the left and the right side.
    pub open spec fn width(self) -> nat {
        abs(self.upper.x - self.lower.x)
    }

    /// The distance between the lower and the upper side.
    pub open spec fn height(self) -> nat {
        abs(self.upper.y - self.lower.y)
    }

    /// Width times height.
    pub open spec fn area(self) -> nat {
        self.width() * self.height()
    }

    /// All four sides moved outward by `d` (inward by `-d` where `d < 0`).
    pub open spec fn dilate(self, d: int) -> SquareModel {
        SquareModel {
            lower: PointModel { x: self.lower.x - d, y: self.lower.y - d },
            upper: PointModel { x: self.upper.x + d, y: self.upper.y + d },
        }
    }

    /// All four sides moved inward by `d` (outward by `-d` where `d < 0`).
    pub open spec fn erosion(self, d: int) -> SquareModel {
        SquareModel {
            lower: PointModel { x: self.lower.x + d, y: self.lower.y + d },
            upper: PointModel { x: self.upper.x - d, y: self.upper.y - d },
        }
    }

    /// `p` lies in the box or on its boundary.
    pub open spec fn has_point(self, p: PointModel) -> bool {
        self.lower.x <= p.x <= self.upper.x && self.lower.y <= p.y <= self.upper.y
    }

    /// One of the four corners of `other` lies in this box or on its
    /// boundary. Two boxes can cross without either holding a corner of the
    /// other; this is false of such a pair.
    pub open spec fn has_square(self, other: SquareModel) -> bool {
        ||| self.has_point(other.lower)
        ||| self.has_point(other.upper)
        ||| self.has_point(PointModel { x: other.lower.x, y: other.upper.y })
        ||| self.has_point(PointModel { x: other.upper.x, y: other.lower.y })
    }

    /// The region common to both boxes, or [`SquareModel::origin`] where
    /// they have none.
    pub open spec fn intersection(self, other: SquareModel) -> SquareModel {
        let lower = PointModel {
            x: max(self.lower.x, other.lower.x),
            y: max(self.lower.y, other.lower.y),
        };
        let upper = PointModel {
            x: min(self.upper.x, other.upper.x),
            y: min(self.upper.y, other.upper.y),
        };
        if lower.x > upper.x || lower.y > upper.y {
            SquareModel::origin()
        } else {
            SquareModel { lower, upper }
        }
    }

    /// The smallest box that holds both.
    pub open spec fn union(self, other: SquareModel) -> SquareModel {
        SquareModel {
            lower: PointModel {
                x: min(self.lower.x, other.lower.x),
                y: min(self.lower.y, other.lower.y),
            },
            upper: PointModel {
                x: max(self.upper.x, other.upper.x),
                y: max(self.upper.y, other.upper.y),
            },
        }
    }

    /// The two points between which [`SquareModel::manhattan_distance`] is
    /// measured, or `None` where either box holds a corner of the other.
    ///
    /// This box is the upper one of the pair when its lower edge is not
    /// below the upper edge of `other`; else it is the lower one. Where the
    /// lower box ends left of the upper one, or on its left edge, the points
    /// are the lower box's own two corners. Else they are the upper left
    /// corner of the lower box and the lower right corner of the upper box.
    pub open spec fn distance_points(self, other: SquareModel) -> Option<
        (PointModel, PointModel),
    > {
        if self.has_square(other) || other.has_square(self) {
            None
        } else {
            let bottom = if self.lower.y >= other.upper.y {
                other
            } else {
                self
            };
            let top = if self.lower.y >= other.upper.y {
                self
            } else {
                other
            };
            if bottom.upper.x <= top.lower.x {
                Some((bottom.upper, bottom.lower))
            } else {
                Some(
                    (
                        PointModel { x: bottom.lower.x, y: bottom.upper.y },
                        PointModel { x: top.upper.x, y: top.lower.y },
                    ),
                )
            }
        }
    }

    /// Zero where either box holds a corner of the other, else the
    /// Manhattan distance between the two points of
    /// [`SquareModel::distance_points`].
    pub open spec fn manhattan_distance(self, other: SquareModel) -> nat {
        match self.distance_points(other) {
            None => 0,
            Some((p, q)) => p.manhattan_distance_point(q),
        }
    }
}

/// An axis-aligned box on the grid, kept as its lower and its upper corner.
/// The corners of every value are in order: see [`Square::inv`].
#[derive(Clone, Copy, Debug, PartialEq, Eq, Structural)]
pub struct Square {
    lower: Point,
    upper: Point,
}

impl View for Square {
    type V = SquareModel;

    closed spec fn view(&self) -> SquareModel {
        SquareModel { lower: self.lower@, upper: self.upper@ }
    }
}

impl Square {
    /// What holds of every box: its corners are in order, and fit the
    /// machine.
    #[verifier::type_invariant]
    pub open spec fn inv(&self) -> bool {
        self@.wf() && self@.in_range()
    }

    /// Two boxes with the same corners are the same box.
    pub proof fn lemma_view_determines(self, other: Square)
        requires
            self@ == other@,
        ensures
            self == other,
    {
    }

    /// The box with `p` and `q` as opposite corners. The two may come in
    /// either order, and be any two opposite corners.
    pub fn new(p: Point, q: Point) -> (r: Square)
        ensures
            r@ == SquareModel::spanning(p@, q@),
            r.inv(),
    {
        let lower = Point {
            x: if p.x <= q.x { p.x } else { q.x },
            y: if p.y <= q.y { p.y } else { q.y },
        };
        let upper = Point {
            x: if p.x >= q.x { p.x } else { q.x },
            y: if p.y >= q.y { p.y } else { q.y },
        };
        Square { lower, upper }
    }

    /// The corner with the least coordinates.
    pub fn lower(&self) -> (p: Point)
        ensures
            p@ == self@.lower,
    {
        self.lower
    }

    /// The corner with the greatest coordinates.
    pub fn upper(&self) -> (p: Point)
        ensures
            p@ == self@.upper,
    {
        self.upper
    }

    /// The distance between the left and the right side. It is unsigned and
    /// as wide as a coordinate, so that every box has one.
    pub fn width(&self) -> (w: u64)
        ensures
            w == self@.width(),
            w == self@.upper.x - self@.lower.x,
    {
        proof {
            use_type_invariant(self);
        }
        span(self.upper.x, self.lower.x)
    }

    /// The distance between the lower and the upper side.
    pub fn height(&self) -> (h: u64)
        ensures
            h == self@.height(),
            h == self@.upper.y - self@.lower.y,
    {
        proof {
            use_type_invariant(self);
        }
        span(self.upper.y, self.lower.y)
    }

    /// Width times height; zero exactly for a box that is a line or a point.
    pub fn area(&self) -> (a: u128)
        ensures
            a == self@.area(),
            a == 0 <==> self@.width() == 0 || self@.height() == 0,
    {
        let w: u128 = self.width() as u128;
        let h: u128 = self.height() as u128;
        assert(w * h <= 0xffff_ffff_ffff_ffff * 0xffff_ffff_ffff_ffff) by (nonlinear_arith)
            requires
                w <= 0xffff_ffff_ffff_ffff,
                h <= 0xffff_ffff_ffff_ffff,
        ;
        assert(w * h == 0 <==> w == 0 || h == 0) by (nonlinear_arith);
        w * h
    }

    /// Moves all four sides outward by `d`; a negative `d` moves them
    /// inward. The sides may not pass each other, nor leave the grid.
    pub fn dilate(&mut self, d: i64)
        requires
            old(self)@.dilate(d as int).wf(),
            old(self)@.dilate(d as int).in_range(),
        ensures
            final(self)@ == old(self)@.dilate(d as int),
            final(self).inv(),
    {
        let lower = Point { x: self.lower.x - d, y: self.lower.y - d };
        let upper = Point { x: self.upper.x + d, y: self.upper.y + d };
        *self = Square { lower, upper };
    }

    /// Moves all four sides inward by `d`; a negative `d` moves them
    /// outward. The sides may not pass each other, nor leave the grid.
    pub fn erosion(&mut self, d: i64)
        requires
            old(self)@.erosion(d as int).wf(),
            old(self)@.erosion(d as int).in_range(),
        ensures
            final(self)@ == old(self)@.erosion(d as int),
            final(self).inv(),
    {
        let lower = Point { x: self.lower.x + d, y: self.lower.y + d };
        let upper = Point { x: self.upper.x - d, y: self.upper.y - d };
        *self = Square { lower, upper };
    }

    /// Whether `p` lies in the box or on its boundary.
    pub fn has_point(&self, p: &Point) -> (b: bool)
        ensures
            b == self@.has_point(p@),
    {
        self.lower.x <= p.x && p.x <= self.upper.x && self.lower.y <= p.y && p.y <= self.upper.y
    }

    /// Whether one of the four corners of `other` lies in this box or on its
    /// boundary. This is less than overlap: of a tall narrow box that
    /// crosses a wide flat one, neither holds a corner of the other.
    pub fn has_square(&self, other: &Square) -> (b: bool)
        ensures
            b == self@.has_square(other@),
    {
        self.has_point(&other.lower) || self.has_point(&other.upper) || self.has_point(
            &Point { x: other.lower.x, y: other.upper.y },
        ) || self.has_point(&Point { x: other.upper.x, y: other.lower.y })
    }

    /// The region common to both boxes. Where there is none, the result is
    /// the box with both corners at the origin, which is also what two boxes
    /// that meet only at the origin give.
    pub fn intersection(&self, other: &Square) -> (r: Square)
        ensures
            r@ == self@.intersection(other@),
            r.inv(),
    {
        proof {
            use_type_invariant(self);
            use_type_invariant(other);
        }
        let lower = Point {
            x: if self.lower.x >= other.lower.x { self.lower.x } else { other.lower.x },
            y: if self.lower.y >= other.lower.y { self.lower.y } else { other.lower.y },
        };
        let upper = Point {
            x: if self.upper.x <= other.upper.x { self.upper.x } else { other.upper.x },
            y: if self.upper.y <= other.upper.y { self.upper.y } else { other.upper.y },
        };
        if lower.x > upper.x || lower.y > upper.y {
            Square { lower: Point { x: 0, y: 0 }, upper: Point { x: 0, y: 0 } }
        } else {
            Square { lower, upper }
        }
    }

    /// The smallest box that holds both.
    pub fn union(&self, other: &Square) -> (r: Square)
        ensures
            r@ == self@.union(other@),
            r.inv(),
    {
        proof {
            use_type_invariant(self);
            use_type_invariant(other);
        }
        let lower = Point {
            x: if self.lower.x <= other.lower.x { self.lower.x } else { other.lower.x },
            y: if self.lower.y <= other.lower.y { self.lower.y } else { other.lower.y },
        };
        let upper = Point {
            x: if self.upper.x >= other.upper.x { self.upper.x } else { other.upper.x },
            y: if self.upper.y >= other.upper.y { self.upper.y } else { other.upper.y },
        };
        Square { lower, upper }
    }

    /// The two points between which the distance to `other` is measured, or
    /// `None` where either box holds a corner of the other.
    pub fn distance_points(&self, other: &Square) -> (r: Option<(Point, Point)>)
        ensures
            match self@.distance_points(other@) {
                None => r is None,
                Some((p, q)) => r matches Some((rp, rq)) && rp@ == p && rq@ == q,
            },
    {
        if self.has_square(other) || other.has_square(self) {
            return None;
        }
        let self_on_top = self.lower.y >= other.upper.y;
        let bottom = if self_on_top { other } else { self };
        let top = if self_on_top { self } else { other };
        if bottom.upper.x <= top.lower.x {
            Some((bottom.upper, bottom.lower))
        } else {
            Some(
                (
                    Point { x: bottom.lower.x, y: bottom.upper.y },
                    Point { x: top.upper.x, y: top.lower.y },
                ),
            )
        }
    }

    /// The distance to `other`: zero where either box holds a corner of the
    /// other, else the Manhattan distance between the two points that
    /// [`Square::distance_points`] picks.
    pub fn manhattan_distance(&self, other: &Square) -> (d: u128)
        ensures
            d == self@.manhattan_distance(other@),
    {
        match self.distance_points(other) {
            None => 0,
            Some((p, q)) => p.manhattan_distance_point(&q),
        }
    }
}

/// A way to renumber coordinates that keeps their order.
pub open spec fn keeps_order(f: spec_fn(int) -> int) -> bool {
    forall|a: int, b: int| a <= b <==> #[trigger] f(a) <= #[trigger] f(b)
}

impl PointModel {
    /// The point with both coordinates renumbered by `f`.
    pub open spec fn renumbered(self, f: spec_fn(int) -> int) -> PointModel {
        PointModel { x: f(self.x), y: f(self.y) }
    }
}

impl SquareModel {
    /// The box with the coordinates of both corners renumbered by `f`.
    pub open spec fn renumbered(self, f: spec_fn(int) -> int) -> SquareModel {
        SquareModel { lower: self.lower.renumbered(f), upper: self.upper.renumbered(f) }
    }
}

/// What is in what, what two boxes have in common and what holds them both
/// depend on the order of the coordinates only: renumbering the coordinates
/// in a way that keeps their order renumbers the answers and changes
/// nothing else. (The common region of boxes that have none is the box at
/// the origin, so for it the origin has to stay where it is.)
pub proof fn lemma_order_decides(
    a: SquareModel,
    b: SquareModel,
    p: PointModel,
    q: PointModel,
    f: spec_fn(int) -> int,
)
    requires
        keeps_order(f),
    ensures
        SquareModel::spanning(p.renumbered(f), q.renumbered(f)) == SquareModel::spanning(
            p,
            q,
        ).renumbered(f),
        a.renumbered(f).wf() == a.wf(),
        a.renumbered(f).has_point(p.renumbered(f)) == a.has_point(p),
        a.renumbered(f).has_square(b.renumbered(f)) == a.has_square(b),
        a.renumbered(f).union(b.renumbered(f)) == a.union(b).renumbered(f),
        f(0) == 0 ==> a.renumbered(f).intersection(b.renumbered(f)) == a.intersection(
            b,
        ).renumbered(f),
        match a.distance_points(b) {
            None => a.renumbered(f).distance_points(b.renumbered(f)) is None,
            Some((from, to)) => a.renumbered(f).distance_points(b.renumbered(f)) == Some(
                (from.renumbered(f), to.renumbered(f)),
            ),
        },
{
    assert(a.renumbered(f).has_point(p.renumbered(f)) == a.has_point(p));
    assert(a.renumbered(f).has_square(b.renumbered(f)) == a.has_square(b));
    assert(b.renumbered(f).has_square(a.renumbered(f)) == b.has_square(a));
}

/// The box through two points is the same whichever of them is named
/// first, and its corners are in order.
pub proof fn lemma_new_ignores_order(p: PointModel, q: PointModel)
    ensures
        SquareModel::spanning(p, q) == SquareModel::spanning(q, p),
        SquareModel::spanning(p, q).wf(),
{
}

/// The common region of two boxes is the same from either side, and its
/// corners are in order.
pub proof fn lemma_intersection_commutes(a: SquareModel, b: SquareModel)
    ensures
        a.intersection(b) == b.intersection(a),
        a.intersection(b).wf(),
{
}

/// The hull of two boxes is the same from either side.
pub proof fn lemma_union_commutes(a: SquareModel, b: SquareModel)
    ensures
        a.union(b) == b.union(a),
{
}

/// The hull of two boxes holds a corner of each of them.
pub proof fn lemma_union_absorbs(a: SquareModel, b: SquareModel)
    requires
        a.wf(),
        b.wf(),
    ensures
        a.union(b).has_square(a),
        a.union(b).has_square(b),
        a.union(b).wf(),
{
}

/// The hull of two boxes is a line or a point only where both of them are.
pub proof fn lemma_union_degenerate(a: SquareModel, b: SquareModel)
    requires
        a.wf(),
        b.wf(),
        a.union(b).area() == 0,
    ensures
        a.area() == 0,
        b.area() == 0,
{
    let hull = a.union(b);
    assert(hull.width() == 0 || hull.height() == 0) by (nonlinear_arith)
        requires
            hull.width() * hull.height() == 0,
    ;
    if hull.width() == 0 {
        assert(a.width() == 0 && b.width() == 0);
        assert(a.width() * a.height() == 0 && b.width() * b.height() == 0) by (nonlinear_arith)
            requires
                a.width() == 0,
                b.width() == 0,
        ;
    } else {
        assert(a.height() == 0 && b.height() == 0);
        assert(a.width() * a.height() == 0 && b.width() * b.height() == 0) by (nonlinear_arith)
            requires
                a.height() == 0,
                b.height() == 0,
        ;
    }
}

/// Moving the sides in by `d` undoes moving them out by `d`, and the other
/// way round, whatever `d` is.
pub proof fn lemma_erosion_undoes_dilate(s: SquareModel, d: int)
    ensures
        s.dilate(d).erosion(d) == s,
        s.erosion(d).dilate(d) == s,
{
}

/// Moving the sides by `d` leaves the corners in order exactly when it
/// takes from neither the width nor the height more than there is: when
/// `-d` is at most half of the smaller of the two.
pub proof fn lemma_dilate_keeps_order(s: SquareModel, d: int)
    requires
        s.wf(),
    ensures
        s.dilate(d).wf() <==> s.width() + 2 * d >= 0 && s.height() + 2 * d >= 0,
        s.erosion(d).wf() <==> s.width() - 2 * d >= 0 && s.height() - 2 * d >= 0,
{
}

} // verus!
