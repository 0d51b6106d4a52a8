//! Axis-aligned integer rectangle primitive.
use vstd::prelude::*;
use vstd::multiset::Multiset;

verus! {

/// A point on the integer grid.
#[derive(Copy, Clone, Debug, PartialEq, Eq, Structural)]
pub struct Point {
    pub x: i32,
    pub y: i32,
}

/// Error signalled when a rectangle constructor is handed corners with
/// `min > max` on some axis.
#[derive(Copy, Clone, Debug, PartialEq, Eq, Structural)]
pub struct InvalidRect;

/// A two-dimensional rectangle, given by its minimum and maximum corners.
///
/// The intended invariant `min.x <= max.x && min.y <= max.y` is enforced by
/// [`Rect::new`] but not by the type itself: every operation below is
/// specified and verified for arbitrary corner values.
#[derive(Copy, Clone, Debug, PartialEq, Eq, Structural)]
pub struct Rect {
    pub min: Point,
    pub max: Point,
}

impl Rect {
    /// Open-interval overlap: rectangles that merely touch along an edge or
    /// corner do not overlap.
    pub open spec fn spec_overlaps(self, rhs: Rect) -> bool {
        &&& self.min.x < rhs.max.x
        &&& self.max.x > rhs.min.x
        &&& self.min.y < rhs.max.y
        &&& self.max.y > rhs.min.y
    }

    /// The scalar coordinate a discriminator tree compares at depth `dim`:
    /// `0` is `min.x`, `1` is `min.y`, `2` is `max.x`, `3` is `max.y`.
    pub open spec fn dim_coord(self, dim: int) -> int {
        if dim == 0 {
            self.min.x as int
        } else if dim == 1 {
            self.min.y as int
        } else if dim == 2 {
            self.max.x as int
        } else {
            self.max.y as int
        }
    }

    /// Lexicographic order over `(min.x, min.y, max.x, max.y)`; equal
    /// rectangles compare as not-less.
    pub open spec fn spec_lex_less(self, rhs: Rect) -> bool {
        if self.min.x != rhs.min.x {
            self.min.x < rhs.min.x
        } else if self.min.y != rhs.min.y {
            self.min.y < rhs.min.y
        } else if self.max.x != rhs.max.x {
            self.max.x < rhs.max.x
        } else {
            self.max.y < rhs.max.y
        }
    }

    /// Order on one discriminating coordinate, falling back to the full
    /// lexicographic order on ties. Used solely to decide tree branching.
    pub open spec fn spec_dim_less(self, rhs: Rect, dim: int) -> bool {
        if self.dim_coord(dim) < rhs.dim_coord(dim) {
            true
        } else if self.dim_coord(dim) > rhs.dim_coord(dim) {
            false
        } else {
            self.spec_lex_less(rhs)
        }
    }

    /// Builds a rectangle from its two corners, rejecting degenerate input
    /// where a minimum coordinate exceeds the matching maximum.
    pub fn new(min: Point, max: Point) -> (r: Result<Rect, InvalidRect>)
        ensures
            min.x <= max.x && min.y <= max.y ==> r == Ok::<Rect, InvalidRect>(Rect { min, max }),
            !(min.x <= max.x && min.y <= max.y) ==> r == Err::<Rect, InvalidRect>(InvalidRect),
    {
        if min.x <= max.x && min.y <= max.y {
            Ok(Rect { min, max })
        } else {
            Err(InvalidRect)
        }
    }

    /// Determines if the two rectangles are overlapping.
    pub fn overlaps(&self, rhs: &Self) -> (r: bool)
        ensures
            r == self.spec_overlaps(*rhs),
    {
        self.min.x < rhs.max.x
            && self.max.x > rhs.min.x
            && self.min.y < rhs.max.y
            && self.max.y > rhs.min.y
    }

    /// Lexicographic comparison of the corner coordinates, used as the tie
    /// break of [`Rect::is_dim_less`].
    fn is_lex_less(&self, rhs: &Self) -> (r: bool)
        ensures
            r == self.spec_lex_less(*rhs),
    {
        if self.min.x != rhs.min.x {
            self.min.x < rhs.min.x
        } else if self.min.y != rhs.min.y {
            self.min.y < rhs.min.y
        } else if self.max.x != rhs.max.x {
            self.max.x < rhs.max.x
        } else {
            self.max.y < rhs.max.y
        }
    }

    /// Determines if `self` is of a lesser dimensional value than `rhs`,
    /// resorting to the lexicographic order when the coordinates are equal.
    pub(crate) fn is_dim_less(&self, rhs: &Self, dim: usize) -> (r: bool)
        requires
            dim < 4,
        ensures
            r == self.spec_dim_less(*rhs, dim as int),
    {
        let (lhs_dim, rhs_dim) = if dim == 0 {
            (self.min.x, rhs.min.x)
        } else if dim == 1 {
            (self.min.y, rhs.min.y)
        } else if dim == 2 {
            (self.max.x, rhs.max.x)
        } else {
            (self.max.y, rhs.max.y)
        };
        if lhs_dim < rhs_dim {
            true
        } else if lhs_dim > rhs_dim {
            false
        } else {
            self.is_lex_less(rhs)
        }
    }
}

/// Overlap is symmetric: `a` overlaps `b` exactly when `b` overlaps `a`.
pub proof fn lemma_overlaps_symmetric(a: Rect, b: Rect)
    ensures
        a.spec_overlaps(b) == b.spec_overlaps(a),
{
}

/// A rectangle not strictly less at `dim` has a coordinate there no smaller
/// than the other's; one strictly less has a coordinate no larger. These two
/// facts justify subtree pruning in the discriminator tree.
pub proof fn lemma_dim_less_coord(a: Rect, b: Rect, dim: int)
    ensures
        !a.spec_dim_less(b, dim) ==> a.dim_coord(dim) >= b.dim_coord(dim),
        a.spec_dim_less(b, dim) ==> a.dim_coord(dim) <= b.dim_coord(dim),
{
}

/// No two distinct rectangles of the collection overlap, and no rectangle
/// that overlaps itself occurs more than once.
pub open spec fn pairwise_disjoint(m: Multiset<Rect>) -> bool {
    &&& forall|a: Rect, b: Rect|
        m.contains(a) && m.contains(b) && a != b ==> !a.spec_overlaps(b)
    &&& forall|a: Rect| m.count(a) >= 2 ==> !a.spec_overlaps(a)
}

} // verus!
