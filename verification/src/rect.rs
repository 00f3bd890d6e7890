//! Axis-aligned rectangle geometry: the overlap test and the
//! overlap/remainder split operation.

use vstd::prelude::*;

verus! {

/// A rectangle in left-top-right-bottom form.
///
/// No ordering of `left`/`right` or `top`/`bottom` is enforced by the
/// primitive itself; `width` and `height` are defensive against reversed
/// bounds. As a set of points a rectangle is half-open: it contains the
/// points `(x, y)` with `left <= x < right` and `top <= y < bottom`.
#[derive(Debug, Copy, Clone, PartialEq, Eq, Structural, Hash, Default)]
pub struct Rectangle {
    /// The left coordinate.
    pub left: i32,

    /// The top coordinate.
    pub top: i32,

    /// The right coordinate.
    pub right: i32,

    /// The bottom coordinate.
    pub bottom: i32,
}

/// The larger of two coordinates.
pub open spec fn coord_max(a: i32, b: i32) -> i32 {
    if a >= b {
        a
    } else {
        b
    }
}

/// The smaller of two coordinates.
pub open spec fn coord_min(a: i32, b: i32) -> i32 {
    if a <= b {
        a
    } else {
        b
    }
}

/// Two rectangles overlap iff they share positive area: strict
/// inequalities on all four sides, so rectangles that merely touch along
/// an edge or corner do not overlap.
pub open spec fn spec_overlaps(a: Rectangle, b: Rectangle) -> bool {
    a.left < b.right && a.right > b.left && a.top < b.bottom && a.bottom > b.top
}

/// The point `(x, y)` lies in `r` (half-open on the right and bottom).
pub open spec fn contains_point(r: Rectangle, x: int, y: int) -> bool {
    r.left <= x < r.right && r.top <= y < r.bottom
}

/// The point `(x, y)` lies in some rectangle of `ps`.
pub open spec fn in_pieces(ps: Seq<Rectangle>, x: int, y: int) -> bool {
    exists|i: int| 0 <= i < ps.len() && contains_point(ps[i], x, y)
}

/// The rectangular region common to `a` and `b` (meaningful when they
/// overlap).
pub open spec fn spec_overlap_rect(a: Rectangle, b: Rectangle) -> Rectangle {
    Rectangle {
        left: coord_max(a.left, b.left),
        top: coord_max(a.top, b.top),
        right: coord_min(a.right, b.right),
        bottom: coord_min(a.bottom, b.bottom),
    }
}

/// The slice of `a` above `b`, peeled off by the first clipping step.
pub open spec fn top_piece(a: Rectangle, b: Rectangle) -> Rectangle {
    Rectangle { left: a.left, top: a.top, right: a.right, bottom: coord_max(a.top, b.top) }
}

/// The slice of `a` below `b`, peeled off by the second clipping step.
pub open spec fn bottom_piece(a: Rectangle, b: Rectangle) -> Rectangle {
    Rectangle { left: a.left, top: coord_min(a.bottom, b.bottom), right: a.right, bottom: a.bottom }
}

/// The slice of `a` to the left of `b`, peeled off by the third clipping
/// step (already clipped vertically).
pub open spec fn left_piece(a: Rectangle, b: Rectangle) -> Rectangle {
    Rectangle {
        left: a.left,
        top: coord_max(a.top, b.top),
        right: coord_max(a.left, b.left),
        bottom: coord_min(a.bottom, b.bottom),
    }
}

/// The slice of `a` to the right of `b`, peeled off by the fourth clipping
/// step (already clipped vertically).
pub open spec fn right_piece(a: Rectangle, b: Rectangle) -> Rectangle {
    Rectangle {
        left: coord_min(a.right, b.right),
        top: coord_max(a.top, b.top),
        right: a.right,
        bottom: coord_min(a.bottom, b.bottom),
    }
}

/// Whether each clipping step peels a slice off: a step contributes a
/// remainder exactly when part of `a` lies outside `b` on that edge.
pub open spec fn has_top_piece(a: Rectangle, b: Rectangle) -> bool {
    coord_max(a.top, b.top) != a.top
}

pub open spec fn has_bottom_piece(a: Rectangle, b: Rectangle) -> bool {
    coord_min(a.bottom, b.bottom) != a.bottom
}

pub open spec fn has_left_piece(a: Rectangle, b: Rectangle) -> bool {
    coord_max(a.left, b.left) != a.left
}

pub open spec fn has_right_piece(a: Rectangle, b: Rectangle) -> bool {
    coord_min(a.right, b.right) != a.right
}

/// The remainder rectangles of splitting `a` against `b`, in clipping
/// order: top, bottom, left, right, each present only when the
/// corresponding slice of `a` lies outside `b`.
pub open spec fn spec_remainders(a: Rectangle, b: Rectangle) -> Seq<Rectangle> {
    let st = if has_top_piece(a, b) {
        seq![top_piece(a, b)]
    } else {
        Seq::<Rectangle>::empty()
    };
    let sb = if has_bottom_piece(a, b) {
        seq![bottom_piece(a, b)]
    } else {
        Seq::<Rectangle>::empty()
    };
    let sl = if has_left_piece(a, b) {
        seq![left_piece(a, b)]
    } else {
        Seq::<Rectangle>::empty()
    };
    let sr = if has_right_piece(a, b) {
        seq![right_piece(a, b)]
    } else {
        Seq::<Rectangle>::empty()
    };
    st + sb + sl + sr
}

/// The width of `r` as a mathematical integer: the absolute difference of
/// the horizontal coordinates.
pub open spec fn spec_width(r: Rectangle) -> int {
    if r.right >= r.left {
        r.right - r.left
    } else {
        r.left - r.right
    }
}

/// The height of `r` as a mathematical integer: the absolute difference of
/// the vertical coordinates.
pub open spec fn spec_height(r: Rectangle) -> int {
    if r.bottom >= r.top {
        r.bottom - r.top
    } else {
        r.top - r.bottom
    }
}

impl Rectangle {
    /// Creates a new rectangle.
    pub fn new(left: i32, top: i32, right: i32, bottom: i32) -> (r: Self)
        ensures
            r == (Rectangle { left, top, right, bottom }),
    {
        Self { left, top, right, bottom }
    }

    /// Returns the width of the rectangle.
    pub fn width(&self) -> (w: i32)
        requires
            spec_width(*self) <= i32::MAX,
        ensures
            w == spec_width(*self),
    {
        if self.right >= self.left {
            self.right - self.left
        } else {
            self.left - self.right
        }
    }

    /// Returns the height of the rectangle.
    pub fn height(&self) -> (h: i32)
        requires
            spec_height(*self) <= i32::MAX,
        ensures
            h == spec_height(*self),
    {
        if self.bottom >= self.top {
            self.bottom - self.top
        } else {
            self.top - self.bottom
        }
    }

    /// Returns the area of the rectangle.
    pub fn area(&self) -> (a: i32)
        requires
            spec_width(*self) <= i32::MAX,
            spec_height(*self) <= i32::MAX,
            spec_width(*self) * spec_height(*self) <= i32::MAX,
        ensures
            a == spec_width(*self) * spec_height(*self),
    {
        let w = self.width();
        let h = self.height();
        proof {
            assert(0 <= spec_width(*self) * spec_height(*self)) by (nonlinear_arith)
                requires
                    spec_width(*self) >= 0,
                    spec_height(*self) >= 0,
            ;
        }
        w * h
    }

    /// Tell if two rectangles intersect (share positive area).
    pub fn intersects(&self, other: Self) -> (r: bool)
        ensures
            r == spec_overlaps(*self, other),
    {
        self.left < other.right && self.right > other.left && self.top < other.bottom
            && self.bottom > other.top
    }

    /// Intersect this rectangle with another.
    ///
    /// Returns the overlap region and the remainder of the `self`
    /// rectangle, or nothing exactly when the rectangles do not overlap.
    /// The clipping runs in a fixed order (top, bottom, left, right); at
    /// each step, the part of `self` outside `other` on that edge is
    /// peeled off as one remainder rectangle and `self` shrinks to the
    /// clipped span, so that at most four remainders arise and the final
    /// shrunken rectangle is the true overlap region.
    pub fn intersection(self, other: Self) -> (r: Option<(Self, Vec<Self>)>)
        ensures
            r is Some <==> spec_overlaps(self, other),
            r matches Some(p) ==> p.0 == spec_overlap_rect(self, other) && p.1@
                == spec_remainders(self, other),
    {
        if !self.intersects(other) {
            return None;
        }

        let mut cur = self;
        let mut remainder: Vec<Rectangle> = Vec::new();

        // Clip against the top edge of `other`.
        let new_top = if cur.top >= other.top {
            cur.top
        } else {
            other.top
        };
        if new_top != cur.top {
            remainder.push(Rectangle { bottom: new_top, ..cur });
        }
        cur.top = new_top;

        // Clip against the bottom edge of `other`.
        let new_bottom = if cur.bottom <= other.bottom {
            cur.bottom
        } else {
            other.bottom
        };
        if new_bottom != cur.bottom {
            remainder.push(Rectangle { top: new_bottom, ..cur });
        }
        cur.bottom = new_bottom;

        // Clip against the left edge of `other`.
        let new_left = if cur.left >= other.left {
            cur.left
        } else {
            other.left
        };
        if new_left != cur.left {
            remainder.push(Rectangle { right: new_left, ..cur });
        }
        cur.left = new_left;

        // Clip against the right edge of `other`.
        let new_right = if cur.right <= other.right {
            cur.right
        } else {
            other.right
        };
        if new_right != cur.right {
            remainder.push(Rectangle { left: new_right, ..cur });
        }
        cur.right = new_right;

        proof {
            assert(cur == spec_overlap_rect(self, other));
            assert(remainder@ =~= spec_remainders(self, other));
        }

        Some((cur, remainder))
    }
}

/// The overlap test is symmetric.
pub proof fn lemma_overlaps_symmetric(a: Rectangle, b: Rectangle)
    ensures
        spec_overlaps(a, b) == spec_overlaps(b, a),
{
}

/// Rectangles that merely touch along an edge do not overlap.
pub proof fn lemma_edge_touching_not_overlapping(a: Rectangle, b: Rectangle)
    ensures
        a.right == b.left ==> !spec_overlaps(a, b),
        a.left == b.right ==> !spec_overlaps(a, b),
        a.bottom == b.top ==> !spec_overlaps(a, b),
        a.top == b.bottom ==> !spec_overlaps(a, b),
{
}

proof fn lemma_in_pieces_opt(present: bool, p: Rectangle, x: int, y: int)
    ensures
        in_pieces(
            if present {
                seq![p]
            } else {
                Seq::<Rectangle>::empty()
            },
            x,
            y,
        ) <==> (present && contains_point(p, x, y)),
{
    if present {
        if contains_point(p, x, y) {
            assert(seq![p][0] == p);
        }
        if in_pieces(seq![p], x, y) {
            let i = choose|i: int| 0 <= i < seq![p].len() && contains_point(seq![p][i], x, y);
            assert(seq![p][i] == p);
        }
    } else {
        assert(!in_pieces(Seq::<Rectangle>::empty(), x, y));
    }
}

proof fn lemma_in_pieces_add(s1: Seq<Rectangle>, s2: Seq<Rectangle>, x: int, y: int)
    ensures
        in_pieces(s1 + s2, x, y) <==> (in_pieces(s1, x, y) || in_pieces(s2, x, y)),
{
    if in_pieces(s1 + s2, x, y) {
        let i = choose|i: int| 0 <= i < (s1 + s2).len() && contains_point((s1 + s2)[i], x, y);
        if i < s1.len() {
            assert((s1 + s2)[i] == s1[i]);
        } else {
            assert((s1 + s2)[i] == s2[i - s1.len()]);
        }
    }
    if in_pieces(s1, x, y) {
        let i = choose|i: int| 0 <= i < s1.len() && contains_point(s1[i], x, y);
        assert((s1 + s2)[i] == s1[i]);
    }
    if in_pieces(s2, x, y) {
        let i = choose|i: int| 0 <= i < s2.len() && contains_point(s2[i], x, y);
        assert((s1 + s2)[i + s1.len()] == s2[i]);
    }
}

/// The point of view of a single split, per point: `(x, y)` lies in one of
/// the remainder pieces iff it lies in one of the four (present) slices.
proof fn lemma_in_remainders(a: Rectangle, b: Rectangle, x: int, y: int)
    ensures
        in_pieces(spec_remainders(a, b), x, y) <==> ((has_top_piece(a, b) && contains_point(
            top_piece(a, b),
            x,
            y,
        )) || (has_bottom_piece(a, b) && contains_point(bottom_piece(a, b), x, y)) || (
        has_left_piece(a, b) && contains_point(left_piece(a, b), x, y)) || (has_right_piece(a, b)
            && contains_point(right_piece(a, b), x, y))),
{
    let st = if has_top_piece(a, b) {
        seq![top_piece(a, b)]
    } else {
        Seq::<Rectangle>::empty()
    };
    let sb = if has_bottom_piece(a, b) {
        seq![bottom_piece(a, b)]
    } else {
        Seq::<Rectangle>::empty()
    };
    let sl = if has_left_piece(a, b) {
        seq![left_piece(a, b)]
    } else {
        Seq::<Rectangle>::empty()
    };
    let sr = if has_right_piece(a, b) {
        seq![right_piece(a, b)]
    } else {
        Seq::<Rectangle>::empty()
    };
    lemma_in_pieces_add(st + sb + sl, sr, x, y);
    lemma_in_pieces_add(st + sb, sl, x, y);
    lemma_in_pieces_add(st, sb, x, y);
    lemma_in_pieces_opt(has_top_piece(a, b), top_piece(a, b), x, y);
    lemma_in_pieces_opt(has_bottom_piece(a, b), bottom_piece(a, b), x, y);
    lemma_in_pieces_opt(has_left_piece(a, b), left_piece(a, b), x, y);
    lemma_in_pieces_opt(has_right_piece(a, b), right_piece(a, b), x, y);
}

/// Every remainder piece of a split is one of the four slices, present
/// only when its clipping step peeled it off.
proof fn lemma_remainder_pieces(a: Rectangle, b: Rectangle)
    ensures
        forall|i: int|
            0 <= i < spec_remainders(a, b).len() ==> ((has_top_piece(a, b)
                && #[trigger] spec_remainders(a, b)[i] == top_piece(a, b)) || (has_bottom_piece(
                a,
                b,
            ) && spec_remainders(a, b)[i] == bottom_piece(a, b)) || (has_left_piece(a, b)
                && spec_remainders(a, b)[i] == left_piece(a, b)) || (has_right_piece(a, b)
                && spec_remainders(a, b)[i] == right_piece(a, b))),
{
}

/// The split only shrinks: a rectangle that overlaps the overlap region
/// or a remainder piece of splitting `a` against `b` also overlaps `a`
/// itself.
pub proof fn lemma_split_overlap_transfer(a: Rectangle, b: Rectangle, c: Rectangle)
    requires
        spec_overlaps(a, b),
    ensures
        spec_overlaps(spec_overlap_rect(a, b), c) ==> spec_overlaps(a, c),
        forall|i: int|
            0 <= i < spec_remainders(a, b).len() && spec_overlaps(
                #[trigger] spec_remainders(a, b)[i],
                c,
            ) ==> spec_overlaps(a, c),
{
    lemma_remainder_pieces(a, b);
}

/// Partition law. For overlapping rectangles `a` and `b`, the overlap
/// region and the remainder pieces of `split` exactly tile `a`:
/// - every point of `a` lies in the overlap region or in a remainder
///   piece, and conversely (no gaps);
/// - no point lies both in the overlap region and in a remainder piece;
/// - when `b` is in normal form (`left <= right`, `top <= bottom`), no
///   point lies in two distinct remainder pieces (no double coverage).
pub proof fn lemma_split_partition(a: Rectangle, b: Rectangle)
    requires
        spec_overlaps(a, b),
    ensures
        forall|x: int, y: int|
            contains_point(a, x, y) <==> (contains_point(spec_overlap_rect(a, b), x, y)
                || in_pieces(spec_remainders(a, b), x, y)),
        forall|x: int, y: int|
            !(contains_point(spec_overlap_rect(a, b), x, y) && in_pieces(
                spec_remainders(a, b),
                x,
                y,
            )),
        b.left <= b.right && b.top <= b.bottom ==> forall|i: int, j: int, x: int, y: int|
            0 <= i < j < spec_remainders(a, b).len() ==> !(contains_point(
                spec_remainders(a, b)[i],
                x,
                y,
            ) && contains_point(spec_remainders(a, b)[j], x, y)),
{
    let ov = spec_overlap_rect(a, b);
    let rems = spec_remainders(a, b);

    assert forall|x: int, y: int|
        contains_point(a, x, y) <==> (contains_point(ov, x, y) || in_pieces(rems, x, y)) by {
        lemma_in_remainders(a, b, x, y);
    }

    assert forall|x: int, y: int| !(contains_point(ov, x, y) && in_pieces(rems, x, y)) by {
        lemma_in_remainders(a, b, x, y);
    }

    if b.left <= b.right && b.top <= b.bottom {
        lemma_remainders_disjoint(a, b);
    }
}

/// When `b` is in normal form, the remainder pieces of splitting `a`
/// against `b` are pairwise point-disjoint: distinct indices hold slices
/// from distinct clipping steps, and each pair of steps peels disjoint
/// slices.
proof fn lemma_remainders_disjoint(a: Rectangle, b: Rectangle)
    requires
        spec_overlaps(a, b),
        b.left <= b.right,
        b.top <= b.bottom,
    ensures
        forall|i: int, j: int, x: int, y: int|
            0 <= i < j < spec_remainders(a, b).len() ==> !(contains_point(
                spec_remainders(a, b)[i],
                x,
                y,
            ) && contains_point(spec_remainders(a, b)[j], x, y)),
{
    let rems = spec_remainders(a, b);
    let nt: int = if has_top_piece(a, b) {
        1
    } else {
        0
    };
    let nb: int = nt + if has_bottom_piece(a, b) {
        1int
    } else {
        0int
    };
    let nl: int = nb + if has_left_piece(a, b) {
        1int
    } else {
        0int
    };
    assert forall|i: int| 0 <= i < rems.len() implies ((i < nt ==> rems[i] == top_piece(a, b)) && (
    nt <= i < nb ==> rems[i] == bottom_piece(a, b)) && (nb <= i < nl ==> rems[i] == left_piece(
        a,
        b,
    )) && (nl <= i ==> rems[i] == right_piece(a, b))) by {}
    assert forall|i: int, j: int, x: int, y: int|
        0 <= i < j < rems.len() implies !(contains_point(rems[i], x, y) && contains_point(
        rems[j],
        x,
        y,
    )) by {
        assert(!(contains_point(rems[i], x, y) && contains_point(rems[j], x, y)));
    }
}

} // verus!
