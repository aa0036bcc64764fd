use vstd::prelude::*;

verus! {

/// Whether a mathematical integer is a value of `i32`.
pub open spec fn fits_i32(x: int) -> bool {
    i32::MIN <= x <= i32::MAX
}

pub open spec fn min_int(a: int, b: int) -> int {
    if a <= b {
        a
    } else {
        b
    }
}

pub open spec fn max_int(a: int, b: int) -> int {
    if a >= b {
        a
    } else {
        b
    }
}

/// An axis-aligned box in image coordinates: `(left, top)` is its upper-left
/// corner, `width` and `height` its extent.
///
/// Edges are computed in `i32`: an extent is taken `as i32`, so an extent
/// above `i32::MAX` counts as negative there.
#[derive(Debug, Clone, Copy)]
pub struct Rect {
    pub top: i32,
    pub left: i32,
    pub width: u32,
    pub height: u32,
}

impl Default for Rect {
    fn default() -> (r: Self)
        ensures
            r.top == 0,
            r.left == 0,
            r.width == 0,
            r.height == 0,
    {
        Rect { top: 0, left: 0, width: 0, height: 0 }
    }
}

impl Rect {
    /// The lower edge, `top + height as i32`, as a mathematical integer.
    pub open spec fn bottom_spec(self) -> int {
        self.top + (self.height as i32)
    }

    /// The right edge, `left + width as i32`, as a mathematical integer.
    pub open spec fn right_spec(self) -> int {
        self.left + (self.width as i32)
    }

    /// Both edges can be computed in `i32`.
    pub open spec fn edges_fit(self) -> bool {
        fits_i32(self.bottom_spec()) && fits_i32(self.right_spec())
    }

    /// Both extents are at most `i32::MAX`, so the box is not inverted.
    pub open spec fn extents_fit(self) -> bool {
        self.width <= i32::MAX && self.height <= i32::MAX
    }

    /// `self` encloses `inner`, edges included.
    pub open spec fn encloses(self, inner: Rect) -> bool {
        &&& self.left <= inner.left
        &&& self.top <= inner.top
        &&& inner.right_spec() <= self.right_spec()
        &&& inner.bottom_spec() <= self.bottom_spec()
    }

    pub(crate) fn bottom(&self) -> (r: i32)
        requires
            fits_i32(self.bottom_spec()),
        ensures
            r == self.bottom_spec(),
    {
        self.top + self.height as i32
    }

    pub(crate) fn right(&self) -> (r: i32)
        requires
            fits_i32(self.right_spec()),
        ensures
            r == self.right_spec(),
    {
        self.left + self.width as i32
    }

    /// The two boxes intersect on both axes, touching edges included.
    pub open spec fn overlaps_spec(self, other: Rect) -> bool {
        &&& self.left <= other.right_spec()
        &&& self.right_spec() >= other.left
        &&& self.top <= other.bottom_spec()
        &&& self.bottom_spec() >= other.top
    }

    /// Whether this box overlaps `other`, boundary contact included.
    pub fn overlaps(&self, other: &Rect) -> (r: bool)
        requires
            self.edges_fit(),
            other.edges_fit(),
        ensures
            r == self.overlaps_spec(*other),
    {
        let self_right = self.left + self.width as i32;
        let self_bottom = self.top + self.height as i32;
        let other_right = other.left + other.width as i32;
        let other_bottom = other.top + other.height as i32;

        self.left <= other_right && self_right >= other.left && self.top <= other_bottom
            && self_bottom >= other.top
    }

    /// The horizontal spans of the two boxes overlap (strictly).
    pub open spec fn same_column_spec(self, b: Rect) -> bool {
        self.left < b.right_spec() && b.left < self.right_spec()
    }

    /// No `i32` overflow in `is_same_column`, which computes `b`'s right edge
    /// and, only where the first comparison holds, its own.
    pub open spec fn same_column_defined(self, b: Rect) -> bool {
        &&& fits_i32(b.right_spec())
        &&& self.left < b.right_spec() ==> fits_i32(self.right_spec())
    }

    pub(crate) fn is_same_column(&self, b: &Rect) -> (r: bool)
        requires
            self.same_column_defined(*b),
        ensures
            r == self.same_column_spec(*b),
    {
        self.left < b.right() && b.left < self.right()
    }

    /// The vertical gap measured by `is_same_section`: from the lower box's
    /// top to the upper box's bottom.
    pub open spec fn section_gap(self, b: Rect) -> int {
        if self.top > b.top {
            self.bottom_spec() - b.top
        } else {
            self.top - b.bottom_spec()
        }
    }

    pub open spec fn same_section_spec(self, b: Rect, height: i32) -> bool {
        -height <= self.section_gap(b) < height
    }

    pub open spec fn same_section_defined(self, b: Rect, height: i32) -> bool {
        &&& height != i32::MIN
        &&& if self.top > b.top {
            fits_i32(self.bottom_spec())
        } else {
            fits_i32(b.bottom_spec())
        }
        &&& fits_i32(self.section_gap(b))
    }

    pub(crate) fn is_same_section(&self, b: &Rect, height: i32) -> (r: bool)
        requires
            self.same_section_defined(*b, height),
        ensures
            r == self.same_section_spec(*b, height),
    {
        let gap = if self.top > b.top {
            self.bottom() - b.top
        } else {
            self.top - b.bottom()
        };
        -height <= gap && gap < height
    }

    /// The smallest box holding both, as `union_rect` computes it.
    pub open spec fn union_spec(self, b: Rect) -> Rect {
        let top = min_int(self.top as int, b.top as int);
        let left = min_int(self.left as int, b.left as int);
        let bottom = max_int(self.bottom_spec(), b.bottom_spec());
        let right = max_int(self.right_spec(), b.right_spec());
        Rect {
            top: top as i32,
            left: left as i32,
            width: (right - left) as u32,
            height: (bottom - top) as u32,
        }
    }

    /// No `i32` overflow in `union_rect`.
    pub open spec fn union_defined(self, b: Rect) -> bool {
        &&& self.edges_fit()
        &&& b.edges_fit()
        &&& fits_i32(
            max_int(self.right_spec(), b.right_spec()) - min_int(self.left as int, b.left as int),
        )
        &&& fits_i32(
            max_int(self.bottom_spec(), b.bottom_spec()) - min_int(self.top as int, b.top as int),
        )
    }

    pub(crate) fn union_rect(&self, b: &Rect) -> (r: Rect)
        requires
            self.union_defined(*b),
        ensures
            r == self.union_spec(*b),
    {
        let top = if self.top <= b.top {
            self.top
        } else {
            b.top
        };
        let left = if self.left <= b.left {
            self.left
        } else {
            b.left
        };
        let self_bottom = self.bottom();
        let b_bottom = b.bottom();
        let bottom = if self_bottom >= b_bottom {
            self_bottom
        } else {
            b_bottom
        };
        let self_right = self.right();
        let b_right = b.right();
        let right = if self_right >= b_right {
            self_right
        } else {
            b_right
        };
        Rect { top, left, width: (right - left) as u32, height: (bottom - top) as u32 }
    }
}

/// The point `(x, y)` lies in the box, its edges included.
pub open spec fn holds_point(r: Rect, x: int, y: int) -> bool {
    r.left <= x <= r.left + (r.width as int) && r.top <= y <= r.top + (r.height as int)
}

/// Two non-inverted boxes overlap exactly when some point lies in both, edges
/// included: a box that covers part of another's edge, not its corner, still
/// overlaps it.
pub proof fn lemma_overlaps_iff_common_point(a: Rect, b: Rect)
    requires
        a.extents_fit(),
        b.extents_fit(),
    ensures
        a.overlaps_spec(b) <==> exists|x: int, y: int| holds_point(a, x, y) && holds_point(b, x, y),
{
    if a.overlaps_spec(b) {
        let x = max_int(a.left as int, b.left as int);
        let y = max_int(a.top as int, b.top as int);
        assert(holds_point(a, x, y) && holds_point(b, x, y));
    }
}

/// The pixel column `x` lies in the box's horizontal span `left..right`.
pub open spec fn holds_column(r: Rect, x: int) -> bool {
    r.left <= x < r.left + (r.width as int)
}

/// Two boxes at least one unit wide (and not inverted) share a column exactly
/// when some pixel column lies in both horizontal spans, whatever their left
/// edges: a line indented under another still shares its column.
pub proof fn lemma_same_column_iff_common_column(a: Rect, b: Rect)
    requires
        a.extents_fit(),
        b.extents_fit(),
        a.width >= 1,
        b.width >= 1,
    ensures
        a.same_column_spec(b) <==> exists|x: int| holds_column(a, x) && holds_column(b, x),
{
    if a.same_column_spec(b) {
        let x = max_int(a.left as int, b.left as int);
        assert(holds_column(a, x) && holds_column(b, x));
    }
}

/// Overlap does not depend on the order of the two boxes.
pub proof fn lemma_overlaps_symmetric(a: Rect, b: Rect)
    ensures
        a.overlaps_spec(b) == b.overlaps_spec(a),
{
}

/// A box whose extents are not inverted overlaps itself.
pub proof fn lemma_overlaps_reflexive(a: Rect)
    requires
        a.extents_fit(),
    ensures
        a.overlaps_spec(a),
{
}

/// Sharing a column does not depend on the order of the two boxes.
pub proof fn lemma_same_column_symmetric(a: Rect, b: Rect)
    ensures
        a.same_column_spec(b) == b.same_column_spec(a),
{
}

/// The union of two boxes does not depend on their order.
pub proof fn lemma_union_commutative(a: Rect, b: Rect)
    ensures
        a.union_defined(b) == b.union_defined(a),
        a.union_spec(b) == b.union_spec(a),
{
}

/// The union of two non-inverted boxes is a non-inverted box whose edges fit,
/// which encloses both and has exactly their outermost edges.
pub proof fn lemma_union_encloses(a: Rect, b: Rect)
    requires
        a.union_defined(b),
        a.extents_fit(),
        b.extents_fit(),
    ensures
        a.union_spec(b).extents_fit(),
        a.union_spec(b).edges_fit(),
        a.union_spec(b).right_spec() == max_int(a.right_spec(), b.right_spec()),
        a.union_spec(b).bottom_spec() == max_int(a.bottom_spec(), b.bottom_spec()),
        a.union_spec(b).encloses(a),
        a.union_spec(b).encloses(b),
{
}

/// The union of a non-inverted box with itself is that box.
pub proof fn lemma_union_idempotent(a: Rect)
    requires
        a.edges_fit(),
        a.extents_fit(),
    ensures
        a.union_defined(a),
        a.union_spec(a) == a,
{
}

} // verus!
