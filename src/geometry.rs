//! Axis-aligned bounding boxes and the quadrant partition of a box.
use vstd::prelude::*;

verus! {

/// Rectangular bounding box, with its origin at the top left corner.
///
/// ```text
///   x     w
/// y +------>
///   |
/// h |
///   v
/// ```
#[derive(Debug, Copy, Clone, PartialEq, Eq, Structural)]
pub struct AABB {
    pub x: i32,
    pub y: i32,
    pub w: u32,
    pub h: u32,
}

impl AABB {
    /// Right edge, as a mathematical integer.
    pub open spec fn right(self) -> int {
        self.x + self.w
    }

    /// Bottom edge, as a mathematical integer.
    pub open spec fn bottom(self) -> int {
        self.y + self.h
    }

    /// `self` lies within `other`, edges included.
    pub open spec fn inside(self, other: AABB) -> bool {
        &&& self.x >= other.x
        &&& self.right() <= other.right()
        &&& self.y >= other.y
        &&& self.bottom() <= other.bottom()
    }

    /// Area of the box.
    pub open spec fn area(self) -> int {
        self.w * self.h
    }

    /// The interiors of the two boxes meet.
    pub open spec fn overlaps(self, other: AABB) -> bool {
        &&& self.x < other.right()
        &&& other.x < self.right()
        &&& self.y < other.bottom()
        &&& other.y < self.bottom()
    }

    /// The point `(px, py)` lies in the box, edges included.
    pub open spec fn holds_point(self, px: int, py: int) -> bool {
        self.x <= px <= self.right() && self.y <= py <= self.bottom()
    }

    /// The origin of the box can be moved by the first half of its extent
    /// plus one without leaving the range of `i32`: the far quadrants exist.
    pub open spec fn splittable(self) -> bool {
        &&& self.x + self.w as int / 2 + 1 <= i32::MAX
        &&& self.y + self.h as int / 2 + 1 <= i32::MAX
    }

    /// Translates the box; its extent is unchanged.
    pub fn translate(&mut self, dx: i32, dy: i32)
        requires
            i32::MIN <= old(self).x + dx <= i32::MAX,
            i32::MIN <= old(self).y + dy <= i32::MAX,
        ensures
            final(self).x == old(self).x + dx,
            final(self).y == old(self).y + dy,
            final(self).w == old(self).w,
            final(self).h == old(self).h,
    {
        self.x = self.x + dx;
        self.y = self.y + dy;
    }

    /// Inclusion test: is this box inside `other`? Touching edges count as
    /// inside.
    pub fn is_inside(&self, other: AABB) -> (r: bool)
        ensures
            r == self.inside(other),
    {
        let right = self.x as i64 + self.w as i64;
        let other_right = other.x as i64 + other.w as i64;
        let bottom = self.y as i64 + self.h as i64;
        let other_bottom = other.y as i64 + other.h as i64;
        self.x >= other.x && right <= other_right && self.y >= other.y && bottom <= other_bottom
    }
}

/// Creates a box from `(x, y, w, h)`.
impl From<(i32, i32, u32, u32)> for AABB {
    fn from(t: (i32, i32, u32, u32)) -> (r: AABB)
        ensures
            r == (AABB { x: t.0, y: t.1, w: t.2, h: t.3 }),
    {
        AABB { x: t.0, y: t.1, w: t.2, h: t.3 }
    }
}

impl vstd::std_specs::convert::FromSpecImpl<(i32, i32, u32, u32)> for AABB {
    open spec fn obeys_from_spec() -> bool {
        true
    }

    open spec fn from_spec(t: (i32, i32, u32, u32)) -> AABB {
        AABB { x: t.0, y: t.1, w: t.2, h: t.3 }
    }
}

/// The four quadrants of a box.
#[derive(Debug, Copy, Clone, PartialEq, Eq, Structural)]
pub enum Quadrant {
    TopLeft,
    TopRight,
    BottomLeft,
    BottomRight,
}

/// The near half of an extent: it takes the extra unit of an odd extent.
pub open spec fn near_half(n: u32) -> int {
    n as int / 2 + n as int % 2
}

/// The far half of an extent.
pub open spec fn far_half(n: u32) -> int {
    n as int / 2
}

/// The box of quadrant `q` of `b`. The near quadrants start at the origin and
/// take the near half; the far ones start one past the far half and take the
/// far half.
pub open spec fn quadrant_box(b: AABB, q: Quadrant) -> AABB {
    let near_x = b.x;
    let near_y = b.y;
    let far_x = (b.x + far_half(b.w) + 1) as i32;
    let far_y = (b.y + far_half(b.h) + 1) as i32;
    let near_w = near_half(b.w) as u32;
    let near_h = near_half(b.h) as u32;
    let far_w = far_half(b.w) as u32;
    let far_h = far_half(b.h) as u32;
    match q {
        Quadrant::TopLeft => AABB { x: near_x, y: near_y, w: near_w, h: near_h },
        Quadrant::TopRight => AABB { x: far_x, y: near_y, w: far_w, h: near_h },
        Quadrant::BottomLeft => AABB { x: near_x, y: far_y, w: near_w, h: far_h },
        Quadrant::BottomRight => AABB { x: far_x, y: far_y, w: far_w, h: far_h },
    }
}

/// The quadrants in their fixed order: top left, top right, bottom left,
/// bottom right.
pub open spec fn quadrant_order() -> Seq<Quadrant> {
    seq![Quadrant::TopLeft, Quadrant::TopRight, Quadrant::BottomLeft, Quadrant::BottomRight]
}

/// The first quadrant of `zone`, in the fixed order, that holds `b`.
pub open spec fn first_fit(zone: AABB, b: AABB) -> Option<Quadrant> {
    if b.inside(quadrant_box(zone, Quadrant::TopLeft)) {
        Some(Quadrant::TopLeft)
    } else if b.inside(quadrant_box(zone, Quadrant::TopRight)) {
        Some(Quadrant::TopRight)
    } else if b.inside(quadrant_box(zone, Quadrant::BottomLeft)) {
        Some(Quadrant::BottomLeft)
    } else if b.inside(quadrant_box(zone, Quadrant::BottomRight)) {
        Some(Quadrant::BottomRight)
    } else {
        None
    }
}

impl Quadrant {
    /// Position of the quadrant in the fixed order.
    pub open spec fn index(self) -> int {
        match self {
            Quadrant::TopLeft => 0,
            Quadrant::TopRight => 1,
            Quadrant::BottomLeft => 2,
            Quadrant::BottomRight => 3,
        }
    }

    /// Computes the bounding box of a quadrant of `bbox`. The far
    /// quadrants need room in `i32` past the first half of the box.
    pub fn quadrant_bbox(bbox: &AABB, q: Quadrant) -> (r: AABB)
        requires
            q == Quadrant::TopLeft || bbox.splittable(),
        ensures
            r == quadrant_box(*bbox, q),
    {
        let far_w = bbox.w / 2;
        let far_h = bbox.h / 2;
        let near_w = far_w + bbox.w % 2;
        let near_h = far_h + bbox.h % 2;
        match q {
            Quadrant::TopLeft => AABB { x: bbox.x, y: bbox.y, w: near_w, h: near_h },
            Quadrant::TopRight => {
                let far_x = (bbox.x as i64 + far_w as i64 + 1) as i32;
                AABB { x: far_x, y: bbox.y, w: far_w, h: near_h }
            },
            Quadrant::BottomLeft => {
                let far_y = (bbox.y as i64 + far_h as i64 + 1) as i32;
                AABB { x: bbox.x, y: far_y, w: near_w, h: far_h }
            },
            Quadrant::BottomRight => {
                let far_x = (bbox.x as i64 + far_w as i64 + 1) as i32;
                let far_y = (bbox.y as i64 + far_h as i64 + 1) as i32;
                AABB { x: far_x, y: far_y, w: far_w, h: far_h }
            },
        }
    }

    /// The four quadrants, in their fixed order.
    pub fn all() -> (r: Vec<Quadrant>)
        ensures
            r@ == quadrant_order(),
    {
        let r = vec![Quadrant::TopLeft, Quadrant::TopRight, Quadrant::BottomLeft, Quadrant::BottomRight];
        assert(r@ =~= quadrant_order());
        r
    }
}

/// A box lies inside itself: edges that touch count as inside.
pub proof fn lemma_inside_self(a: AABB)
    ensures
        a.inside(a),
{
}

/// Inclusion is transitive.
pub proof fn lemma_inside_transitive(a: AABB, b: AABB, c: AABB)
    requires
        a.inside(b),
        b.inside(c),
    ensures
        a.inside(c),
{
}

/// The interiors of two different quadrants of a box never meet.
pub proof fn lemma_quadrants_disjoint(b: AABB, p: Quadrant, q: Quadrant)
    requires
        b.splittable(),
        p != q,
    ensures
        !quadrant_box(b, p).overlaps(quadrant_box(b, q)),
{
}

/// The four quadrant areas add up to the area of the box.
pub proof fn lemma_quadrants_area(b: AABB)
    requires
        b.splittable(),
    ensures
        quadrant_box(b, Quadrant::TopLeft).area() + quadrant_box(b, Quadrant::TopRight).area()
            + quadrant_box(b, Quadrant::BottomLeft).area() + quadrant_box(
            b,
            Quadrant::BottomRight,
        ).area() == b.area(),
{
    let nw = near_half(b.w);
    let fw = far_half(b.w);
    let nh = near_half(b.h);
    let fh = far_half(b.h);
    assert(nw + fw == b.w);
    assert(nh + fh == b.h);
    assert(nw * nh + fw * nh + nw * fh + fw * fh == (nw + fw) * (nh + fh)) by (nonlinear_arith);
}

/// Every point of a box with integer coordinates lies in one of its four
/// quadrants.
pub proof fn lemma_quadrants_cover_points(b: AABB, px: int, py: int)
    requires
        b.splittable(),
        b.holds_point(px, py),
    ensures
        exists|q: Quadrant| #[trigger] quadrant_box(b, q).holds_point(px, py),
{
    let col_far = px > b.x + near_half(b.w);
    let row_far = py > b.y + near_half(b.h);
    let q = if col_far {
        if row_far { Quadrant::BottomRight } else { Quadrant::TopRight }
    } else {
        if row_far { Quadrant::BottomLeft } else { Quadrant::TopLeft }
    };
    assert(quadrant_box(b, q).holds_point(px, py));
}

/// The seam between the near and the far quadrants: one unit wide for an
/// even extent, none for an odd one.
pub proof fn lemma_quadrant_seam(b: AABB)
    requires
        b.splittable(),
    ensures
        quadrant_box(b, Quadrant::TopRight).x - quadrant_box(b, Quadrant::TopLeft).right() == 1
            - b.w % 2,
        quadrant_box(b, Quadrant::BottomLeft).y - quadrant_box(b, Quadrant::TopLeft).bottom() == 1
            - b.h % 2,
{
}

} // verus!
