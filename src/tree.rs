//! The quadtree: nodes that own a zone, their elements, and none or four
//! children, one per quadrant of the zone.
use crate::geometry::{first_fit, quadrant_box, quadrant_order, Quadrant, AABB};
use crate::traits::{Collidable, Dynamic};
use std::time::Duration;
use vstd::multiset::Multiset;
use vstd::prelude::*;

verus! {

broadcast use vstd::seq_lib::group_to_multiset_ensures;

/// A quadtree node.
///
/// A node whose elements exceed its capacity splits into four children, one
/// per quadrant of its zone. An element that fits in no quadrant is kept by
/// the closest node big enough to hold it.
///
/// Usage:
/// ```text
/// let mut qt = QuadTree::<Obj>::default();
/// qt.insert(obj1);
/// ```
#[derive(Debug)]
pub struct QuadTree<T: Collidable> {
    zone: AABB,
    max_values: u32,
    max_depth: u32,
    children: Vec<QuadTree<T>>,
    values: Vec<T>,
}

/// The elements of `s` that fit in no quadrant of `zone`, in their order.
pub open spec fn staying<T: Collidable>(zone: AABB, s: Seq<T>) -> Seq<T>
    decreases s.len(),
{
    if s.len() == 0 {
        Seq::empty()
    } else {
        let rest = staying(zone, s.drop_last());
        if first_fit(zone, s.last().bbox()) is None {
            rest.push(s.last())
        } else {
            rest
        }
    }
}

/// The elements of `s` whose first fitting quadrant of `zone` is `q`, in
/// their order.
pub open spec fn routed_seq<T: Collidable>(zone: AABB, s: Seq<T>, q: Quadrant) -> Seq<T>
    decreases s.len(),
{
    if s.len() == 0 {
        Seq::empty()
    } else {
        let rest = routed_seq(zone, s.drop_last(), q);
        if first_fit(zone, s.last().bbox()) == Some(q) {
            rest.push(s.last())
        } else {
            rest
        }
    }
}

/// What an update round leaves of the elements `s`: an element stays unless
/// its flag in `flags` says it changed and its box has left `zone`.
pub open spec fn kept<T: Collidable>(s: Seq<T>, flags: Seq<bool>, zone: AABB) -> Seq<T>
    decreases s.len(),
{
    if s.len() == 0 {
        Seq::empty()
    } else {
        let rest = kept(s.drop_last(), flags.drop_last(), zone);
        if flags.last() && !s.last().bbox().inside(zone) {
            rest
        } else {
            rest.push(s.last())
        }
    }
}

/// Every element that an update round keeps lies inside `zone`, where
/// each element that did not change did.
proof fn lemma_kept_inside<T: Collidable>(s: Seq<T>, flags: Seq<bool>, zone: AABB)
    requires
        s.len() == flags.len(),
        forall|j: int| 0 <= j < s.len() && !flags[j] ==> (#[trigger] s[j]).bbox().inside(zone),
    ensures
        forall|k: int|
            0 <= k < kept(s, flags, zone).len() ==> (#[trigger] kept(s, flags, zone)[k]).bbox().inside(
                zone,
            ),
    decreases s.len(),
{
    if s.len() > 0 {
        let (s2, f2) = (s.drop_last(), flags.drop_last());
        assert forall|j: int| 0 <= j < s2.len() && !f2[j] implies (#[trigger] s2[j]).bbox().inside(
            zone,
        ) by {
            assert(s2[j] == s[j]);
        }
        lemma_kept_inside(s2, f2, zone);
        let last = s.last();
        assert(last == s[s.len() - 1]);
        let r = kept(s2, f2, zone);
        if !(flags.last() && !last.bbox().inside(zone)) {
            assert(last.bbox().inside(zone));
            assert forall|k: int|
                0 <= k < kept(s, flags, zone).len() implies (#[trigger] kept(
                s,
                flags,
                zone,
            )[k]).bbox().inside(zone) by {
                if k < r.len() {
                    assert(kept(s, flags, zone)[k] == r[k]);
                }
            }
        }
    }
}

/// Removes from `values` each element whose flag in `flags` says it changed
/// and whose box has left `zone`; the others keep their order.
pub fn drop_escaped<T: Collidable>(values: &mut Vec<T>, flags: &Vec<bool>, zone: AABB)
    requires
        old(values)@.len() == flags@.len(),
    ensures
        final(values)@ == kept(old(values)@, flags@, zone),
{
    let mut pending: Vec<T> = Vec::new();
    std::mem::swap(&mut pending, values);
    let ghost orig = pending@;
    let n = pending.len();
    let mut i: usize = 0;
    assert(orig.subrange(0, 0) =~= Seq::<T>::empty());
    assert(flags@.subrange(0, 0) =~= Seq::<bool>::empty());
    while i < n
        invariant
            n == orig.len() == flags@.len(),
            i <= n,
            pending@ == orig.subrange(i as int, n as int),
            values@ == kept(orig.subrange(0, i as int), flags@.subrange(0, i as int), zone),
        decreases n - i,
    {
        let v = pending.remove(0);
        let b = v.bounding_box();
        let escaped = flags[i] && !b.is_inside(zone);
        if !escaped {
            values.push(v);
        }
        proof {
            let s = orig.subrange(0, i + 1);
            let f = flags@.subrange(0, i + 1);
            assert(s.drop_last() =~= orig.subrange(0, i as int));
            assert(f.drop_last() =~= flags@.subrange(0, i as int));
            assert(s.last() == v);
            assert(f.last() == flags@[i as int]);
        }
        i = i + 1;
        assert(pending@ =~= orig.subrange(i as int, n as int));
    }
    assert(orig.subrange(0, n as int) =~= orig);
    assert(flags@.subrange(0, n as int) =~= flags@);
}

impl<T: Collidable> QuadTree<T> {
    /// The zone of the node.
    pub closed spec fn spec_zone(&self) -> AABB {
        self.zone
    }

    /// How many elements a leaf holds before it splits.
    pub closed spec fn spec_max_values(&self) -> nat {
        self.max_values as nat
    }

    /// How many levels may still grow below this node.
    pub closed spec fn spec_max_depth(&self) -> nat {
        self.max_depth as nat
    }

    /// The children, in the fixed quadrant order.
    pub closed spec fn spec_children(&self) -> Seq<QuadTree<T>> {
        self.children@
    }

    /// The elements held by this node itself, in their order.
    pub closed spec fn spec_values(&self) -> Seq<T> {
        self.values@
    }

    /// The node has no children.
    pub open spec fn is_leaf_spec(&self) -> bool {
        self.spec_children().len() == 0
    }

    /// An insertion into this node tries a quadrant first: the node has
    /// children, or it is a full leaf that may still split.
    pub open spec fn routes(&self) -> bool {
        ||| !self.is_leaf_spec()
        ||| (self.spec_values().len() >= self.spec_max_values() && self.spec_max_depth() > 0)
    }

    /// Every element held by this node itself lies inside its zone.
    pub open spec fn values_inside(&self) -> bool {
        forall|j: int|
            0 <= j < self.spec_values().len() ==> (#[trigger] self.spec_values()[j]).bbox().inside(self.spec_zone())
    }

    /// A node with children holds only elements that fit in no quadrant of
    /// its zone: the others belong to its subtrees.
    pub open spec fn overflow_only(&self) -> bool {
        !self.is_leaf_spec() ==> forall|j: int|
            0 <= j < self.spec_values().len() ==> first_fit(self.spec_zone(), (#[trigger] self.spec_values()[j]).bbox())
                is None
    }

    /// Well-formedness: none or four children; each child covers its
    /// quadrant, is one level shallower, shares the capacity, holds only
    /// elements inside its zone, and is well formed; and the zone leaves room
    /// in `i32` for every level that may still grow.
    pub open spec fn wf(&self) -> bool
        decreases self.spec_max_depth(), 1int,
    {
        &&& self.spec_zone().right() + self.spec_max_depth() <= i32::MAX
        &&& self.spec_zone().bottom() + self.spec_max_depth() <= i32::MAX
        &&& (self.spec_children().len() == 0 || (self.spec_children().len() == 4 && self.spec_max_depth() > 0))
        &&& self.spec_children().len() == 4 ==> {
            &&& self.child_wf(0)
            &&& self.child_wf(1)
            &&& self.child_wf(2)
            &&& self.child_wf(3)
        }
    }

    /// Child `i` is well formed with respect to this node.
    pub open spec fn child_wf(&self, i: int) -> bool
        decreases self.spec_max_depth(), 0int,
    {
        let c = self.spec_children()[i];
        &&& c.spec_max_depth() + 1 == self.spec_max_depth()
        &&& c.spec_zone() == quadrant_box(self.spec_zone(), quadrant_order()[i])
        &&& c.spec_max_values() == self.spec_max_values()
        &&& c.values_inside()
        &&& c.wf()
    }

    /// No node of the subtree that has children holds an element that fits
    /// in a quadrant of its zone.
    pub open spec fn overflow_everywhere(&self) -> bool
        decreases self.spec_max_depth(), 1int,
    {
        &&& self.overflow_only()
        &&& self.child_overflow(0)
        &&& self.child_overflow(1)
        &&& self.child_overflow(2)
        &&& self.child_overflow(3)
    }

    /// The subtree of child `i`, if there is one, satisfies
    /// `overflow_everywhere`.
    pub open spec fn child_overflow(&self, i: int) -> bool
        decreases self.spec_max_depth(), 0int,
    {
        let c = self.spec_children()[i];
        (0 <= i < self.spec_children().len() && c.spec_max_depth() < self.spec_max_depth())
            ==> c.overflow_everywhere()
    }

    /// All the elements of the subtree.
    pub open spec fn contents(&self) -> Multiset<T>
        decreases self.spec_max_depth(), 1int,
    {
        self.spec_values().to_multiset().add(self.child_contents(0)).add(self.child_contents(1)).add(
            self.child_contents(2),
        ).add(self.child_contents(3))
    }

    /// All the elements of the subtree of child `i`, if there is one.
    pub open spec fn child_contents(&self, i: int) -> Multiset<T>
        decreases self.spec_max_depth(), 0int,
    {
        if 0 <= i < self.spec_children().len() && self.spec_children()[i].spec_max_depth() < self.spec_max_depth() {
            self.spec_children()[i].contents()
        } else {
            Multiset::empty()
        }
    }

    /// What an insertion of `v` into `self` gives as `new`. The zone,
    /// capacity and depth stay. A leaf goes as `leaf_insert_post` says. A
    /// node with children appends `v` to its own elements if it fits no
    /// quadrant, and otherwise inserts it into the child of the first
    /// quadrant that holds it, leaving its other children as they were.
    pub open spec fn insert_post(self, v: T, new: Self) -> bool
        decreases self.spec_max_depth(), 2int,
    {
        let zone = self.spec_zone();
        let fit = first_fit(zone, v.bbox());
        &&& new.contents() == self.contents().insert(v)
        &&& new.spec_zone() == zone
        &&& new.spec_max_values() == self.spec_max_values()
        &&& new.spec_max_depth() == self.spec_max_depth()
        &&& if self.is_leaf_spec() {
            Self::leaf_insert_post(
                zone,
                self.spec_max_values(),
                self.spec_max_depth(),
                self.spec_values(),
                v,
                new,
            )
        } else if fit is None {
            &&& new.spec_values() == self.spec_values().push(v)
            &&& new.spec_children() == self.spec_children()
        } else {
            let i = fit.unwrap().index();
            &&& new.spec_values() == self.spec_values()
            &&& new.spec_children().len() == self.spec_children().len()
            &&& forall|j: int|
                0 <= j < self.spec_children().len() && j != i ==> #[trigger] new.spec_children()[j]
                    == self.spec_children()[j]
            &&& self.child_insert_post(v, new, i)
        }
    }

    /// Child `i` of `new` is what an insertion of `v` into child `i` of
    /// `self` gives.
    pub open spec fn child_insert_post(self, v: T, new: Self, i: int) -> bool
        decreases self.spec_max_depth(), 0int,
    {
        let c = self.spec_children()[i];
        c.spec_max_depth() < self.spec_max_depth() ==> c.insert_post(v, new.spec_children()[i])
    }

    /// What an insertion of `v` into a leaf over `zone`, with capacity `mv`,
    /// depth `md` and elements `vals`, gives as `new`. Under capacity, at
    /// depth zero, or when `v` fits no quadrant, `v` is appended and the
    /// node stays a leaf. Otherwise the leaf splits: the elements that fit no
    /// quadrant stay, in order, and each child is as `split_child` says, the
    /// child of `v`'s quadrant receiving `v` last.
    pub open spec fn leaf_insert_post(zone: AABB, mv: nat, md: nat, vals: Seq<T>, v: T, new: Self) -> bool
        decreases md, 1int,
    {
        let fit = first_fit(zone, v.bbox());
        if vals.len() < mv || md == 0 || fit is None {
            &&& new.spec_values() == vals.push(v)
            &&& new.spec_children().len() == 0
        } else {
            let i = fit.unwrap().index();
            &&& new.spec_children().len() == 4
            &&& new.spec_values() == staying(zone, vals)
            &&& Self::split_child(zone, mv, md, vals, new.spec_children()[0], Quadrant::TopLeft, if i == 0 { Some(v) } else { None })
            &&& Self::split_child(zone, mv, md, vals, new.spec_children()[1], Quadrant::TopRight, if i == 1 { Some(v) } else { None })
            &&& Self::split_child(zone, mv, md, vals, new.spec_children()[2], Quadrant::BottomLeft, if i == 2 { Some(v) } else { None })
            &&& Self::split_child(zone, mv, md, vals, new.spec_children()[3], Quadrant::BottomRight, if i == 3 { Some(v) } else { None })
        }
    }

    /// Child `c`, for quadrant `q`, of a leaf over `zone` (capacity `mv`,
    /// depth `md`, elements `vals`) that split, and then received `extra`
    /// if there is one. It holds the elements routed to `q`, and `extra`.
    /// Where those routed elements were few enough not to split it (at most
    /// `mv`, or the child at depth zero), it is a leaf holding exactly them,
    /// in order, into which `extra` was then inserted.
    pub open spec fn split_child(
        zone: AABB,
        mv: nat,
        md: nat,
        vals: Seq<T>,
        c: Self,
        q: Quadrant,
        extra: Option<T>,
    ) -> bool
        decreases md, 0int,
    {
        let r = routed_seq(zone, vals, q);
        &&& c.contents() == (match extra {
            Some(e) => r.to_multiset().insert(e),
            None => r.to_multiset(),
        })
        &&& (md > 0 && (r.len() <= mv || md == 1)) ==> match extra {
            None => c.is_leaf_spec() && c.spec_values() == r,
            Some(e) => Self::leaf_insert_post(
                quadrant_box(zone, q),
                mv,
                (md - 1) as nat,
                r,
                e,
                c,
            ),
        }
    }

    /// What a split of `self`, giving `new`, does. A leaf that may still
    /// grow gets four children, each as `split_child` says; the elements
    /// that fit no quadrant stay, in order. Any other node is left as it is.
    pub open spec fn split_post(self, new: Self) -> bool {
        let zone = self.spec_zone();
        let (mv, md, vals) = (self.spec_max_values(), self.spec_max_depth(), self.spec_values());
        if self.is_leaf_spec() && md > 0 {
            &&& new.spec_zone() == zone
            &&& new.spec_max_values() == mv
            &&& new.spec_max_depth() == md
            &&& new.spec_children().len() == 4
            &&& new.spec_values() == staying(zone, vals)
            &&& Self::split_child(zone, mv, md, vals, new.spec_children()[0], Quadrant::TopLeft, None)
            &&& Self::split_child(zone, mv, md, vals, new.spec_children()[1], Quadrant::TopRight, None)
            &&& Self::split_child(zone, mv, md, vals, new.spec_children()[2], Quadrant::BottomLeft, None)
            &&& Self::split_child(zone, mv, md, vals, new.spec_children()[3], Quadrant::BottomRight, None)
        } else {
            new == self
        }
    }

    /// The zone of the node.
    pub fn zone(&self) -> (r: AABB)
        ensures
            r == self.spec_zone(),
    {
        self.zone
    }

    /// How many elements a leaf holds before it splits.
    pub fn max_values(&self) -> (r: u32)
        ensures
            r == self.spec_max_values(),
    {
        self.max_values
    }

    /// How many levels may still grow below this node.
    pub fn max_depth(&self) -> (r: u32)
        ensures
            r == self.spec_max_depth(),
    {
        self.max_depth
    }

    /// The elements held by this node itself.
    pub fn values(&self) -> (r: &Vec<T>)
        ensures
            r@ == self.spec_values(),
    {
        &self.values
    }

    /// The children of this node, in the fixed quadrant order.
    pub fn children(&self) -> (r: &Vec<QuadTree<T>>)
        ensures
            r@ == self.spec_children(),
    {
        &self.children
    }

    /// Creates a tree whose root covers the zone `(x, y, w, h)`.
    pub fn new(max_values: u32, max_depth: u32, x: i32, y: i32, w: u32, h: u32) -> (r: QuadTree<T>)
        requires
            x + w + max_depth <= i32::MAX,
            y + h + max_depth <= i32::MAX,
        ensures
            r.wf(),
            r.spec_zone() == (AABB { x, y, w, h }),
            r.spec_max_values() == max_values,
            r.spec_max_depth() == max_depth,
            r.is_leaf_spec(),
            r.spec_values().len() == 0,
            r.contents() =~= Multiset::empty(),
    {
        QuadTree {
            zone: AABB { x, y, w, h },
            max_values,
            max_depth,
            children: Vec::new(),
            values: Vec::new(),
        }
    }

    /// Creates the child of this node that covers quadrant `q`: one level
    /// shallower, with the same capacity.
    fn new_child(&self, q: Quadrant) -> (r: QuadTree<T>)
        requires
            self.wf(),
            self.max_depth > 0,
        ensures
            r.wf(),
            r.zone == quadrant_box(self.zone, q),
            r.max_depth + 1 == self.max_depth,
            r.max_values == self.max_values,
            r.children@.len() == 0,
            r.values@.len() == 0,
            r.values_inside(),
            r.contents() =~= Multiset::empty(),
    {
        QuadTree {
            zone: Quadrant::quadrant_bbox(&self.zone, q),
            max_depth: self.max_depth - 1,
            max_values: self.max_values,
            children: Vec::new(),
            values: Vec::new(),
        }
    }

    /// Is this node a leaf, with no children?
    pub fn is_leaf(&self) -> (r: bool)
        ensures
            r == self.is_leaf_spec(),
    {
        self.children.len() == 0
    }

    /// The first quadrant of the zone, in the fixed order, that holds the
    /// bounding box of `v`, if any.
    fn fits(&self, v: &T) -> (r: Option<Quadrant>)
        requires
            self.zone.splittable(),
        ensures
            r == first_fit(self.zone, v.bbox()),
    {
        let b = v.bounding_box();
        if b.is_inside(Quadrant::quadrant_bbox(&self.zone, Quadrant::TopLeft)) {
            Some(Quadrant::TopLeft)
        } else if b.is_inside(Quadrant::quadrant_bbox(&self.zone, Quadrant::TopRight)) {
            Some(Quadrant::TopRight)
        } else if b.is_inside(Quadrant::quadrant_bbox(&self.zone, Quadrant::BottomLeft)) {
            Some(Quadrant::BottomLeft)
        } else if b.is_inside(Quadrant::quadrant_bbox(&self.zone, Quadrant::BottomRight)) {
            Some(Quadrant::BottomRight)
        } else {
            None
        }
    }
    /// Inserts `v` into the tree.
    ///
    /// A node that has children, or a full leaf that may still split, tries
    /// the quadrants of its zone in the fixed order: `v` goes into the
    /// subtree of the first one that holds it, after a split if the node was
    /// a leaf, and stays at this node if none does. Any other leaf appends
    /// `v` to its own elements.
    pub fn insert(&mut self, v: T)
        requires
            old(self).wf(),
        ensures
            final(self).wf(),
            final(self).spec_zone() == old(self).spec_zone(),
            final(self).spec_max_values() == old(self).spec_max_values(),
            final(self).spec_max_depth() == old(self).spec_max_depth(),
            final(self).contents() == old(self).contents().insert(v),
            old(self).values_inside() && v.bbox().inside(old(self).spec_zone())
                ==> final(self).values_inside(),
            old(self).insert_post(v, *final(self)),
            old(self).overflow_everywhere() ==> final(self).overflow_everywhere(),
        decreases old(self).spec_max_depth(), if old(self).spec_children().len() == 0 {
            3int
        } else {
            1int
        },
    {
        let ghost pre = *self;
        if !self.is_leaf() || (self.values.len() >= self.max_values as usize && self.max_depth > 0) {
            match self.fits(&v) {
                None => {
                    self.values.push(v);
                    proof {
                        self.lemma_same_children(pre);
                        assert(self.contents() =~= pre.contents().insert(v));
                        if pre.is_leaf_spec() {
                            assert(Self::leaf_insert_post(pre.zone, pre.spec_max_values(), pre.spec_max_depth(), pre.values@, v, *self));
                        }
                    }
                },
                Some(q) => {
                    self.split();
                    let ghost mid = *self;
                    let i: usize = match q {
                        Quadrant::TopLeft => 0,
                        Quadrant::TopRight => 1,
                        Quadrant::BottomLeft => 2,
                        Quadrant::BottomRight => 3,
                    };
                    assert(quadrant_order()[i as int] == q);
                    assert(mid.child_wf(i as int));
                    self.children[i].insert(v);
                    proof {
                        assert(self.child_wf(0) && self.child_wf(1) && self.child_wf(2) && self.child_wf(3));
                        assert(self.child_contents(i as int) == mid.child_contents(i as int).insert(v));
                        assert forall|j: int| 0 <= j < 4 && j != i implies self.child_contents(j) == mid.child_contents(j) by {}
                        assert(self.contents() =~= mid.contents().insert(v));
                        let c = mid.children@[i as int];
                        assert(c.insert_post(v, self.children@[i as int]));
                        if pre.overflow_everywhere() {
                            assert(mid.overflow_everywhere());
                            assert(mid.child_overflow(i as int));
                            assert(self.child_overflow(i as int));
                            assert forall|j: int| 0 <= j < 4 && j != i implies self.child_overflow(j) by {
                                assert(mid.child_overflow(j));
                                assert(self.children@[j] == mid.children@[j]);
                            }
                            assert(self.child_overflow(0) && self.child_overflow(1) && self.child_overflow(2) && self.child_overflow(3));
                        }
                        if pre.is_leaf_spec() {
                            assert(mid.child_wf(i as int));
                            Self::lemma_insert_after_split(pre, mid, *self, v, q);
                        } else {
                            assert(pre.child_insert_post(v, *self, i as int));
                        }
                    }
                },
            }
        } else {
            self.values.push(v);
            proof {
                self.lemma_same_children(pre);
                assert(self.contents() =~= pre.contents().insert(v));
                assert(Self::leaf_insert_post(pre.zone, pre.spec_max_values(), pre.spec_max_depth(), pre.values@, v, *self));
            }
        }
    }

    /// Splits a leaf that may still grow into four children, and shares its
    /// elements out among them by inserting each again, in its order. Any
    /// other node is left as it is.
    pub fn split(&mut self)
        requires
            old(self).wf(),
        ensures
            final(self).wf(),
            old(self).split_post(*final(self)),
            final(self).contents() == old(self).contents(),
            old(self).values_inside() ==> final(self).values_inside(),
            old(self).overflow_everywhere() ==> final(self).overflow_everywhere(),
        decreases old(self).spec_max_depth(), if old(self).spec_children().len() == 0 {
            2int
        } else {
            0int
        },
    {
        if self.children.len() == 0 && self.max_depth > 0 {
            let ghost pre = *self;
            let tl = self.new_child(Quadrant::TopLeft);
            let tr = self.new_child(Quadrant::TopRight);
            let bl = self.new_child(Quadrant::BottomLeft);
            let br = self.new_child(Quadrant::BottomRight);
            let ghost fresh = seq![tl, tr, bl, br];
            self.children.push(tl);
            self.children.push(tr);
            self.children.push(bl);
            self.children.push(br);
            let mut pending: Vec<T> = Vec::new();
            std::mem::swap(&mut pending, &mut self.values);
            let ghost vals = pending@;
            let ghost zone = self.zone;
            proof {
                assert(self.child_wf(0) && self.child_wf(1) && self.child_wf(2) && self.child_wf(3));
                assert(vals.subrange(0, 0) =~= Seq::<T>::empty());
                assert(vals.subrange(0, vals.len() as int) =~= vals);
                assert(self.child_overflow(0) && self.child_overflow(1) && self.child_overflow(2) && self.child_overflow(3)) by {
                    assert(self.children@ =~= fresh);
                    assert(fresh[0].overflow_everywhere());
                    assert(fresh[1].overflow_everywhere());
                    assert(fresh[2].overflow_everywhere());
                    assert(fresh[3].overflow_everywhere());
                }
                assert(self.contents() =~= Multiset::empty());
                assert(pre.contents() =~= vals.to_multiset());
                assert forall|j: int| 0 <= j < 4 implies #[trigger] Self::split_child(
                    zone,
                    pre.spec_max_values(),
                    pre.spec_max_depth(),
                    vals.subrange(0, 0),
                    self.children@[j],
                    quadrant_order()[j],
                    None,
                ) by {
                    assert(self.children@ =~= fresh);
                    assert(fresh[j].contents() =~= Multiset::empty());
                    assert(fresh[j].spec_values() =~= Seq::<T>::empty());
                    assert(fresh[j].is_leaf_spec());
                    assert(fresh[j].overflow_everywhere());
                    let r = routed_seq(zone, vals.subrange(0, 0), quadrant_order()[j]);
                    assert(r =~= Seq::<T>::empty());
                    assert(r.to_multiset().len() == 0);
                    vstd::multiset::lemma_multiset_empty_len(r.to_multiset());
                    assert(self.children@[j].contents() =~= Multiset::empty());
                    assert(self.children@[j].spec_values() =~= Seq::<T>::empty());
                }
            }
            while pending.len() > 0
                invariant
                    self.wf(),
                    self.zone == zone,
                    self.max_values == pre.max_values,
                    self.max_depth == pre.max_depth,
                    self.max_depth > 0,
                    self.children@.len() == 4,
                    pending@.len() <= vals.len(),
                    pending@ == vals.subrange(vals.len() - pending@.len(), vals.len() as int),
                    self.values@ == staying(zone, vals.subrange(0, vals.len() - pending@.len())),
                    forall|j: int|
                        0 <= j < 4 ==> #[trigger] Self::split_child(
                            zone,
                            pre.spec_max_values(),
                            pre.spec_max_depth(),
                            vals.subrange(0, vals.len() - pending@.len()),
                            self.children@[j],
                            quadrant_order()[j],
                            None,
                        ),
                    self.contents().add(pending@.to_multiset()) == vals.to_multiset(),
                    pre.values_inside() ==> self.values_inside(),
                    self.overflow_everywhere(),
                    pre.values@ == vals,
                    pre.zone == zone,
                    pre == *old(self),
                    pre.children@.len() == 0,
                decreases pending.len(),
            {
                let ghost k = vals.len() - pending@.len();
                let ghost before = *self;
                let ghost pend = pending@;
                let v = pending.remove(0);
                assert(v == vals[k]);
                assert(pre.spec_values()[k] == v);
                assert(pre.values_inside() ==> v.bbox().inside(zone));
                self.insert(v);
                proof {
                    let done = vals.subrange(0, k + 1);
                    assert(done.drop_last() =~= vals.subrange(0, k));
                    assert(done.last() == v);
                    assert(pending@ =~= vals.subrange(k + 1, vals.len() as int));
                    assert(pend.remove(0) =~= pending@);
                    assert(vals.subrange(0, k).push(v) =~= done);
                    assert forall|j: int| 0 <= j < 4 implies #[trigger] Self::split_child(
                        zone,
                        pre.spec_max_values(),
                        pre.spec_max_depth(),
                        done,
                        self.children@[j],
                        quadrant_order()[j],
                        None,
                    ) by {
                        assert(Self::split_child(
                            zone,
                            pre.spec_max_values(),
                            pre.spec_max_depth(),
                            vals.subrange(0, k),
                            before.children@[j],
                            quadrant_order()[j],
                            None,
                        ));
                        Self::lemma_split_step(before, *self, v, vals.subrange(0, k), j);
                    }
                    assert(self.contents().add(pending@.to_multiset()) =~= vals.to_multiset());
                }
            }
            proof {
                Self::lemma_quadrant_order();
                assert(vals.subrange(0, vals.len() as int) =~= vals);
                assert(Self::split_child(zone, pre.spec_max_values(), pre.spec_max_depth(), vals, self.children@[0], quadrant_order()[0], None));
                assert(Self::split_child(zone, pre.spec_max_values(), pre.spec_max_depth(), vals, self.children@[1], quadrant_order()[1], None));
                assert(Self::split_child(zone, pre.spec_max_values(), pre.spec_max_depth(), vals, self.children@[2], quadrant_order()[2], None));
                assert(Self::split_child(zone, pre.spec_max_values(), pre.spec_max_depth(), vals, self.children@[3], quadrant_order()[3], None));
                assert(pending@.to_multiset() =~= Multiset::empty());
                assert(self.contents() =~= pre.contents());
            }
        }
    }

    /// The quadrants in their fixed order, one by one.
    proof fn lemma_quadrant_order()
        ensures
            quadrant_order()[0] == Quadrant::TopLeft,
            quadrant_order()[1] == Quadrant::TopRight,
            quadrant_order()[2] == Quadrant::BottomLeft,
            quadrant_order()[3] == Quadrant::BottomRight,
    {
    }

    /// An insertion into a full leaf that splits, then inserts `v` into the
    /// child of its quadrant, goes as `leaf_insert_post` says.
    proof fn lemma_insert_after_split(pre: Self, mid: Self, after: Self, v: T, q: Quadrant)
        requires
            pre.is_leaf_spec(),
            pre.spec_max_depth() > 0,
            pre.spec_values().len() >= pre.spec_max_values(),
            pre.split_post(mid),
            mid.wf(),
            first_fit(pre.zone, v.bbox()) == Some(q),
            after.values == mid.values,
            after.children@.len() == 4,
            forall|j: int| 0 <= j < 4 && j != q.index() ==> #[trigger] after.children@[j] == mid.children@[j],
            mid.children@[q.index()].insert_post(v, after.children@[q.index()]),
        ensures
            Self::leaf_insert_post(
                pre.zone,
                pre.spec_max_values(),
                pre.spec_max_depth(),
                pre.values@,
                v,
                after,
            ),
    {
        let (zone, mv, md) = (pre.zone, pre.spec_max_values(), pre.spec_max_depth());
        let i = q.index();
        let c = mid.children@[i];
        assert(mid.child_wf(i));
        Self::lemma_quadrant_order();
        assert forall|j: int| 0 <= j < 4 implies Self::split_child(
            zone,
            mv,
            md,
            pre.values@,
            #[trigger] after.children@[j],
            quadrant_order()[j],
            if j == i { Some(v) } else { None },
        ) by {
            assert(Self::split_child(zone, mv, md, pre.values@, mid.children@[j], quadrant_order()[j], None));
            if j == i {
                let r = routed_seq(zone, pre.values@, q);
                if md > 0 && (r.len() <= mv || md == 1) {
                    assert(c.is_leaf_spec() && c.spec_values() == r);
                    assert(Self::leaf_insert_post(c.spec_zone(), c.spec_max_values(), c.spec_max_depth(), r, v, after.children@[j]));
                }
            }
        }
        assert(Self::split_child(zone, mv, md, pre.values@, after.children@[0], quadrant_order()[0], if i == 0 { Some(v) } else { None }));
        assert(Self::split_child(zone, mv, md, pre.values@, after.children@[1], quadrant_order()[1], if i == 1 { Some(v) } else { None }));
        assert(Self::split_child(zone, mv, md, pre.values@, after.children@[2], quadrant_order()[2], if i == 2 { Some(v) } else { None }));
        assert(Self::split_child(zone, mv, md, pre.values@, after.children@[3], quadrant_order()[3], if i == 3 { Some(v) } else { None }));
    }

    /// One step of the sharing out in a split: inserting `v` into a node
    /// with children keeps each child as `split_child` says, for the
    /// elements shared out so far followed by `v`.
    proof fn lemma_split_step(before: Self, after: Self, v: T, vals: Seq<T>, j: int)
        requires
            before.wf(),
            !before.is_leaf_spec(),
            before.insert_post(v, after),
            0 <= j < 4,
            Self::split_child(
                before.zone,
                before.spec_max_values(),
                before.spec_max_depth(),
                vals,
                before.children@[j],
                quadrant_order()[j],
                None,
            ),
        ensures
            Self::split_child(
                before.zone,
                before.spec_max_values(),
                before.spec_max_depth(),
                vals.push(v),
                after.children@[j],
                quadrant_order()[j],
                None,
            ),
    {
        let zone = before.zone;
        let q = quadrant_order()[j];
        let s2 = vals.push(v);
        assert(s2.drop_last() =~= vals);
        assert(s2.last() == v);
        let r = routed_seq(zone, vals, q);
        let fit = first_fit(zone, v.bbox());
        assert(before.child_wf(j));
        assert(q.index() == j);
        if fit == Some(q) {
            assert(routed_seq(zone, s2, q) == r.push(v));
            assert(before.child_insert_post(v, after, j));
            let c = before.children@[j];
            assert(c.insert_post(v, after.children@[j]));
            assert(r.push(v).to_multiset() =~= r.to_multiset().insert(v));
            if r.push(v).len() <= before.max_values || before.max_depth == 1 {
                assert(c.is_leaf_spec() && c.spec_values() == r);
                assert(Self::leaf_insert_post(
                    c.spec_zone(),
                    c.spec_max_values(),
                    c.spec_max_depth(),
                    r,
                    v,
                    after.children@[j],
                ));
            }
        } else {
            assert(routed_seq(zone, s2, q) == r);
            assert(after.children@[j] == before.children@[j]);
        }
    }

    /// Facts about a node that differs from `pre` only in its own elements.
    proof fn lemma_same_children(&self, pre: Self)
        requires
            pre.wf(),
            self.zone == pre.zone,
            self.max_values == pre.max_values,
            self.max_depth == pre.max_depth,
            self.children == pre.children,
        ensures
            self.wf(),
            forall|j: int| #[trigger] self.child_contents(j) == pre.child_contents(j),
            forall|j: int| #[trigger] self.child_overflow(j) == pre.child_overflow(j),
    {
        assert(self.children@ == pre.children@);
        if self.children@.len() == 4 {
            assert(self.child_wf(0) && self.child_wf(1) && self.child_wf(2) && self.child_wf(3));
        }
    }
}

impl<T: Dynamic> QuadTree<T> {
    /// What an update by `delta` of `self`, giving `new`, does to this
    /// node's own elements: each element `u` became `upd[i]` by its own
    /// update, which reported `flags[i]`; those that changed and left the
    /// zone were dropped, the others kept their order; and `own` tells
    /// whether any of them reported a change.
    pub open spec fn update_post(self, delta: Duration, new: Self, own: bool) -> bool {
        exists|upd: Seq<T>, flags: Seq<bool>|
            {
                &&& upd.len() == self.spec_values().len()
                &&& flags.len() == upd.len()
                &&& forall|i: int|
                    0 <= i < upd.len() ==> self.spec_values()[i].stepped(
                        delta,
                        #[trigger] upd[i],
                        flags[i],
                    )
                &&& new.spec_values() == #[trigger] kept(upd, flags, self.spec_zone())
                &&& own == flags.contains(true)
            }
    }

    /// What an update of the subtree `self`, giving `new` and reporting
    /// `changed`, does: this node's own elements as `update_post` says, and
    /// each child's subtree updated in turn; `changed` is reported exactly
    /// when this node's elements or one of the child subtrees reported a
    /// change.
    pub open spec fn updated(self, delta: Duration, new: Self, changed: bool) -> bool
        decreases self.spec_max_depth(), 1int,
    {
        &&& new.spec_children().len() == self.spec_children().len()
        &&& self.update_post(delta, new, changed) || self.update_post(delta, new, false)
        &&& self.child_updated(delta, new, 0, changed)
        &&& self.child_updated(delta, new, 1, changed)
        &&& self.child_updated(delta, new, 2, changed)
        &&& self.child_updated(delta, new, 3, changed)
        &&& changed ==> {
            ||| self.update_post(delta, new, true)
            ||| self.child_reported(delta, new, 0)
            ||| self.child_reported(delta, new, 1)
            ||| self.child_reported(delta, new, 2)
            ||| self.child_reported(delta, new, 3)
        }
    }

    /// The subtree of child `i`, if there is one, was updated into that of
    /// `new`, reporting no change or, where `changed` holds, a change.
    pub open spec fn child_updated(self, delta: Duration, new: Self, i: int, changed: bool) -> bool
        decreases self.spec_max_depth(), 0int,
    {
        let c = self.spec_children()[i];
        let d = new.spec_children()[i];
        (0 <= i < self.spec_children().len() && c.spec_max_depth() < self.spec_max_depth()) ==> {
            ||| c.updated(delta, d, false)
            ||| (changed && c.updated(delta, d, true))
        }
    }

    /// The subtree of child `i` was updated into that of `new` and reported
    /// a change.
    pub open spec fn child_reported(self, delta: Duration, new: Self, i: int) -> bool
        decreases self.spec_max_depth(), 0int,
    {
        let c = self.spec_children()[i];
        &&& 0 <= i < self.spec_children().len()
        &&& c.spec_max_depth() < self.spec_max_depth()
        &&& c.updated(delta, new.spec_children()[i], true)
    }

    /// Updates every element of the tree, children first, and reports
    /// whether any element changed.
    ///
    /// An element that changed and left the zone of the node that holds it
    /// is dropped from the tree: it is not filed again elsewhere.
    pub fn update(&mut self, delta: &Duration) -> (changed: bool)
        requires
            old(self).wf(),
        ensures
            final(self).wf(),
            final(self).spec_zone() == old(self).spec_zone(),
            final(self).spec_max_values() == old(self).spec_max_values(),
            final(self).spec_max_depth() == old(self).spec_max_depth(),
            final(self).spec_children().len() == old(self).spec_children().len(),
            old(self).values_inside() ==> final(self).values_inside(),
            old(self).updated(*delta, *final(self), changed),
        decreases old(self).spec_max_depth(),
    {
        let ghost pre = *self;
        let ghost mut kids: Seq<bool> = Seq::empty();
        let mut changed = false;
        let nc = self.children.len();
        let mut c: usize = 0;
        while c < nc
            invariant
                pre.wf(),
                self.wf(),
                nc == self.children@.len() == pre.children@.len(),
                c <= nc,
                self.zone == pre.zone,
                self.max_values == pre.max_values,
                self.max_depth == pre.max_depth,
                self.values == pre.values,
                pre == *old(self),
                forall|j: int| c <= j < nc ==> #[trigger] self.children@[j] == pre.children@[j],
                kids.len() == c,
                forall|j: int| 0 <= j < c ==> #[trigger] pre.children@[j].updated(*delta, self.children@[j], kids[j]),
                changed == kids.contains(true),
            decreases nc - c,
        {
            let ghost mid = *self;
            assert(mid.child_wf(c as int));
            let t = self.children[c].update(delta);
            changed = t || changed;
            proof {
                let old_kids = kids;
                kids = kids.push(t);
                assert forall|j: int| 0 <= j < c + 1 implies #[trigger] pre.children@[j].updated(*delta, self.children@[j], kids[j]) by {
                    if j < c {
                        assert(self.children@[j] == mid.children@[j]);
                        assert(kids[j] == old_kids[j]);
                    } else {
                        assert(mid.children@[j] == pre.children@[j]);
                    }
                }
                if changed {
                    if t {
                        assert(kids[c as int] == true);
                    } else {
                        let w = choose|w: int| 0 <= w < old_kids.len() && old_kids[w] == true;
                        assert(kids[w] == true);
                    }
                } else {
                    if kids.contains(true) {
                        let w = choose|w: int| 0 <= w < kids.len() && kids[w] == true;
                        if w < c {
                            assert(old_kids[w] == true);
                        }
                    }
                }
                assert(self.child_wf(c as int));
                if nc == 4 {
                    assert(mid.child_wf(0) && mid.child_wf(1) && mid.child_wf(2) && mid.child_wf(3));
                    assert(self.child_wf(0) && self.child_wf(1) && self.child_wf(2) && self.child_wf(3));
                }
            }
            c = c + 1;
        }
        let ghost grown = *self;
        let n = self.values.len();
        let mut flags: Vec<bool> = Vec::new();
        let mut i: usize = 0;
        assert(!flags@.contains(true));
        while i < n
            invariant
                n == self.values@.len() == pre.values@.len(),
                i <= n,
                flags@.len() == i,
                forall|j: int| 0 <= j < i && !flags@[j] ==> (#[trigger] self.values@[j]).bbox() == pre.values@[j].bbox(),
                forall|j: int| 0 <= j < i ==> pre.values@[j].stepped(*delta, #[trigger] self.values@[j], flags@[j]),
                forall|j: int| i <= j < n ==> #[trigger] self.values@[j] == pre.values@[j],
                grown.wf(),
                self.zone == grown.zone,
                grown.zone == pre.zone,
                self.max_values == grown.max_values == pre.max_values,
                self.max_depth == grown.max_depth == pre.max_depth,
                self.children == grown.children,
                grown.children@.len() == pre.children@.len(),
                nc == pre.children@.len(),
                kids.len() == nc,
                forall|j: int| 0 <= j < nc ==> #[trigger] pre.children@[j].updated(*delta, grown.children@[j], kids[j]),
                changed == (kids.contains(true) || flags@.contains(true)),
            decreases n - i,
        {
            let ghost before = flags@;
            let t = self.values[i].update(delta);
            flags.push(t);
            if t {
                changed = true;
            }
            proof {
                if t {
                    assert(flags@[i as int] == true);
                } else if flags@.contains(true) {
                    let w = choose|w: int| 0 <= w < flags@.len() && flags@[w] == true;
                    assert(before[w] == true);
                } else if before.contains(true) {
                    let w = choose|w: int| 0 <= w < before.len() && before[w] == true;
                    assert(flags@[w] == true);
                }
                assert(flags@.contains(true) == (before.contains(true) || t));
            }
            i = i + 1;
        }
        let ghost upd = self.values@;
        let zone = self.zone;
        drop_escaped(&mut self.values, &flags, zone);
        proof {
            self.lemma_same_children(grown);
            assert(self.spec_values() == kept(upd, flags@, zone));
            if pre.values_inside() {
                assert forall|j: int| 0 <= j < upd.len() && !flags@[j] implies (#[trigger] upd[j]).bbox().inside(zone) by {
                    assert(pre.spec_values()[j].bbox().inside(zone));
                }
                lemma_kept_inside(upd, flags@, zone);
            }
            assert(upd.len() == pre.spec_values().len());
            assert(forall|j: int|
                0 <= j < upd.len() ==> pre.spec_values()[j].stepped(*delta, #[trigger] upd[j], flags@[j]));
            assert(self.spec_values() == kept(upd, flags@, pre.spec_zone()));
            assert(pre.update_post(*delta, *self, flags@.contains(true)));
            if nc == 4 {
                assert(pre.children@[0].updated(*delta, self.children@[0], kids[0]));
                assert(pre.children@[1].updated(*delta, self.children@[1], kids[1]));
                assert(pre.children@[2].updated(*delta, self.children@[2], kids[2]));
                assert(pre.children@[3].updated(*delta, self.children@[3], kids[3]));
                if kids.contains(true) {
                    let w = choose|w: int| 0 <= w < kids.len() && kids[w] == true;
                    assert(pre.child_reported(*delta, *self, w));
                }
            }
            assert(pre.child_updated(*delta, *self, 0, changed));
            assert(pre.child_updated(*delta, *self, 1, changed));
            assert(pre.child_updated(*delta, *self, 2, changed));
            assert(pre.child_updated(*delta, *self, 3, changed));
        }
        changed
    }
}

impl<T: Collidable> Default for QuadTree<T> {
    /// A tree over the zone `(0, 0, 256, 256)`, with a capacity of one
    /// element per leaf and four levels of depth.
    fn default() -> (r: Self)
        ensures
            r.wf(),
            r.spec_zone() == (AABB { x: 0, y: 0, w: 256, h: 256 }),
            r.spec_max_values() == 1,
            r.spec_max_depth() == 4,
            r.is_leaf_spec(),
            r.spec_values().len() == 0,
            r.contents() =~= Multiset::empty(),
    {
        QuadTree::new(1, 4, 0, 0, 256, 256)
    }
}

/// Splitting twice does what splitting once does: the second split leaves
/// the node as the first one made it.
pub proof fn lemma_split_idempotent<T: Collidable>(a: QuadTree<T>, b: QuadTree<T>, c: QuadTree<T>)
    requires
        a.wf(),
        a.split_post(b),
        b.split_post(c),
    ensures
        c == b,
{
}

} // verus!
