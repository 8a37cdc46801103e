//! Capabilities of the elements that a quadtree stores.
use crate::geometry::AABB;
use std::time::Duration;
use vstd::prelude::*;

verus! {

/// An element with a bounding box, which the tree reads to place it.
pub trait Collidable {
    /// The bounding box of the element.
    spec fn bbox(&self) -> AABB;

    /// A reference to the bounding box of the element.
    fn bounding_box(&self) -> (r: &AABB)
        ensures
            *r == self.bbox(),
    ;
}

/// An element that changes with the time elapsed.
pub trait Dynamic: Collidable + Sized {
    /// An update by `delta` may turn `self` into `next`, reporting
    /// `changed`.
    spec fn stepped(&self, delta: Duration, next: Self, changed: bool) -> bool;

    /// Updates the element according to the time elapsed since the last
    /// call. Returns `true` if the element changed; a result of `false`
    /// promises that its bounding box is unchanged.
    fn update(&mut self, delta: &Duration) -> (changed: bool)
        ensures
            old(self).stepped(*delta, *final(self), changed),
            !changed ==> final(self).bbox() == old(self).bbox(),
    ;
}

} // verus!
