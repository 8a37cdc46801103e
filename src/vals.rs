//! A plain element: a box that drifts one unit to the right at each update.
use crate::geometry::AABB;
use crate::traits::{Collidable, Dynamic};
use std::time::Duration;
use vstd::prelude::*;

verus! {

/// An element that is nothing but its bounding box.
#[derive(Debug)]
pub struct TestVal {
    pub bbox: AABB,
}

impl Collidable for TestVal {
    open spec fn bbox(&self) -> AABB {
        self.bbox
    }

    fn bounding_box(&self) -> (r: &AABB) {
        &self.bbox
    }
}

impl Dynamic for TestVal {
    /// One unit to the right, unless the box is at the right end of the
    /// `i32` range, where it stays.
    open spec fn stepped(&self, delta: Duration, next: Self, changed: bool) -> bool {
        if self.bbox.x < i32::MAX {
            changed && next == (TestVal { bbox: AABB { x: (self.bbox.x + 1) as i32, ..self.bbox } })
        } else {
            !changed && next == *self
        }
    }

    /// Moves the box one unit to the right, unless it is already at the
    /// right end of the `i32` range, where it stays and reports no change.
    fn update(&mut self, _delta: &Duration) -> (changed: bool)
        ensures
            changed == (old(self).bbox.x < i32::MAX),
            changed ==> final(self).bbox == (AABB { x: (old(self).bbox.x + 1) as i32, ..old(self).bbox }),
            !changed ==> final(self).bbox == old(self).bbox,
    {
        if self.bbox.x < i32::MAX {
            self.bbox.translate(1, 0);
            true
        } else {
            false
        }
    }
}

} // verus!
