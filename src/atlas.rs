use vstd::prelude::*;
use std::collections::HashSet;
use crate::allocator::Allocator;
use crate::rect::Rect;

verus! {

broadcast use vstd::std_specs::hash::group_hash_axioms;

/// One layer of the texture array: its allocator and the ids of the
/// allocations placed in it.
pub struct Atlas {
    pub allocator: Allocator,
    pub indexes: HashSet<usize>,
}

impl Atlas {
    /// Creates an empty layer of side `size`.
    pub fn new(size: u32) -> (r: Atlas)
        ensures
            r.allocator.wf(),
            r.allocator.side() == size,
            r.allocator.rects() == Seq::<Rect>::empty(),
            r.allocator.holes() == Seq::<Rect>::empty(),
            r.indexes@ == Set::<usize>::empty(),
    {
        Atlas { allocator: Allocator::new(size), indexes: HashSet::new() }
    }

    /// Records that allocation `id` lives in this layer.
    pub fn insert_index(&mut self, id: usize)
        ensures
            final(self).allocator == old(self).allocator,
            final(self).indexes@ == old(self).indexes@.insert(id),
    {
        self.indexes.insert(id);
    }

    /// Frees the rectangle of allocation `id` and forgets the id.
    pub fn deallocate(&mut self, id: usize, rect: Rect)
        requires
            old(self).allocator.wf(),
        ensures
            final(self).allocator.wf(),
            final(self).allocator.side() == old(self).allocator.side(),
            final(self).indexes@ == old(self).indexes@.remove(id),
            old(self).allocator.rects().contains(rect) ==> {
                &&& exists|k: int|
                    0 <= k < old(self).allocator.rects().len() && old(self).allocator.rects()[k]
                        == rect && final(self).allocator.rects() == old(
                        self,
                    ).allocator.rects().remove(k)
                &&& final(self).allocator.holes().contains(rect)
                &&& forall|w: u32, h: u32|
                    0 < w <= rect.width && 0 < h <= rect.height ==> final(self).allocator.fits(
                        #[trigger] Rect::at(rect.x, rect.y, w, h),
                    )
            },
    {
        self.indexes.remove(&id);
        self.allocator.deallocate(rect);
    }
}

} // verus!
