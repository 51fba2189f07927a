use vstd::prelude::*;
use crate::rect::Rect;

verus! {

/// Packs rectangles into one square layer.
///
/// Every placed rectangle lies inside the layer and no two of them overlap.
/// Placement tries, in this order: the corners of rectangles freed earlier,
/// the layer's origin, then the corner right of and the corner below each
/// placed rectangle, and takes the first position where the request fits.
/// Freed space therefore merges with its free neighbours by itself, and a
/// freed rectangle can take back a request of its own size or smaller until
/// something else is placed over it; it is then forgotten.
pub struct Allocator {
    side: u32,
    placed: Vec<Rect>,
    holes: Vec<Rect>,
}

impl Allocator {
    /// The side of the square layer.
    pub closed spec fn side(&self) -> u32 {
        self.side
    }

    /// The rectangles currently handed out.
    pub closed spec fn rects(&self) -> Seq<Rect> {
        self.placed@
    }

    /// Rectangles freed earlier, tried first for new requests.
    pub closed spec fn holes(&self) -> Seq<Rect> {
        self.holes@
    }

    pub open spec fn wf(&self) -> bool {
        &&& forall|i: int| 0 <= i < self.rects().len() ==> {
            &&& (#[trigger] self.rects()[i]).has_area()
            &&& self.rects()[i].inside(self.side() as int)
        }
        &&& forall|i: int, j: int|
            0 <= i < self.rects().len() && 0 <= j < self.rects().len() && i != j ==> (
            #[trigger] self.rects()[i]).disjoint(#[trigger] self.rects()[j])
    }

    /// `r` can be placed: it has an area, lies inside the layer and overlaps
    /// nothing placed.
    pub open spec fn fits(&self, r: Rect) -> bool {
        &&& r.has_area()
        &&& r.inside(self.side() as int)
        &&& forall|i: int| 0 <= i < self.rects().len() ==> r.disjoint(#[trigger] self.rects()[i])
    }

    /// Creates an empty layer of side `side`.
    pub fn new(side: u32) -> (r: Allocator)
        ensures
            r.wf(),
            r.side() == side,
            r.rects() == Seq::<Rect>::empty(),
            r.holes() == Seq::<Rect>::empty(),
    {
        Allocator { side, placed: Vec::new(), holes: Vec::new() }
    }

    /// Returns whether a `width` by `height` rectangle with corner `(x, y)`
    /// can be placed.
    fn free_at(&self, x: u32, y: u32, width: u32, height: u32) -> (r: bool)
        requires
            self.wf(),
            width > 0,
            height > 0,
        ensures
            r == self.fits(Rect::at(x, y, width, height)),
    {
        if x > self.side || width > self.side - x || y > self.side || height > self.side - y {
            return false;
        }
        let cand = Rect { x, y, width, height };
        let mut i: usize = 0;
        while i < self.placed.len()
            invariant
                self.wf(),
                x + width <= self.side,
                y + height <= self.side,
                cand == Rect::at(x, y, width, height),
                i <= self.placed@.len(),
                forall|k: int| 0 <= k < i ==> cand.disjoint(#[trigger] self.placed@[k]),
            decreases self.placed@.len() - i,
        {
            let p = self.placed[i];
            assert(self.rects()[i as int] == p);
            let apart = p.x >= x + width || x >= p.x + p.width || p.y >= y + height || y >= p.y
                + p.height;
            if !apart {
                return false;
            }
            i = i + 1;
        }
        true
    }

    /// Places a `width` by `height` rectangle, or returns `None` when no
    /// position tried has room for it.
    pub fn allocate(&mut self, width: u32, height: u32) -> (r: Option<Rect>)
        requires
            old(self).wf(),
        ensures
            final(self).wf(),
            final(self).side() == old(self).side(),
            match r {
                Some(rect) => {
                    &&& rect.width == width
                    &&& rect.height == height
                    &&& old(self).fits(rect)
                    &&& final(self).rects() == old(self).rects().push(rect)
                },
                None => {
                    &&& *final(self) == *old(self)
                    &&& (width == 0 || height == 0 || width > old(self).side() || height
                        > old(self).side() || old(self).no_room(width, height))
                },
            },
            (width == 0 || height == 0 || width > old(self).side() || height > old(self).side())
                ==> r is None,
            r is Some ==> !old(self).no_room(width, height),
            r is Some ==> old(self).first_fit(r.unwrap(), width, height),
            r is Some && (forall|k: int| 0 <= k < old(self).holes().len() ==> !#[trigger] old(self).hole_fits(k, width, height))
                ==> final(self).holes() == final(self).kept(old(self).holes()),
            forall|i: int|
                0 <= i < old(self).holes().len() && old(self).hole_fits(i, width, height) && (forall|k: int|
                    0 <= k < i ==> !#[trigger] old(self).hole_fits(k, width, height))
                    ==> final(self).holes() == final(self).kept(#[trigger] old(self).holes().remove(i)),
    {
        if width == 0 || height == 0 || width > self.side || height > self.side {
            return None;
        }
        let mut i: usize = 0;
        while i < self.holes.len()
            invariant
                self.wf(),
                *self == *old(self),
                width > 0,
                height > 0,
                i <= self.holes@.len(),
                forall|k: int|
                    0 <= k < i ==> !self.fits(
                        Rect::at((#[trigger] self.holes@[k]).x, self.holes@[k].y, width, height),
                    ),
            decreases self.holes@.len() - i,
        {
            let h = self.holes[i];
            if self.free_at(h.x, h.y, width, height) {
                let rect = Rect { x: h.x, y: h.y, width, height };
                assert(old(self).holes()[i as int] == h);
                assert(old(self).hole_fits(i as int, width, height));
                assert(old(self).first_fit(rect, width, height));
                self.holes.remove(i);
                assert(self.rects() == old(self).rects());
                let ghost rest = self.holes@;
                self.place(rect);
                proof {
                    assert forall|i2: int|
                        0 <= i2 < old(self).holes().len() && old(self).hole_fits(i2, width, height) && (forall|k: int|
                            0 <= k < i2 ==> !#[trigger] old(self).hole_fits(k, width, height)) implies i2 == i by {
                        if i2 < i {
                        } else if i2 > i {
                            assert(!old(self).hole_fits(i as int, width, height));
                        }
                    }
                }
                return Some(rect);
            }
            i = i + 1;
        }
        if self.free_at(0, 0, width, height) {
            let rect = Rect { x: 0, y: 0, width, height };
            assert(!old(self).no_room(width, height));
            assert(old(self).first_fit(rect, width, height));
            self.place(rect);
            return Some(rect);
        }
        let mut j: usize = 0;
        while j < self.placed.len()
            invariant
                self.wf(),
                *self == *old(self),
                width > 0,
                height > 0,
                j <= self.placed@.len(),
                forall|k: int|
                    0 <= k < self.holes@.len() ==> !self.fits(
                        Rect::at((#[trigger] self.holes@[k]).x, self.holes@[k].y, width, height),
                    ),
                !self.fits(Rect::at(0, 0, width, height)),
                forall|k: int| 0 <= k < j ==> self.corners_full(#[trigger] self.placed@[k], width, height),
            decreases self.placed@.len() - j,
        {
            let p = self.placed[j];
            assert(self.rects()[j as int] == p);
            let rx = p.x + p.width;
            let by = p.y + p.height;
            if self.free_at(rx, p.y, width, height) {
                let rect = Rect { x: rx, y: p.y, width, height };
                assert(!old(self).corners_full(old(self).rects()[j as int], width, height));
                assert(rect == Self::right_of(old(self).rects()[j as int], width, height));
                assert(old(self).first_fit(rect, width, height));
                self.place(rect);
                return Some(rect);
            }
            if self.free_at(p.x, by, width, height) {
                let rect = Rect { x: p.x, y: by, width, height };
                assert(!old(self).corners_full(old(self).rects()[j as int], width, height));
                assert(rect == Self::below(old(self).rects()[j as int], width, height));
                assert(old(self).first_fit(rect, width, height));
                self.place(rect);
                return Some(rect);
            }
            j = j + 1;
        }
        None
    }

    /// Neither the corner right of `p` nor the corner below it has room for
    /// a `width` by `height` rectangle.
    pub open spec fn corners_full(&self, p: Rect, width: u32, height: u32) -> bool {
        &&& !self.fits(Rect::at((p.x + p.width) as u32, p.y, width, height))
        &&& !self.fits(Rect::at(p.x, (p.y + p.height) as u32, width, height))
    }

    /// The freed rectangle at `k` has room, at its corner, for a `width` by
    /// `height` rectangle.
    pub open spec fn hole_fits(&self, k: int, width: u32, height: u32) -> bool {
        self.fits(Rect::at(self.holes()[k].x, self.holes()[k].y, width, height))
    }

    /// The request placed at the corner right of `p`.
    pub open spec fn right_of(p: Rect, width: u32, height: u32) -> Rect {
        Rect::at((p.x + p.width) as u32, p.y, width, height)
    }

    /// The request placed at the corner below `p`.
    pub open spec fn below(p: Rect, width: u32, height: u32) -> Rect {
        Rect::at(p.x, (p.y + p.height) as u32, width, height)
    }

    /// `rect` is where `allocate` puts a `width` by `height` request: the
    /// first position with room among the corners of the freed rectangles,
    /// the origin, then the corners right of and below each placed rectangle.
    pub open spec fn first_fit(&self, rect: Rect, width: u32, height: u32) -> bool {
        &&& rect.width == width
        &&& rect.height == height
        &&& self.fits(rect)
        &&& {
            ||| exists|i: int|
                0 <= i < self.holes().len() && rect.x == self.holes()[i].x && rect.y == self.holes()[i].y
                    && forall|k: int| 0 <= k < i ==> !#[trigger] self.hole_fits(k, width, height)
            ||| (forall|k: int| 0 <= k < self.holes().len() ==> !#[trigger] self.hole_fits(k, width, height))
                && ((rect.x == 0 && rect.y == 0) || (!self.fits(Rect::at(0, 0, width, height))
                && exists|j: int|
                0 <= j < self.rects().len() && (forall|m: int|
                    0 <= m < j ==> self.corners_full(#[trigger] self.rects()[m], width, height)) && (rect
                    == Self::right_of(self.rects()[j], width, height) || (!self.fits(
                    Self::right_of(self.rects()[j], width, height),
                ) && rect == Self::below(self.rects()[j], width, height)))))
        }
    }

    /// The rectangles of `s`, in order, that are wholly free here.
    pub open spec fn kept(&self, s: Seq<Rect>) -> Seq<Rect>
        decreases s.len(),
    {
        if s.len() == 0 {
            s
        } else {
            let r = self.kept(s.drop_last());
            if self.fits(s.last()) {
                r.push(s.last())
            } else {
                r
            }
        }
    }

    /// No position that `allocate` tries has room for a `width` by `height`
    /// rectangle.
    pub open spec fn no_room(&self, width: u32, height: u32) -> bool {
        &&& forall|k: int|
            0 <= k < self.holes().len() ==> !self.fits(
                Rect::at((#[trigger] self.holes()[k]).x, self.holes()[k].y, width, height),
            )
        &&& !self.fits(Rect::at(0, 0, width, height))
        &&& forall|k: int|
            0 <= k < self.rects().len() ==> self.corners_full(
                #[trigger] self.rects()[k],
                width,
                height,
            )
    }

    /// Forgets freed rectangles that are no longer wholly free.
    fn prune_holes(&mut self)
        requires
            old(self).wf(),
        ensures
            final(self).wf(),
            final(self).side() == old(self).side(),
            final(self).rects() == old(self).rects(),
            final(self).holes() == old(self).kept(old(self).holes()),
    {
        let mut kept: Vec<Rect> = Vec::new();
        let mut i: usize = 0;
        while i < self.holes.len()
            invariant
                self.wf(),
                *self == *old(self),
                i <= self.holes@.len(),
                kept@ == self.kept(self.holes@.subrange(0, i as int)),
            decreases self.holes@.len() - i,
        {
            let h = self.holes[i];
            let ghost pre = self.holes@.subrange(0, i as int + 1);
            assert(pre.drop_last() =~= self.holes@.subrange(0, i as int));
            assert(pre.last() == h);
            if h.width > 0 && h.height > 0 && self.free_at(h.x, h.y, h.width, h.height) {
                kept.push(h);
            }
            i = i + 1;
        }
        assert(self.holes@.subrange(0, i as int) =~= self.holes@);
        let ghost before = *self;
        self.holes = kept;
        assert(self.rects() == before.rects());
    }

    /// What `kept` keeps depends only on the side and the placed rectangles.
    proof fn lemma_kept_same(a: Allocator, b: Allocator, s: Seq<Rect>)
        requires
            a.rects() == b.rects(),
            a.side() == b.side(),
        ensures
            a.kept(s) == b.kept(s),
        decreases s.len(),
    {
        if s.len() > 0 {
            Self::lemma_kept_same(a, b, s.drop_last());
            assert(a.fits(s.last()) == b.fits(s.last()));
        }
    }

    fn place(&mut self, rect: Rect)
        requires
            old(self).wf(),
            old(self).fits(rect),
        ensures
            final(self).wf(),
            final(self).side() == old(self).side(),
            final(self).rects() == old(self).rects().push(rect),
            final(self).holes() == final(self).kept(old(self).holes()),
    {
        self.placed.push(rect);
        assert forall|i: int| 0 <= i < self.rects().len() implies {
            &&& (#[trigger] self.rects()[i]).has_area()
            &&& self.rects()[i].inside(self.side() as int)
        } by {
            if i < old(self).rects().len() {
                assert(self.rects()[i] == old(self).rects()[i]);
            }
        }
        assert forall|i: int, j: int|
            0 <= i < self.rects().len() && 0 <= j < self.rects().len() && i != j implies (
            #[trigger] self.rects()[i]).disjoint(#[trigger] self.rects()[j]) by {
            if i == self.rects().len() - 1 {
                assert(rect.disjoint(old(self).rects()[j]));
            } else if j == self.rects().len() - 1 {
                assert(rect.disjoint(old(self).rects()[i]));
            } else {
                assert(old(self).rects()[i].disjoint(old(self).rects()[j]));
            }
        }
        let ghost mid = *self;
        self.prune_holes();
        proof {
            Self::lemma_kept_same(mid, *self, old(self).holes());
        }
    }

    /// Returns the space of `rect` to the layer. The freed rectangle is
    /// remembered, so any request no larger than it fits again at its corner.
    pub fn deallocate(&mut self, rect: Rect)
        requires
            old(self).wf(),
        ensures
            final(self).wf(),
            final(self).side() == old(self).side(),
            old(self).rects().contains(rect) ==> {
                &&& exists|k: int|
                    0 <= k < old(self).rects().len() && old(self).rects()[k] == rect
                        && final(self).rects() == old(self).rects().remove(k)
                &&& final(self).holes().contains(rect)
                &&& forall|w: u32, h: u32|
                    0 < w <= rect.width && 0 < h <= rect.height ==> final(self).fits(
                        #[trigger] Rect::at(rect.x, rect.y, w, h),
                    )
            },
            !old(self).rects().contains(rect) ==> *final(self) == *old(self),
    {
        let mut i: usize = 0;
        while i < self.placed.len()
            invariant
                self.wf(),
                *self == *old(self),
                i <= self.placed@.len(),
                forall|k: int| 0 <= k < i ==> self.placed@[k] != rect,
            decreases self.placed@.len() - i,
        {
            if self.placed[i] == rect {
                let ghost before = self.rects();
                self.placed.remove(i);
                self.holes.push(rect);
                assert(self.holes().last() == rect);
                assert forall|w: u32, h: u32|
                    0 < w <= rect.width && 0 < h <= rect.height implies self.fits(
                        #[trigger] Rect::at(rect.x, rect.y, w, h),
                    ) by {
                    let small = Rect::at(rect.x, rect.y, w, h);
                    assert forall|k: int| 0 <= k < self.rects().len() implies small.disjoint(
                        #[trigger] self.rects()[k],
                    ) by {
                        let o = if k < i { k } else { k + 1 };
                        assert(self.rects()[k] == before[o]);
                        assert(before[i as int].disjoint(before[o]));
                    }
                }
                assert forall|a: int, b: int|
                    0 <= a < self.rects().len() && 0 <= b < self.rects().len() && a != b implies (
                    #[trigger] self.rects()[a]).disjoint(#[trigger] self.rects()[b]) by {
                    let oa = if a < i { a } else { a + 1 };
                    let ob = if b < i { b } else { b + 1 };
                    assert(before[oa].disjoint(before[ob]));
                }
                assert(before[i as int] == rect);
                return;
            }
            i = i + 1;
        }
        assert(!self.rects().contains(rect));
    }

    /// Frees every rectangle: the layer is as new.
    pub fn clear(&mut self)
        ensures
            final(self).wf(),
            final(self).side() == old(self).side(),
            final(self).rects() == Seq::<Rect>::empty(),
            final(self).holes() == Seq::<Rect>::empty(),
    {
        self.placed.clear();
        self.holes.clear();
    }
}

} // verus!
