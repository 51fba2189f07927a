use graphics::allocation::Allocation;
use graphics::allocator::Allocator;
use graphics::atlas::Atlas;
use graphics::atlas_set::{texture_row_bytes, AtlasSet, GrowPlan};
use graphics::rect::Rect;

fn key(s: &str) -> String {
    s.to_string()
}

fn sprites(size: u32, max_layers: u32) -> AtlasSet {
    AtlasSet::new(false, size, 16384, max_layers, 1)
}

fn glyphs(size: u32, max_layers: u32) -> AtlasSet {
    AtlasSet::new(true, size, 16384, max_layers, 1)
}

#[test]
fn new_clamps_size() {
    assert_eq!(sprites(16, 4).size(), (256, 256, 1));
    assert_eq!(AtlasSet::new(false, 100_000, 4096, 8, 2).size(), (4096, 4096, 2));
    assert_eq!(sprites(1024, 4).size(), (1024, 1024, 1));
}

#[test]
fn two_images_share_layer_zero() {
    let mut set = sprites(256, 4);
    let a = set.upload_with_alloc(key("a"), 64, 64, 7).unwrap();
    let b = set.upload_with_alloc(key("b"), 64, 64, 8).unwrap();
    assert_ne!(a.0, b.0);
    assert_eq!(a.0, 0);
    assert_eq!(b.0, 1);
    assert_eq!(a.1.layer, 0);
    assert_eq!(b.1.layer, 0);
    assert_eq!(a.1.position(), (0, 0));
    assert_eq!(b.1.position(), (64, 0));
    assert_eq!(a.1.size(), (64, 64));
    assert_eq!(a.1.data, 7);
    assert_eq!(b.1.data, 8);
}

#[test]
fn unused_image_is_evicted_before_a_layer_is_added() {
    let mut set = sprites(256, 4);
    let a = set.upload(key("a"), 64, 64, 0).unwrap();
    let b = set.upload(key("b"), 64, 64, 0).unwrap();
    assert_ne!(a, b);
    assert_eq!(set.get(a).unwrap().layer, 0);
    assert_eq!(set.get(b).unwrap().layer, 0);
    set.trim();
    assert!(set.get_by_key(&key("a")).is_some());
    let big = set.place(key("big"), 256, 256, 0).unwrap();
    assert!(big.fresh);
    assert_eq!(big.grow_by, 1);
    assert_eq!(big.allocation.layer, 1);
    assert_eq!(set.lookup(&key("b")), None);
    assert_eq!(set.lookup(&key("a")), Some(a));
    assert_eq!(set.size(), (256, 256, 2));
}

#[test]
fn full_single_layer_refuses_a_second_image() {
    let mut set = glyphs(256, 1);
    assert!(set.upload(key("first"), 256, 256, 0).is_some());
    assert_eq!(set.upload(key("second"), 256, 256, 0), None);
    assert_eq!(set.lookup(&key("second")), None);
    assert_eq!(set.size(), (256, 256, 1));
}

#[test]
fn full_single_layer_keeps_an_image_used_this_frame() {
    let mut set = sprites(256, 1);
    let first = set.upload(key("first"), 256, 256, 0).unwrap();
    assert!(set.get(first).is_some());
    assert_eq!(set.upload(key("second"), 256, 256, 0), None);
    assert_eq!(set.lookup(&key("first")), Some(first));
}

#[test]
fn unused_image_gives_way_in_a_full_single_layer() {
    let mut set = sprites(256, 1);
    let first = set.upload(key("first"), 256, 256, 0).unwrap();
    let second = set.upload(key("second"), 256, 256, 0).unwrap();
    assert_eq!(second, first);
    assert_eq!(set.lookup(&key("first")), None);
    assert_eq!(set.lookup(&key("second")), Some(second));
}

#[test]
fn reupload_returns_same_id_without_write() {
    let mut set = sprites(256, 4);
    let first = set.place(key("a"), 32, 32, 1).unwrap();
    assert!(first.fresh);
    let second = set.place(key("a"), 99, 99, 2).unwrap();
    assert!(!second.fresh);
    assert_eq!(second.grow_by, 0);
    assert_eq!(second.id, first.id);
    assert_eq!(second.allocation, first.allocation);
    assert_eq!(set.upload(key("a"), 32, 32, 1), Some(first.id));
}

#[test]
fn removed_key_is_gone_and_its_space_reused() {
    let mut set = glyphs(256, 4);
    let a = set.upload_with_alloc(key("a"), 100, 50, 0).unwrap();
    let _b = set.upload(key("b"), 100, 50, 0).unwrap();
    assert_eq!(set.remove_by_key(&key("a")), Some(0));
    assert_eq!(set.lookup(&key("a")), None);
    assert!(!set.contains(a.0));
    assert!(!set.contains_key(&key("a")));
    let c = set.upload_with_alloc(key("c"), 80, 40, 0).unwrap();
    assert_eq!(c.0, a.0);
    assert_eq!(c.1.layer, 0);
    assert_eq!(c.1.position(), a.1.position());
}

#[test]
fn shared_key_is_freed_on_last_removal() {
    let mut set = glyphs(256, 4);
    let id = set.upload(key("g"), 10, 12, 0).unwrap();
    assert_eq!(set.upload(key("g"), 10, 12, 0), Some(id));
    assert_eq!(set.upload(key("g"), 10, 12, 0), Some(id));
    assert_eq!(set.remove(id), None);
    assert!(set.get(id).is_some());
    assert_eq!(set.remove_by_key(&key("g")), None);
    assert!(set.get_by_key(&key("g")).is_some());
    assert_eq!(set.remove(id), Some(0));
    assert_eq!(set.lookup(&key("g")), None);
    assert_eq!(set.remove(id), None);
}

#[test]
fn without_ref_count_one_removal_frees() {
    let mut set = sprites(256, 4);
    let id = set.upload(key("s"), 10, 12, 0).unwrap();
    assert_eq!(set.upload(key("s"), 10, 12, 0), Some(id));
    assert_eq!(set.remove(id), Some(0));
    assert_eq!(set.lookup(&key("s")), None);
}

#[test]
fn clear_then_upload_matches_new_set() {
    let mut used = sprites(256, 4);
    used.upload(key("x"), 30, 30, 0).unwrap();
    used.upload(key("y"), 40, 40, 0).unwrap();
    used.upload(key("z"), 256, 256, 0).unwrap();
    used.remove_by_key(&key("x"));
    used.clear();
    assert_eq!(used.lookup(&key("y")), None);
    assert!(!used.contains(0));
    let mut fresh = sprites(256, 4);
    for (k, w, h) in [("p", 20u32, 10u32), ("q", 64, 64), ("r", 5, 200)] {
        let a = used.upload_with_alloc(key(k), w, h, 3).unwrap();
        let b = fresh.upload_with_alloc(key(k), w, h, 3).unwrap();
        assert_eq!(a, b);
    }
    assert_eq!(fresh.lookup(&key("r")), Some(2));
}

#[test]
fn oversize_image_always_fails() {
    let mut set = sprites(256, 4);
    assert_eq!(set.upload(key("wide"), 257, 1, 0), None);
    assert_eq!(set.upload(key("tall"), 1, 300, 0), None);
    set.upload(key("a"), 16, 16, 0).unwrap();
    assert_eq!(set.upload(key("wide"), 257, 1, 0), None);
    assert_eq!(set.upload(key("empty"), 0, 10, 0), None);
    assert_eq!(set.size(), (256, 256, 1));
}

#[test]
fn layer_ceiling_is_below_max_layers() {
    let mut set = glyphs(256, 3);
    let a = set.place(key("a"), 256, 256, 0).unwrap();
    let b = set.place(key("b"), 256, 256, 0).unwrap();
    assert_eq!(a.grow_by, 0);
    assert_eq!(b.grow_by, 1);
    assert_eq!(b.allocation.layer, 1);
    assert_eq!(set.place(key("c"), 256, 256, 0), None);
    assert_eq!(set.size(), (256, 256, 2));
}

#[test]
fn peek_does_not_mark_used() {
    let mut set = sprites(256, 1);
    let id = set.upload(key("a"), 256, 256, 4).unwrap();
    let (alloc, k) = set.peek(id).unwrap();
    assert_eq!(alloc.data, 4);
    assert_eq!(k, "a");
    assert_eq!(set.peek_by_key(&key("a")).unwrap().0.layer, 0);
    assert!(set.peek(id + 1).is_none());
    assert!(set.peek_by_key(&key("none")).is_none());
    assert!(set.upload(key("b"), 256, 256, 0).is_some());
    assert_eq!(set.lookup(&key("a")), None);
}

#[test]
fn promote_protects_until_trim() {
    let mut set = sprites(256, 1);
    let a = set.upload(key("a"), 256, 256, 0).unwrap();
    set.promote(a);
    assert_eq!(set.upload(key("b"), 256, 256, 0), None);
    set.trim();
    set.promote_by_key(key("a"));
    assert_eq!(set.upload(key("b"), 256, 256, 0), None);
    set.trim();
    assert!(set.upload(key("b"), 256, 256, 0).is_some());
    assert_eq!(set.lookup(&key("a")), None);
}

#[test]
fn least_recently_used_goes_first() {
    let mut set = sprites(256, 1);
    let a = set.upload(key("a"), 128, 256, 0).unwrap();
    let b = set.upload(key("b"), 128, 256, 0).unwrap();
    set.promote(a);
    set.trim();
    assert!(set.upload(key("c"), 128, 256, 0).is_some());
    assert!(set.contains(a));
    assert_eq!(set.lookup(&key("b")), None);
    assert!(!set.contains_key(&key("b")));
    let _ = b;
}

#[test]
fn unknown_ids_and_keys_are_absent() {
    let mut set = glyphs(256, 4);
    assert_eq!(set.lookup(&key("a")), None);
    assert_eq!(set.get(3), None);
    assert_eq!(set.get_by_key(&key("a")), None);
    assert_eq!(set.remove(3), None);
    assert_eq!(set.remove_by_key(&key("a")), None);
    assert!(!set.contains(0));
}

#[test]
fn grow_plan_copies_old_layers() {
    let mut set = glyphs(256, 8);
    assert_eq!(set.grow_plan(0), None);
    set.upload(key("a"), 256, 256, 0).unwrap();
    let p = set.place(key("b"), 256, 256, 0).unwrap();
    assert_eq!(set.grow_plan(p.grow_by), Some(GrowPlan { layer_count: 2, copy_layers: 1 }));
}

#[test]
fn row_bytes() {
    assert_eq!(texture_row_bytes(true, 64), Some(256));
    assert_eq!(texture_row_bytes(false, 64), Some(64));
    assert_eq!(texture_row_bytes(true, u32::MAX / 2), None);
}

#[test]
fn allocator_packs_without_overlap_and_reuses_holes() {
    let mut a = Allocator::new(100);
    let r1 = a.allocate(60, 60).unwrap();
    let r2 = a.allocate(40, 60).unwrap();
    let r3 = a.allocate(100, 40).unwrap();
    assert_eq!(r1, Rect { x: 0, y: 0, width: 60, height: 60 });
    assert_eq!(r2, Rect { x: 60, y: 0, width: 40, height: 60 });
    assert_eq!(r3, Rect { x: 0, y: 60, width: 100, height: 40 });
    assert_eq!(a.allocate(1, 1), None);
    assert_eq!(a.allocate(101, 1), None);
    assert_eq!(a.allocate(0, 1), None);
    a.deallocate(r2);
    assert_eq!(a.allocate(30, 50), Some(Rect { x: 60, y: 0, width: 30, height: 50 }));
    a.clear();
    assert_eq!(a.allocate(100, 100), Some(Rect { x: 0, y: 0, width: 100, height: 100 }));
}

#[test]
fn atlas_tracks_indexes() {
    let mut layer = Atlas::new(256);
    let r = layer.allocator.allocate(10, 10).unwrap();
    layer.insert_index(5);
    assert!(layer.indexes.contains(&5));
    layer.deallocate(5, r);
    assert!(!layer.indexes.contains(&5));
    assert_eq!(layer.allocator.allocate(10, 10), Some(r));
}

#[test]
fn allocation_accessors() {
    let a = Allocation { allocation: Rect { x: 3, y: 4, width: 5, height: 6 }, layer: 2, data: -1 };
    assert_eq!(a.position(), (3, 4));
    assert_eq!(a.size(), (5, 6));
}

#[test]
fn tuning_limits() {
    let set = sprites(256, 256);
    assert_eq!(set.deallocations_limit(), 32);
    assert_eq!(set.layer_check_limit(), 204);
    assert_eq!(set.layer_free_limit(), 3);
    assert_eq!(sprites(256, 7).layer_check_limit(), 5);
}

#[test]
fn ids_run_in_order_from_a_new_set() {
    let mut set = glyphs(256, 4);
    for (i, k) in ["a", "b", "c", "d"].iter().enumerate() {
        assert_eq!(set.upload(key(k), 16, 16, 0), Some(i));
    }
}

#[test]
fn first_upload_after_clear_is_at_origin_of_layer_zero() {
    let mut set = glyphs(256, 4);
    set.upload(key("a"), 256, 256, 0).unwrap();
    set.upload(key("b"), 30, 30, 0).unwrap();
    assert_eq!(set.size(), (256, 256, 2));
    set.clear();
    let p = set.place(key("c"), 40, 20, 9).unwrap();
    assert_eq!(p.id, 0);
    assert_eq!(p.allocation.layer, 0);
    assert_eq!(p.allocation.allocation, Rect { x: 0, y: 0, width: 40, height: 20 });
    assert!(p.fresh);
    assert_eq!(p.grow_by, 0);
}
