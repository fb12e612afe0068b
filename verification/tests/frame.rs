use engine::cubesphere::Patch;
use engine::frame::{reserve, PatchCache, MIN_PATCHES};

fn patch(face: usize, i: u32) -> Patch {
    Patch { face, level: 4, i, j: 0 }
}

#[test]
fn a_patch_keeps_its_slot_while_it_is_needed() {
    let mut cache = PatchCache::new(4);
    cache.begin_frame();
    assert_eq!(cache.intern(patch(0, 1)), (0, true));
    assert_eq!(cache.intern(patch(0, 2)), (1, true));
    assert_eq!(cache.intern(patch(0, 1)), (0, false));
    cache.begin_frame();
    assert_eq!(cache.intern(patch(0, 2)), (1, false));
    assert_eq!(cache.intern(patch(0, 1)), (0, false));
}

#[test]
fn the_cursor_skips_slots_this_frame_needs() {
    let mut cache = PatchCache::new(4);
    cache.begin_frame();
    for i in 0..4 {
        assert_eq!(cache.intern(patch(1, i)), (i, true));
    }
    cache.begin_frame();
    // Slot 0 is needed again; the cursor is back at 0 and must pass it.
    assert_eq!(cache.intern(patch(1, 0)), (0, false));
    assert_eq!(cache.intern(patch(2, 0)), (1, true));
    // The evicted patch is gone: asking for it takes a fresh slot.
    assert_eq!(cache.intern(patch(1, 1)), (2, true));
    assert_eq!(cache.intern(patch(2, 0)), (1, false));
}

#[test]
fn the_capacity_is_twice_the_need_rounded_up() {
    assert_eq!(reserve(10, 64), None);
    assert_eq!(reserve(32, 64), None);
    assert_eq!(reserve(33, 64), Some(128));
    assert_eq!(reserve(0, 0), None);
    assert_eq!(reserve(1, 0), Some(MIN_PATCHES));
    assert_eq!(reserve(100, 64), Some(256));
    assert_eq!(reserve(128, 64), Some(256));
    let cache = PatchCache::new(reserve(5, 0).unwrap());
    assert_eq!(cache.capacity(), 64);
}
