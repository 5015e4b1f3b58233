use proximity_lights::color_alloc::{ColorAllocator, COLOR_POOL_SIZE, HUE_STEP};

#[test]
fn allocate_prefers_minimal_usage() {
    let mut a = ColorAllocator::new();
    let h1 = a.allocate_color();
    assert!(h1 < 360);
    assert_eq!(h1 % HUE_STEP, 0);
    assert_eq!(a.usage_of(h1), 1);
    // one hue is now in use, so a zero-usage hue must win the next draw
    let h2 = a.allocate_color();
    assert_ne!(h1, h2);
    assert_eq!(a.usage_of(h2), 1);
}

#[test]
fn usage_stays_within_pool_budget() {
    let mut a = ColorAllocator::new();
    let mut held: Vec<u16> = Vec::new();
    for _ in 0..COLOR_POOL_SIZE {
        held.push(a.allocate_color());
    }
    // a full round of allocations uses every hue exactly once
    let mut total: usize = 0;
    for i in 0..COLOR_POOL_SIZE as u16 {
        assert_eq!(a.usage_of(i * HUE_STEP), 1);
        total += a.usage_of(i * HUE_STEP);
    }
    assert_eq!(total, COLOR_POOL_SIZE);
    // releases return the pool to empty
    for h in held {
        a.release_color(h);
    }
    for i in 0..COLOR_POOL_SIZE as u16 {
        assert_eq!(a.usage_of(i * HUE_STEP), 0);
    }
}

#[test]
fn release_floors_at_zero_and_ignores_foreign_hue() {
    let mut a = ColorAllocator::new();
    a.release_color(0);
    assert_eq!(a.usage_of(0), 0);
    // a hue that is not in the pool is ignored
    a.release_color(7);
    let h = a.allocate_color();
    assert_eq!(a.usage_of(h), 1);
}
