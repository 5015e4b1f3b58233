use proximity_lights::ble_device_mgr::SnapshotEntry;
use proximity_lights::light_mgr::{LightMgr, NUM_LIGHTS, NUM_TRANSITIONAL_STEPS};
use proximity_lights::light_state::{AvgPixel, DeviceLightState, FavoriteLightState};
use proximity_lights::messages::{DisplaySortMode, LightControls};

fn blank_strip() -> Vec<AvgPixel> {
    let mut v = Vec::new();
    for _ in 0..NUM_LIGHTS {
        v.push(AvgPixel::black());
    }
    v
}

fn entry(address: u64, rssi: i32) -> SnapshotEntry {
    SnapshotEntry { address, is_favorite: false, favorite_color: None, rssi }
}

#[test]
fn device_light_state_tick() {
    let d = DeviceLightState {
        address: 1,
        rssi: 0,
        color: 0,
        current_rank_slot: 10,
        target_rank_slot: 0,
        steps_remaining: NUM_TRANSITIONAL_STEPS / 3,
    };
    assert_eq!(d.get_target_pixel(), 28665);
    let d2 = DeviceLightState { current_rank_slot: 0, target_rank_slot: 10, ..d };
    assert_eq!(d2.get_target_pixel(), 45335);
}

#[test]
fn settled_slots_sit_at_their_centers() {
    let d = DeviceLightState {
        address: 1,
        rssi: 0,
        color: 0,
        current_rank_slot: 0,
        target_rank_slot: 0,
        steps_remaining: 0,
    };
    assert_eq!(d.get_target_pixel(), 12000);
    let d9 = DeviceLightState { current_rank_slot: 9, target_rank_slot: 9, ..d };
    assert_eq!(d9.get_target_pixel(), 57000);
}

#[test]
fn compositor_lights_settled_slot_center() {
    let mut d = DeviceLightState {
        address: 1,
        rssi: 0,
        color: 0,
        current_rank_slot: 0,
        target_rank_slot: 0,
        steps_remaining: 0,
    };
    let mut strip = blank_strip();
    d.tick(1000, &mut strip);
    let red: Vec<u32> = strip.iter().map(|p| p.red).collect();
    // a settled peer sits exactly on its slot's center pixel, with the
    // flanks fading by the falloff factor inside the slot
    assert_eq!(red[12], 1000);
    assert_eq!(red[11], 500);
    assert_eq!(red[13], 500);
    assert_eq!(red[10], 250);
    assert_eq!(red[14], 250);
    assert_eq!(red[9], 0);
    assert_eq!(red[15], 0);
    for p in &strip {
        assert_eq!(p.green, 0);
        assert_eq!(p.blue, 0);
    }
    assert_eq!(d.steps_remaining, 0);
    assert_eq!(d.current_rank_slot, 0);
}

#[test]
fn compositor_antialiases_between_pixels() {
    // halfway through a one-slot move the position is 14.5 pixels:
    // each contribution splits evenly over its two nearest pixels
    let mut d = DeviceLightState {
        address: 1,
        rssi: 0,
        color: 0,
        current_rank_slot: 1,
        target_rank_slot: 0,
        steps_remaining: NUM_TRANSITIONAL_STEPS / 2,
    };
    let mut strip = blank_strip();
    assert_eq!(d.get_target_pixel(), 14500);
    d.tick(1000, &mut strip);
    let red: Vec<u32> = strip.iter().map(|p| p.red).collect();
    assert_eq!(red[14], 625);
    assert_eq!(red[15], 625);
    assert_eq!(red[13], 344);
    assert_eq!(red[16], 344);
    assert_eq!(red[12], 125);
    assert_eq!(red[17], 125);
    assert_eq!(red[11], 0);
    assert_eq!(red[18], 0);
    assert_eq!(d.steps_remaining, NUM_TRANSITIONAL_STEPS / 2 - 1);
}

#[test]
fn favorite_bar_width_follows_signal() {
    let mut strip = blank_strip();
    FavoriteLightState { rssi: -62, color: 100 }.tick(1000, &mut strip);
    for p in 0..NUM_LIGHTS {
        let lit = strip[p].red + strip[p].green + strip[p].blue > 0;
        assert_eq!(lit, (2..=7).contains(&p));
    }
    let mut strong = blank_strip();
    FavoriteLightState { rssi: -55, color: 100 }.tick(1000, &mut strong);
    for p in 0..10 {
        assert!(strong[p].red + strong[p].green + strong[p].blue > 0);
    }
    for p in 10..NUM_LIGHTS {
        assert_eq!(strong[p].red + strong[p].green + strong[p].blue, 0);
    }
    let mut weak = blank_strip();
    FavoriteLightState { rssi: -70, color: 100 }.tick(1000, &mut weak);
    for p in 0..NUM_LIGHTS {
        assert_eq!(weak[p].red + weak[p].green + weak[p].blue, 0);
    }
}

#[test]
fn brightness_controls_clamp() {
    let mut m = LightMgr::new(DisplaySortMode::Ordered);
    assert_eq!(m.brightness_level, 3);
    assert_eq!(m.brightness, 93);
    assert_eq!(m.get_tick_interval(), 33);
    for _ in 0..20 {
        m.increase_brightness();
    }
    assert_eq!(m.brightness_level, 10);
    assert_eq!(m.brightness, 1000);
    for _ in 0..20 {
        m.decrease_brightness();
    }
    assert_eq!(m.brightness_level, 1);
    assert_eq!(m.brightness, 47);
    m.apply_control(LightControls::BrightnessIncrease);
    assert_eq!(m.brightness_level, 2);
    m.apply_control(LightControls::ModeChange(DisplaySortMode::Sticky));
    assert_eq!(m.mode, DisplaySortMode::Sticky);
}

#[test]
fn ranking_end_to_end() {
    let mut m = LightMgr::new(DisplaySortMode::Ordered);
    let snap = vec![entry(1, -50), entry(2, -60)];
    for _ in 0..=NUM_TRANSITIONAL_STEPS {
        let out = m.tick(&snap);
        assert_eq!(out.len(), NUM_LIGHTS);
    }
    let d1 = m.displayed_devices.iter().find(|d| d.address == 1).unwrap();
    let d2 = m.displayed_devices.iter().find(|d| d.address == 2).unwrap();
    // the stronger peer holds the slot nearer the favorite-reserved zone
    assert_eq!(d1.current_rank_slot, 0);
    assert_eq!(d1.target_rank_slot, 0);
    assert_eq!(d2.current_rank_slot, 1);
    assert_eq!(d2.target_rank_slot, 1);
    assert!(d1.get_target_pixel() < d2.get_target_pixel());
}

#[test]
fn eviction_end_to_end() {
    let mut m = LightMgr::new(DisplaySortMode::Ordered);
    let snap = vec![entry(9, -55)];
    // let the peer fully enter its slot
    for _ in 0..=NUM_TRANSITIONAL_STEPS {
        m.tick(&snap);
    }
    assert_eq!(m.displayed_devices.len(), 1);
    assert_eq!(m.displayed_devices[0].current_rank_slot, 0);
    let hue = m.displayed_devices[0].color;
    assert_eq!(m.color_allocator.usage_of(hue), 1);
    // the peer disappears from the tracker: it animates out, then its
    // entry is purged and its hue released exactly once
    let empty: Vec<SnapshotEntry> = Vec::new();
    let mut gone_at = None;
    let mut i = 0;
    while i < NUM_TRANSITIONAL_STEPS + 5 {
        m.tick(&empty);
        if m.displayed_devices.is_empty() {
            gone_at = Some(i);
            break;
        }
        i += 1;
    }
    assert!(gone_at.is_some());
    assert!(gone_at.unwrap() <= NUM_TRANSITIONAL_STEPS);
    assert_eq!(m.color_allocator.usage_of(hue), 0);
}

#[test]
fn favorite_indicator_follows_tracker() {
    let mut m = LightMgr::new(DisplaySortMode::Ordered);
    let snap = vec![SnapshotEntry {
        address: 5,
        is_favorite: true,
        favorite_color: Some(120),
        rssi: -52,
    }];
    let out = m.tick(&snap);
    assert_eq!(out.len(), NUM_LIGHTS);
    let f = m.favorite_device.unwrap();
    assert_eq!(f.color, 120);
    assert_eq!(f.rssi, -52);
    // a strong favorite lights the reserved zone
    assert!(out[5].r > 0 || out[5].g > 0 || out[5].b > 0);
    // once the favorite is gone the indicator clears
    let empty: Vec<SnapshotEntry> = Vec::new();
    m.tick(&empty);
    assert!(m.favorite_device.is_none());
}
