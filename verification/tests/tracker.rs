use proximity_lights::ble_device_mgr::DeviceTracker;

fn tracker() -> DeviceTracker {
    DeviceTracker::new(b"FAV".to_vec(), 200)
}

#[test]
fn admission_range() {
    let mut t = tracker();
    t.update(1, b"peer", -90, 0);
    assert_eq!(t.devices.len(), 0);
    t.update(1, b"peer", -44, 0);
    assert_eq!(t.devices.len(), 0);
    t.update(1, b"peer", -80, 0);
    assert_eq!(t.devices.len(), 1);
    t.update(2, b"other", -45, 0);
    assert_eq!(t.devices.len(), 2);
}

#[test]
fn favorite_always_admitted() {
    let mut t = tracker();
    t.update(7, b"xxFAVyy:120", -30, 0);
    assert_eq!(t.devices.len(), 1);
    assert!(t.devices[0].is_favorite);
    assert_eq!(t.devices[0].favorite_color, Some(120));
}

#[test]
fn favorite_color_falls_back_on_malformed_payload() {
    let mut t = tracker();
    t.update(1, b"FAV:12x", -50, 0);
    assert_eq!(t.devices[0].favorite_color, Some(200));
    let mut t2 = tracker();
    t2.update(1, b"FAV", -50, 0);
    assert_eq!(t2.devices[0].favorite_color, Some(200));
    let mut t3 = tracker();
    t3.update(1, b"FAV:1234", -50, 0);
    assert_eq!(t3.devices[0].favorite_color, Some(200));
    let mut t4 = tracker();
    t4.update(1, b"FAV:370", -50, 0);
    assert_eq!(t4.devices[0].favorite_color, Some(10));
    let mut t5 = tracker();
    t5.update(1, b"FAV:45:junk", -50, 0);
    assert_eq!(t5.devices[0].favorite_color, Some(45));
}

#[test]
fn update_refreshes_existing_peer() {
    let mut t = tracker();
    t.update(1, b"p", -60, 0);
    t.update(1, b"p", -70, 3);
    assert_eq!(t.devices.len(), 1);
    assert_eq!(t.devices[0].signal_strength.peek_last(), -70);
    assert_eq!(t.devices[0].signal_strength.get_avg(), -65);
}

#[test]
fn decay_degrades_and_evicts() {
    let mut t = tracker();
    t.update(1, b"p", -60, 0);
    // within the decay delay nothing changes
    t.decay_tick(3);
    assert_eq!(t.devices.len(), 1);
    assert_eq!(t.devices[0].signal_strength.get_avg(), -60);
    // past the delay the filtered signal worsens until eviction
    let mut last = -60;
    let mut ticks = 0;
    while !t.devices.is_empty() && ticks < 20 {
        t.decay_tick(10);
        if let Some(d) = t.devices.first() {
            let avg = d.signal_strength.get_avg();
            assert!(avg < last);
            last = avg;
        }
        ticks += 1;
    }
    assert!(t.devices.is_empty());
    // an evicted peer never reappears without a fresh observation
    t.decay_tick(11);
    assert!(t.devices.is_empty());
    // a fresh observation readmits it
    t.update(1, b"p", -60, 12);
    assert_eq!(t.devices.len(), 1);
}

#[test]
fn observation_resets_decay() {
    let mut t = tracker();
    t.update(1, b"p", -60, 0);
    t.decay_tick(10);
    let decayed = t.devices[0].signal_strength.get_avg();
    assert!(decayed < -60);
    // a new observation clears the decaying state
    t.update(1, b"p", -60, 10);
    t.decay_tick(12);
    // still within the delay of the new observation: no synthetic sample
    assert_eq!(t.devices[0].signal_strength.peek_last(), -60);
}

#[test]
fn snapshot_copies_ranking_fields() {
    let mut t = tracker();
    t.update(1, b"p", -60, 0);
    t.update(2, b"FAV:90", -50, 0);
    let snap = t.snapshot();
    assert_eq!(snap.len(), 2);
    assert_eq!(snap[0].address, 1);
    assert!(!snap[0].is_favorite);
    assert_eq!(snap[0].rssi, -60);
    assert_eq!(snap[1].address, 2);
    assert!(snap[1].is_favorite);
    assert_eq!(snap[1].favorite_color, Some(90));
    assert_eq!(snap[1].rssi, -50);
}
