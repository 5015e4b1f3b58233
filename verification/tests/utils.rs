use proximity_lights::utils::{num_linear_conversion, MovingAvg};

#[test]
fn test_moving_avg() {
    let mut avg = MovingAvg::<3>::new();
    avg.push(1);
    avg.push(2);
    avg.push(3);
    assert_eq!(avg.get_avg(), 2);
    avg.push(4);
    assert_eq!(avg.get_avg(), 3);
    avg.push(5);
    assert_eq!(avg.get_avg(), 4);
    avg.push(6);
    assert_eq!(avg.get_avg(), 5);
}

#[test]
fn peek_last() {
    let mut avg = MovingAvg::<3>::new();
    avg.push(1);
    assert_eq!(avg.peek_last(), 1);
    avg.push(2);
    assert_eq!(avg.peek_last(), 2);
    avg.push(3);
    assert_eq!(avg.peek_last(), 3);
    avg.push(4);
    assert_eq!(avg.peek_last(), 4);
    avg.push(5);
    assert_eq!(avg.peek_last(), 5);
    avg.push(6);
    assert_eq!(avg.peek_last(), 6);
}

#[test]
fn moving_avg_truncates_toward_zero() {
    let mut avg = MovingAvg::<5>::new();
    avg.push(-60);
    avg.push(-66);
    assert_eq!(avg.get_avg(), -63);
    avg.push(-71);
    // -197 / 3 rounds toward zero
    assert_eq!(avg.get_avg(), -65);
}

#[test]
fn linear_conversion_maps_and_clamps() {
    assert_eq!(num_linear_conversion(5, 0, 10, 0, 100), 50);
    assert_eq!(num_linear_conversion(-5, 0, 10, 0, 100), 0);
    assert_eq!(num_linear_conversion(15, 0, 10, 0, 100), 100);
    assert_eq!(num_linear_conversion(-55, -70, -55, 0, 1000), 1000);
    assert_eq!(num_linear_conversion(-70, -70, -55, 0, 1000), 0);
    assert_eq!(num_linear_conversion(-62, -70, -55, 0, 1000), 533);
}
