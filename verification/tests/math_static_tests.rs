use transform3d::math_static::{generate_UUID, nearest_power_of_two};

#[test]
fn nearest_power_of_two_small_values() {
    assert_eq!(nearest_power_of_two(0), 1);
    assert_eq!(nearest_power_of_two(1), 1);
    assert_eq!(nearest_power_of_two(2), 2);
    assert_eq!(nearest_power_of_two(3), 4);
    assert_eq!(nearest_power_of_two(4), 4);
    assert_eq!(nearest_power_of_two(5), 4);
    assert_eq!(nearest_power_of_two(6), 8);
    assert_eq!(nearest_power_of_two(64), 64);
    assert_eq!(nearest_power_of_two(100), 128);
}

#[test]
fn nearest_power_of_two_log_scale_boundary() {
    // 181 * 181 = 32761 < 2 * 128 * 128 = 32768, so 181 is still nearer
    // to 128 on a logarithmic scale; 182 crosses over to 256.
    assert_eq!(nearest_power_of_two(181), 128);
    assert_eq!(nearest_power_of_two(182), 256);
}

#[test]
fn nearest_power_of_two_large_values() {
    assert_eq!(nearest_power_of_two(1 << 30), 1 << 30);
    assert_eq!(nearest_power_of_two(3_000_000_000), 1 << 31);
}

#[test]
#[allow(non_snake_case)]
fn generate_UUID_is_version_four() {
    let id = generate_UUID();
    assert_eq!(id.get_version_num(), 4);
    let other = generate_UUID();
    assert_ne!(id, other);
}
