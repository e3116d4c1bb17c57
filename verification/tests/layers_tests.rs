use transform3d::layers::Layers;

#[test]
fn new_has_only_channel_zero() {
    let fresh = Layers::new();
    let zero_only = Layers::new();
    assert!(fresh.test(&zero_only));
    let mut five_only = Layers::new();
    five_only.set(5);
    assert!(!fresh.test(&five_only));
    for ch in 1..64u64 {
        let mut single = Layers::new();
        single.set(ch);
        assert!(!fresh.test(&single));
    }
}

#[test]
fn enable_adds_a_channel() {
    let mut layers = Layers::new();
    layers.enable(5);
    let mut five_only = Layers::new();
    five_only.set(5);
    assert!(layers.test(&five_only));
    // channel 0 is still enabled too
    assert!(layers.test(&Layers::new()));
}

#[test]
fn disable_removes_a_channel() {
    let mut layers = Layers::new();
    layers.disable(0);
    assert!(!layers.test(&Layers::new()));
}

#[test]
fn set_replaces_the_mask() {
    let mut layers = Layers::new();
    layers.set(7);
    let mut seven_only = Layers::new();
    seven_only.set(7);
    assert!(layers.test(&seven_only));
    assert!(!layers.test(&Layers::new()));
}

#[test]
fn toggle_flips_a_channel() {
    let mut layers = Layers::new();
    let mut three_only = Layers::new();
    three_only.set(3);
    layers.toggle(3);
    assert!(layers.test(&three_only));
    layers.toggle(3);
    assert!(!layers.test(&three_only));
    // toggling channel 3 never touched channel 0
    assert!(layers.test(&Layers::new()));
}

#[test]
fn test_is_symmetric_on_examples() {
    let mut a = Layers::new();
    a.set(9);
    a.enable(17);
    let mut b = Layers::new();
    b.set(17);
    assert!(a.test(&b));
    assert!(b.test(&a));
    b.set(18);
    assert!(!a.test(&b));
    assert!(!b.test(&a));
}
