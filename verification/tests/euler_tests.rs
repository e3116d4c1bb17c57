use transform3d::euler::RotationOrders;

#[test]
fn order_codes_round_trip() {
    let orders = [
        RotationOrders::XYZ,
        RotationOrders::YZX,
        RotationOrders::ZXY,
        RotationOrders::XZY,
        RotationOrders::YXZ,
        RotationOrders::ZYX,
    ];
    for (expected_code, order) in orders.iter().enumerate() {
        let code = order.to_code();
        assert_eq!(code as usize, expected_code);
        assert_eq!(RotationOrders::from_code(code), Some(*order));
    }
}

#[test]
fn invalid_order_codes_are_rejected() {
    assert_eq!(RotationOrders::from_code(6), None);
    assert_eq!(RotationOrders::from_code(7), None);
    assert_eq!(RotationOrders::from_code(255), None);
}

#[test]
fn default_order_is_xyz() {
    assert_eq!(RotationOrders::default(), RotationOrders::XYZ);
}
