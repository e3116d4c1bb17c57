//! The axis-order conventions for Euler angles.
//!
//! An Euler rotation applies three axis rotations in one of six possible
//! orders.  For interop with flat numeric buffers the order is carried as a
//! small integer code in `0..=5`; a code read from external data must be
//! validated before it is turned back into an order.

use vstd::prelude::*;

verus! {

/// One of the six axis-composition orders for an Euler rotation.
#[derive(Clone, Copy, Debug, PartialEq, Eq, Structural)]
pub enum RotationOrders {
    XYZ,
    YZX,
    ZXY,
    XZY,
    YXZ,
    ZYX,
}

/// The integer code of each order, as stored in flat arrays.
pub open spec fn spec_order_code(o: RotationOrders) -> u8 {
    match o {
        RotationOrders::XYZ => 0,
        RotationOrders::YZX => 1,
        RotationOrders::ZXY => 2,
        RotationOrders::XZY => 3,
        RotationOrders::YXZ => 4,
        RotationOrders::ZYX => 5,
    }
}

/// The order a given integer code stands for, if the code is valid.
pub open spec fn spec_order_from_code(code: u8) -> Option<RotationOrders> {
    if code == 0 {
        Some(RotationOrders::XYZ)
    } else if code == 1 {
        Some(RotationOrders::YZX)
    } else if code == 2 {
        Some(RotationOrders::ZXY)
    } else if code == 3 {
        Some(RotationOrders::XZY)
    } else if code == 4 {
        Some(RotationOrders::YXZ)
    } else if code == 5 {
        Some(RotationOrders::ZYX)
    } else {
        None
    }
}

impl RotationOrders {
    /// The integer code of this order, for storage in a flat array slot.
    /// Decoding the code gives this order back.
    pub fn to_code(self) -> (c: u8)
        ensures
            c == spec_order_code(self),
            c <= 5,
            spec_order_from_code(c) == Some(self),
    {
        match self {
            RotationOrders::XYZ => 0,
            RotationOrders::YZX => 1,
            RotationOrders::ZXY => 2,
            RotationOrders::XZY => 3,
            RotationOrders::YXZ => 4,
            RotationOrders::ZYX => 5,
        }
    }

    /// Decode an order from an integer code found in external data.  Exactly
    /// the codes `0..=5` are valid; any other code is rejected rather than
    /// reinterpreted.
    pub fn from_code(code: u8) -> (r: Option<RotationOrders>)
        ensures
            r == spec_order_from_code(code),
            code <= 5 ==> r is Some && spec_order_code(r.unwrap()) == code,
            code > 5 ==> r is None,
    {
        if code == 0 {
            Some(RotationOrders::XYZ)
        } else if code == 1 {
            Some(RotationOrders::YZX)
        } else if code == 2 {
            Some(RotationOrders::ZXY)
        } else if code == 3 {
            Some(RotationOrders::XZY)
        } else if code == 4 {
            Some(RotationOrders::YXZ)
        } else if code == 5 {
            Some(RotationOrders::ZYX)
        } else {
            None
        }
    }
}

/// The process-wide default order is fixed rather than configurable through
/// hidden global state: rotations that do not say otherwise use `XYZ`.
impl Default for RotationOrders {
    fn default() -> (r: RotationOrders)
        ensures
            r == RotationOrders::XYZ,
    {
        RotationOrders::XYZ
    }
}

} // verus!
