//! Core of a 3D spatial-transform library: channel masks for visibility
//! filtering, rotation-order codes for Euler angles, integer math helpers,
//! and a hierarchical scene graph that owns local transforms and schedules
//! world-transform propagation.
//!
//! The numeric payload of a transform (positions, quaternions, matrices) is
//! carried as opaque 32-bit component encodings supplied by the caller; the
//! floating-point algebra over those components is performed outside this
//! library, which owns the structure: the parent/child tree, its invariants,
//! and the update schedule.

pub mod euler;
pub mod layers;
pub mod math_static;
pub mod object3d;
