//! The Earth model used by the surrounding coordinate code.

use vstd::prelude::*;

verus! {

/// Marker for the WGS-84 Earth model.  Its numeric constants (flattening,
/// eccentricity, radii, angular speed) are floating point and are defined
/// beside the coordinate conversions that consume them; the transport core
/// itself never computes with them.
pub struct Earth {}

} // verus!
