//! Spatial reference systems.
use vstd::prelude::*;

verus! {

/// Spatial reference system identifier.
#[derive(Debug)]
pub struct SpatialRef {
    /// EPSG code (4326 = WGS84).
    pub epsg: u32,
    /// Human-readable name.
    pub name: String,
}

impl Default for SpatialRef {
    /// WGS 84 (EPSG 4326).
    fn default() -> (r: SpatialRef)
        ensures
            r.epsg == 4326,
            r.name@ == "WGS 84"@,
    {
        SpatialRef { epsg: 4326, name: "WGS 84".to_owned() }
    }
}

} // verus!
