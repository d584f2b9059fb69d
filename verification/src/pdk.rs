//! PDK metadata and layer descriptions.
use vstd::prelude::*;

verus! {

/// PDK metadata.
#[derive(Debug, Clone)]
pub struct PdkInfo {
    pub name: String,
    pub description: String,
    pub node_nm: u32,
    pub db_units_per_um: u32,
}

/// The GDS layer to place artwork on.
#[derive(Debug, Clone)]
pub struct ArtworkLayerConfig {
    pub name: String,
    pub gds_layer: i16,
    pub gds_datatype: i16,
    pub purpose: String,
}

/// A metal layer in the stack (for reference / rendering).
#[derive(Debug, Clone)]
pub struct MetalLayerInfo {
    pub name: String,
    pub gds_layer: i16,
    pub gds_datatype: i16,
}

/// Whether an alternative artwork layer sits on the same GDS layer and
/// datatype as the primary one, which a PDK configuration must not do.
pub fn alt_layer_collides(primary: &ArtworkLayerConfig, alt: Option<&ArtworkLayerConfig>) -> (r: bool)
    ensures
        r == (alt matches Some(a) && a.gds_layer == primary.gds_layer && a.gds_datatype
            == primary.gds_datatype),
{
    match alt {
        Some(a) => a.gds_layer == primary.gds_layer && a.gds_datatype == primary.gds_datatype,
        None => false,
    }
}

}
