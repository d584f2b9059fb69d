use fabbula::cli::parse_layer_spec;
use fabbula::gds::boundary_points;
use fabbula::pdk::{alt_layer_collides, ArtworkLayerConfig};
use fabbula::polygon::Rect;

#[test]
fn boundary_is_closed_and_shifted() {
    let pts = boundary_points(&Rect::new(0, 0, 10, 20), 5, -5);
    assert_eq!(pts, vec![(5, -5), (15, -5), (15, 15), (5, 15), (5, -5)]);
}

#[test]
fn alt_layer_collision() {
    let a = ArtworkLayerConfig { name: "met5".into(), gds_layer: 72, gds_datatype: 20, purpose: String::new() };
    let b = ArtworkLayerConfig { name: "met4".into(), gds_layer: 71, gds_datatype: 20, purpose: String::new() };
    let c = ArtworkLayerConfig { name: "met5b".into(), gds_layer: 72, gds_datatype: 20, purpose: String::new() };
    assert!(!alt_layer_collides(&a, None));
    assert!(!alt_layer_collides(&a, Some(&b)));
    assert!(alt_layer_collides(&a, Some(&c)));
    assert_eq!(parse_layer_spec("72/20"), Ok((a.gds_layer, a.gds_datatype)));
}
