use kovia::protocol::{
    BrushSettings, CameraSummary, FeatureId, LayerId, MapSnapshot, MapTool, RegionCode, RegionRef,
};
use uuid::Uuid;

#[test]
fn region_references_are_layer_scoped() {
    let a = RegionRef { layer: LayerId(Uuid::nil().as_u128()), code: RegionCode(1) };
    let b = RegionRef { layer: LayerId(Uuid::from_u128(1).as_u128()), code: RegionCode(1) };
    assert_ne!(a, b);
}

#[test]
fn fresh_ids_are_version_four_uuids() {
    let a = FeatureId::new();
    let b = LayerId::new();
    assert_eq!(Uuid::from_u128(a.0).get_version_num(), 4);
    assert_eq!(Uuid::from_u128(b.0).get_version_num(), 4);
    assert_eq!(Uuid::from_u128(a.0).get_variant(), uuid::Variant::RFC4122);
    assert_ne!(FeatureId::new(), FeatureId::new());
}

#[test]
fn defaults_match_the_shell() {
    let brush = BrushSettings::default();
    assert_eq!(f32::from_bits(brush.radius_cells), 8.0);
    assert_eq!(f32::from_bits(brush.strength), 35.0);
    let camera = CameraSummary::default();
    assert_eq!(f32::from_bits(camera.distance), 22.0);
    assert_eq!(f32::from_bits(camera.yaw), 0.72);
    assert_eq!(f32::from_bits(camera.pitch), -0.68);
    let snapshot = MapSnapshot::default();
    assert_eq!(snapshot.active_tool, MapTool::Sculpt);
    assert_eq!(snapshot.status, "Atlas ready");
    assert_eq!(snapshot.revision, 0);
    assert!(!snapshot.undo_available);
    assert_eq!(RegionCode::unassigned(), RegionCode(0));
}
