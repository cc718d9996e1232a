use pce::float64::F64;
use pce::render::{lod_band, Axes, CullShape};
use pce::value::Value;

fn n(x: f64) -> F64 {
    F64 { bits: x.to_bits() }
}

#[test]
fn lod_band_maps_distance_to_level() {
    let th = [n(10.0), n(50.0), n(200.0)];
    assert_eq!(lod_band(n(5.0), &th), 0);
    assert_eq!(lod_band(n(10.0), &th), 1);
    assert_eq!(lod_band(n(30.0), &th), 1);
    assert_eq!(lod_band(n(100.0), &th), 2);
    assert_eq!(lod_band(n(500.0), &th), 3);
    assert_eq!(lod_band(n(0.0), &[]), 0);
}

#[test]
fn axes_project_vec3_and_map() {
    let v = Value::vec3(n(1.0), n(2.0), n(3.0));
    assert_eq!(Axes::XY.project(&v), Some((n(1.0), n(2.0))));
    assert_eq!(Axes::XZ.project(&v), Some((n(1.0), n(3.0))));
    assert_eq!(Axes::YZ.project(&v), Some((n(2.0), n(3.0))));
    let m = Value::map(vec![
        ("x".to_string(), Value::Float(n(4.0))),
        ("y".to_string(), Value::Float(n(5.0))),
        ("z".to_string(), Value::Float(n(6.0))),
    ]);
    assert_eq!(Axes::XZ.project(&m), Some((n(4.0), n(6.0))));
    assert_eq!(Axes::XY.project(&Value::Null), None);
}

#[test]
fn cull_shape_validity() {
    assert!(CullShape::Radius(n(5.0)).is_valid());
    assert!(!CullShape::Radius(n(0.0)).is_valid());
    assert!(!CullShape::Radius(n(f64::NAN)).is_valid());
    assert!(CullShape::Aabb { hx: n(1.0), hy: n(2.0) }.is_valid());
    assert!(!CullShape::Aabb { hx: n(1.0), hy: n(-1.0) }.is_valid());
}

#[test]
fn components_that_are_not_finite_have_no_place_on_the_plane() {
    let v = Value::vec3(n(f64::INFINITY), n(2.0), n(3.0));
    assert_eq!(Axes::XY.project(&v), None);
    assert_eq!(Axes::YZ.project(&v), Some((n(2.0), n(3.0))));
    assert_eq!(Axes::XZ.idx(), (0, 2));
    assert_eq!(Axes::XZ.names(), ("x", "z"));
}
