//! Tests of the string-keyed typed property bag.

use vrp_core::dimens::{DimenValue, Dimensions};

#[test]
fn empty_bag_has_no_keys() {
    let d = Dimensions::new();
    assert!(d.get("type").is_none());
    assert!(d.get_str("type").is_none());
    assert!(d.get_int("shift_index").is_none());
    assert!(d.get_id().is_none());
}

#[test]
fn typed_accessors_see_their_own_type_only() {
    let mut d = Dimensions::new();
    d.set_str("type", "break");
    d.set_int("shift_index", 2);
    assert_eq!(d.get_str("type").unwrap(), "break");
    assert_eq!(d.get_int("shift_index"), Some(2));
    // wrong-typed reads fail instead of casting
    assert!(d.get_int("type").is_none());
    assert!(d.get_str("shift_index").is_none());
    // missing key
    assert!(d.get("vehicle_id").is_none());
}

#[test]
fn later_binding_shadows_earlier_one() {
    let mut d = Dimensions::new();
    d.set_str("vehicle_id", "v1");
    d.set_str("vehicle_id", "v2");
    assert_eq!(d.get_str("vehicle_id").unwrap(), "v2");
    d.set_int("vehicle_id", 9);
    assert!(d.get_str("vehicle_id").is_none());
    assert_eq!(d.get_int("vehicle_id"), Some(9));
}

#[test]
fn id_tag_round_trip() {
    let mut d = Dimensions::new();
    d.set_id("vehicle_7");
    assert_eq!(d.get_id().unwrap(), "vehicle_7");
    assert!(matches!(d.get("id"), Some(DimenValue::Str(_))));
}
