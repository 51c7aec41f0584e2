use cs2_server_chooser::world::{JsonValue, field_of, load_world_map, polygon_ring_of, ring_point_of};

fn bits(x: f64) -> u64 {
    x.to_bits()
}

fn point(lon: u64, lat: u64) -> JsonValue {
    JsonValue::Array(vec![JsonValue::Number(Some(lon)), JsonValue::Number(Some(lat))])
}

#[test]
fn polygons_and_multipolygons_give_outer_rings() {
    let text = r#"{
        "type": "FeatureCollection",
        "features": [
            {"type": "Feature", "geometry": {"type": "Polygon", "coordinates": [
                [[0, 0], [10.5, 0], [10, -20], [0, 0]],
                [[1, 1], [2, 2], [3, 3]]
            ]}},
            {"type": "Feature", "geometry": {"type": "Polygon", "coordinates": [[[0, 0], [1, 1]]]}},
            {"type": "Feature", "geometry": {"type": "MultiPolygon", "coordinates": [
                [[[5, 5], [6, 5], [6, 6]]],
                [[[7, 7], "x", [8], [8, 7, 3], [9, 9]]]
            ]}},
            {"type": "Feature", "geometry": {"type": "Point", "coordinates": [1, 2]}},
            {"type": "Feature", "geometry": null},
            {"type": "Feature"}
        ]
    }"#;
    let rings = load_world_map(text).unwrap();
    assert_eq!(rings.len(), 3);
    assert_eq!(
        rings[0],
        vec![(bits(0.0), bits(0.0)), (bits(10.5), bits(0.0)), (bits(10.0), bits(-20.0)), (bits(0.0), bits(0.0))]
    );
    assert_eq!(rings[1], vec![(bits(5.0), bits(5.0)), (bits(6.0), bits(5.0)), (bits(6.0), bits(6.0))]);
    assert_eq!(rings[2], vec![(bits(7.0), bits(7.0)), (bits(8.0), bits(7.0)), (bits(9.0), bits(9.0))]);
}

#[test]
fn documents_without_features_have_no_rings() {
    assert_eq!(load_world_map("{}").unwrap(), Vec::<Vec<(u64, u64)>>::new());
    assert_eq!(load_world_map("[1, 2]").unwrap(), Vec::<Vec<(u64, u64)>>::new());
    assert_eq!(load_world_map(r#"{"features": {"a": 1}}"#).unwrap(), Vec::<Vec<(u64, u64)>>::new());
}

#[test]
fn text_that_is_not_json_gives_nothing() {
    assert!(load_world_map("").is_none());
    assert!(load_world_map("{\"features\": [").is_none());
}

#[test]
fn values_by_hand() {
    let three = JsonValue::Array(vec![JsonValue::Number(Some(1)), JsonValue::Number(Some(2)), JsonValue::Null]);
    assert_eq!(ring_point_of(&three), Some((1, 2)));
    assert_eq!(ring_point_of(&JsonValue::Array(vec![JsonValue::Number(None), JsonValue::Number(Some(2))])), None);
    let object = JsonValue::Object(vec![
        ("a".to_string(), JsonValue::Bool(true)),
        ("b".to_string(), JsonValue::Text("x".to_string())),
    ]);
    assert!(matches!(field_of(&object, "b"), Some(JsonValue::Text(t)) if t == "x"));
    assert!(field_of(&object, "c").is_none());
    assert!(field_of(&JsonValue::Null, "a").is_none());
    let short = JsonValue::Array(vec![JsonValue::Array(vec![point(1, 2), point(3, 4)])]);
    assert_eq!(polygon_ring_of(&short), None);
    let triangle = JsonValue::Array(vec![JsonValue::Array(vec![point(1, 2), JsonValue::Null, point(3, 4), point(5, 6)])]);
    assert_eq!(polygon_ring_of(&triangle), Some(vec![(1, 2), (3, 4), (5, 6)]));
}
