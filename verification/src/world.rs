//! The outlines of the world map: the outer rings of the country polygons in
//! a GeoJSON document.

use vstd::prelude::*;

use crate::text::str_eq;

verus! {

/// A JSON value. A number is kept as what `serde_json::Value::as_f64` makes
/// of it: the bits of the `f64`, absent when it gives none. An object keeps
/// its entries in the order `serde_json` holds them, each key once.
#[derive(Debug)]
pub enum JsonValue {
    Null,
    Bool(bool),
    Number(Option<u64>),
    Text(String),
    Array(Vec<JsonValue>),
    Object(Vec<(String, JsonValue)>),
}

#[verifier::external_type_specification]
#[verifier::external_body]
pub struct ExSerdeJsonValue(serde_json::Value);

/// The value that `serde_json` parses from a text, absent when the text is not
/// JSON.
pub uninterp spec fn parsed_json(text: Seq<char>) -> Option<JsonValue>;

/// A `serde_json::Value` as a `JsonValue`, variant for variant.
#[verifier::external_body]
fn json_value(v: serde_json::Value) -> JsonValue {
    match v {
        serde_json::Value::Null => JsonValue::Null,
        serde_json::Value::Bool(b) => JsonValue::Bool(b),
        serde_json::Value::Number(n) => JsonValue::Number(n.as_f64().map(|x| x.to_bits())),
        serde_json::Value::String(s) => JsonValue::Text(s),
        serde_json::Value::Array(a) => JsonValue::Array(a.into_iter().map(json_value).collect()),
        serde_json::Value::Object(o) => JsonValue::Object(o.into_iter().map(|(k, x)| (k, json_value(x))).collect()),
    }
}

/// `serde_json::from_str::<serde_json::Value>`: the parsed document, or
/// nothing when the text is not JSON. The contract names the result.
#[verifier::external_body]
fn parse_json(text: &str) -> (r: Option<JsonValue>)
    ensures
        r == parsed_json(text@),
{
    serde_json::from_str::<serde_json::Value>(text).ok().map(json_value)
}

/// The value of the first entry with the given key.
pub open spec fn entry_value(entries: Seq<(String, JsonValue)>, key: Seq<char>) -> Option<JsonValue>
    decreases entries.len(),
{
    if entries.len() == 0 {
        None
    } else if entries[0].0@ == key {
        Some(entries[0].1)
    } else {
        entry_value(entries.drop_first(), key)
    }
}

/// The field `key` of an object (what `Value::get` finds); nothing for other
/// values.
pub open spec fn field(v: JsonValue, key: Seq<char>) -> Option<JsonValue> {
    match v {
        JsonValue::Object(entries) => entry_value(entries@, key),
        _ => None,
    }
}

/// The bits of a number.
pub open spec fn number_bits(v: JsonValue) -> Option<u64> {
    match v {
        JsonValue::Number(b) => b,
        _ => None,
    }
}

/// A point of a ring: an array of at least two numbers, read as longitude and
/// latitude.
pub open spec fn ring_point(v: JsonValue) -> Option<(u64, u64)> {
    match v {
        JsonValue::Array(pair) => if pair@.len() >= 2 && number_bits(pair@[0]) is Some && number_bits(
            pair@[1],
        ) is Some {
            Some((number_bits(pair@[0])->0, number_bits(pair@[1])->0))
        } else {
            None
        },
        _ => None,
    }
}

/// The points of a ring, in order, leaving out entries that are no points.
pub open spec fn ring_points(points: Seq<JsonValue>) -> Seq<(u64, u64)>
    decreases points.len(),
{
    if points.len() == 0 {
        Seq::empty()
    } else {
        let before = ring_points(points.drop_last());
        match ring_point(points.last()) {
            Some(p) => before.push(p),
            None => before,
        }
    }
}

/// The outer ring of a polygon (its first ring), when it is an array with at
/// least three points.
pub open spec fn polygon_ring(v: JsonValue) -> Option<Seq<(u64, u64)>> {
    match v {
        JsonValue::Array(rings) => if rings@.len() > 0 {
            match rings@[0] {
                JsonValue::Array(outer) => if ring_points(outer@).len() >= 3 {
                    Some(ring_points(outer@))
                } else {
                    None
                },
                _ => None,
            }
        } else {
            None
        },
        _ => None,
    }
}

/// The outer rings of a list of polygons, in order.
pub open spec fn polygons_rings(polygons: Seq<JsonValue>) -> Seq<Seq<(u64, u64)>>
    decreases polygons.len(),
{
    if polygons.len() == 0 {
        Seq::empty()
    } else {
        let before = polygons_rings(polygons.drop_last());
        match polygon_ring(polygons.last()) {
            Some(r) => before.push(r),
            None => before,
        }
    }
}

/// The rings of one feature: its geometry's outer ring for a `Polygon`, the
/// outer rings of its polygons for a `MultiPolygon`, none otherwise or when
/// the geometry, its text `type` or its `coordinates` are missing.
pub open spec fn feature_rings(f: JsonValue) -> Seq<Seq<(u64, u64)>> {
    match field(f, "geometry"@) {
        Some(g) => match field(g, "type"@) {
            Some(JsonValue::Text(kind)) => match field(g, "coordinates"@) {
                Some(coords) => if kind@ == "Polygon"@ {
                    match polygon_ring(coords) {
                        Some(r) => seq![r],
                        None => Seq::empty(),
                    }
                } else if kind@ == "MultiPolygon"@ {
                    match coords {
                        JsonValue::Array(polygons) => polygons_rings(polygons@),
                        _ => Seq::empty(),
                    }
                } else {
                    Seq::empty()
                },
                None => Seq::empty(),
            },
            _ => Seq::empty(),
        },
        None => Seq::empty(),
    }
}

/// The rings of a list of features, feature after feature.
pub open spec fn features_rings(features: Seq<JsonValue>) -> Seq<Seq<(u64, u64)>>
    decreases features.len(),
{
    if features.len() == 0 {
        Seq::empty()
    } else {
        features_rings(features.drop_last()) + feature_rings(features.last())
    }
}

/// The rings of a GeoJSON document: those of the features in its `features`
/// array; none when it has no such array.
pub open spec fn world_rings(doc: JsonValue) -> Seq<Seq<(u64, u64)>> {
    match field(doc, "features"@) {
        Some(JsonValue::Array(features)) => features_rings(features@),
        _ => Seq::empty(),
    }
}

/// The rings as sequences of points.
pub open spec fn ring_seqs(rings: Seq<Vec<(u64, u64)>>) -> Seq<Seq<(u64, u64)>> {
    rings.map_values(|r: Vec<(u64, u64)>| r@)
}

/// The field `key` of an object.
pub fn field_of<'a>(v: &'a JsonValue, key: &str) -> (r: Option<&'a JsonValue>)
    ensures
        r matches Some(x) ==> field(*v, key@) == Some(*x),
        r is None ==> field(*v, key@) is None,
{
    match v {
        JsonValue::Object(entries) => {
            let n = entries.len();
            let mut i: usize = 0;
            assert(entries@.skip(0) =~= entries@);
            while i < n
                invariant
                    n == entries@.len(),
                    i <= n,
                    entry_value(entries@.skip(i as int), key@) == entry_value(entries@, key@),
                    field(*v, key@) == entry_value(entries@, key@),
                decreases n - i,
            {
                assert(entries@.skip(i as int).drop_first() =~= entries@.skip(i + 1));
                assert(entries@.skip(i as int)[0] == entries@[i as int]);
                if str_eq(entries[i].0.as_str(), key) {
                    return Some(&entries[i].1);
                }
                i = i + 1;
            }
            None
        },
        _ => None,
    }
}

/// A point of a ring.
pub fn ring_point_of(v: &JsonValue) -> (r: Option<(u64, u64)>)
    ensures
        r == ring_point(*v),
{
    match v {
        JsonValue::Array(pair) => {
            if pair.len() < 2 {
                return None;
            }
            match (&pair[0], &pair[1]) {
                (JsonValue::Number(Some(lon)), JsonValue::Number(Some(lat))) => Some((*lon, *lat)),
                _ => None,
            }
        },
        _ => None,
    }
}

/// The outer ring of a polygon, when it has at least three points.
pub fn polygon_ring_of(v: &JsonValue) -> (r: Option<Vec<(u64, u64)>>)
    ensures
        r matches Some(ring) ==> polygon_ring(*v) == Some(ring@),
        r is None ==> polygon_ring(*v) is None,
{
    let rings = match v {
        JsonValue::Array(rings) => rings,
        _ => return None,
    };
    if rings.len() == 0 {
        return None;
    }
    let outer = match &rings[0] {
        JsonValue::Array(outer) => outer,
        _ => return None,
    };
    let n = outer.len();
    let mut ring: Vec<(u64, u64)> = Vec::new();
    let mut i: usize = 0;
    while i < n
        invariant
            n == outer@.len(),
            i <= n,
            ring@ == ring_points(outer@.take(i as int)),
        decreases n - i,
    {
        assert(outer@.take(i + 1).drop_last() =~= outer@.take(i as int));
        if let Some(p) = ring_point_of(&outer[i]) {
            ring.push(p);
        }
        i = i + 1;
    }
    assert(outer@.take(n as int) =~= outer@);
    if ring.len() >= 3 {
        Some(ring)
    } else {
        None
    }
}

/// Appends the rings of one feature.
fn push_feature_rings(f: &JsonValue, rings: &mut Vec<Vec<(u64, u64)>>)
    ensures
        ring_seqs(final(rings)@) == ring_seqs(old(rings)@) + feature_rings(*f),
{
    let ghost start = ring_seqs(rings@);
    let geometry = match field_of(f, "geometry") {
        Some(g) => g,
        None => {
            assert(ring_seqs(rings@) =~= start + Seq::<Seq<(u64, u64)>>::empty());
            return;
        },
    };
    let kind = match field_of(geometry, "type") {
        Some(JsonValue::Text(kind)) => kind,
        _ => {
            assert(ring_seqs(rings@) =~= start + Seq::<Seq<(u64, u64)>>::empty());
            return;
        },
    };
    let coords = match field_of(geometry, "coordinates") {
        Some(c) => c,
        None => {
            assert(ring_seqs(rings@) =~= start + Seq::<Seq<(u64, u64)>>::empty());
            return;
        },
    };
    if str_eq(kind.as_str(), "Polygon") {
        if let Some(ring) = polygon_ring_of(coords) {
            let ghost r = ring@;
            rings.push(ring);
            assert(ring_seqs(rings@) =~= start + seq![r]);
        } else {
            assert(ring_seqs(rings@) =~= start + Seq::<Seq<(u64, u64)>>::empty());
        }
    } else if str_eq(kind.as_str(), "MultiPolygon") {
        match coords {
            JsonValue::Array(polygons) => {
                let n = polygons.len();
                let mut i: usize = 0;
                while i < n
                    invariant
                        n == polygons@.len(),
                        i <= n,
                        ring_seqs(rings@) == start + polygons_rings(polygons@.take(i as int)),
                    decreases n - i,
                {
                    assert(polygons@.take(i + 1).drop_last() =~= polygons@.take(i as int));
                    let ghost before = ring_seqs(rings@);
                    if let Some(ring) = polygon_ring_of(&polygons[i]) {
                        let ghost r = ring@;
                        rings.push(ring);
                        assert(ring_seqs(rings@) =~= before.push(r));
                        assert(start + polygons_rings(polygons@.take(i as int)).push(r) =~= (start
                            + polygons_rings(polygons@.take(i as int))).push(r));
                    }
                    i = i + 1;
                }
                assert(polygons@.take(n as int) =~= polygons@);
            },
            _ => {
                assert(ring_seqs(rings@) =~= start + Seq::<Seq<(u64, u64)>>::empty());
            },
        }
    } else {
        assert(ring_seqs(rings@) =~= start + Seq::<Seq<(u64, u64)>>::empty());
    }
}

/// The rings of a GeoJSON document.
pub fn world_rings_of(doc: &JsonValue) -> (r: Vec<Vec<(u64, u64)>>)
    ensures
        ring_seqs(r@) == world_rings(*doc),
{
    let mut rings: Vec<Vec<(u64, u64)>> = Vec::new();
    assert(ring_seqs(rings@) =~= Seq::<Seq<(u64, u64)>>::empty());
    let features = match field_of(doc, "features") {
        Some(JsonValue::Array(features)) => features,
        _ => return rings,
    };
    let n = features.len();
    let mut i: usize = 0;
    while i < n
        invariant
            n == features@.len(),
            i <= n,
            ring_seqs(rings@) == features_rings(features@.take(i as int)),
        decreases n - i,
    {
        assert(features@.take(i + 1).drop_last() =~= features@.take(i as int));
        push_feature_rings(&features[i], &mut rings);
        i = i + 1;
    }
    assert(features@.take(n as int) =~= features@);
    rings
}

/// The rings of the world map in a GeoJSON text; nothing when the text is not
/// JSON.
pub fn load_world_map(text: &str) -> (r: Option<Vec<Vec<(u64, u64)>>>)
    ensures
        parsed_json(text@) is None ==> r is None,
        parsed_json(text@) matches Some(doc) ==> (r matches Some(rings) && ring_seqs(rings@) == world_rings(doc)),
{
    match parse_json(text) {
        Some(doc) => Some(world_rings_of(&doc)),
        None => None,
    }
}

} // verus!
