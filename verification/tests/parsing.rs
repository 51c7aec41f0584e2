use cs2_server_chooser::data::Relay;
use cs2_server_chooser::sdr::{RawPop, SdrConfig, config_from_raw};

fn raw(desc: &str, geo: Option<(f64, f64)>, tier: Option<u8>, relays: Option<Vec<Relay>>) -> RawPop {
    RawPop {
        desc: desc.to_string(),
        geo: geo.map(|(lon, lat)| [lon.to_bits(), lat.to_bits()]),
        tier,
        relays,
    }
}

#[test]
fn config_keeps_positioned_pops_sorted_by_description() {
    let relay = Relay { ipv4: [1, 2, 3, 4], port_range: [27015, 27060] };
    let config = SdrConfig {
        revision: 42,
        pops: vec![
            ("ams".to_string(), raw("Amsterdam", Some((4.9, 52.3)), Some(0), Some(vec![relay]))),
            ("b1".to_string(), raw("Same", Some((1.0, 1.0)), None, None)),
            ("b2".to_string(), raw("Same", Some((2.0, 2.0)), Some(3), None)),
            ("nogeo".to_string(), raw("Aardvark", None, Some(0), None)),
            ("zzz".to_string(), raw("Berlin", Some((13.4, 52.5)), Some(1), None)),
        ],
    };
    let loaded = config_from_raw(config, "live Valve SDR config");
    assert_eq!(loaded.revision, 42);
    assert!(loaded.live);
    assert_eq!(loaded.source, "live Valve SDR config");
    let codes: Vec<&str> = loaded.pops.iter().map(|p| p.code.as_str()).collect();
    assert_eq!(codes, vec!["ams", "zzz", "b1", "b2"]);
    assert_eq!(loaded.pops[2].tier, 9);
    assert_eq!(loaded.pops[3].tier, 3);
    assert!(loaded.pops[2].relays.is_empty());
    assert_eq!(loaded.pops[0].relays.len(), 1);
    assert_eq!(f64::from_bits(loaded.pops[0].lon_bits), 4.9);
    assert_eq!(f64::from_bits(loaded.pops[0].lat_bits), 52.3);
    assert!(loaded.pops.iter().all(|p| !p.selected));
}

#[test]
fn cached_source_is_not_live() {
    let config = SdrConfig { revision: 1, pops: vec![] };
    let loaded = config_from_raw(config, "cached Valve SDR config");
    assert!(!loaded.live);
    assert!(loaded.pops.is_empty());
    let loaded = config_from_raw(SdrConfig { revision: 1, pops: vec![] }, "live");
    assert!(!loaded.live);
}
