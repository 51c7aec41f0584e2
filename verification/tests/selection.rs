use cs2_server_chooser::codes::CodeSet;
use cs2_server_chooser::data::{
    LoadedConfig, Pop, Relay, TierFilter, allow_all, allow_region, allowed_codes,
    apply_allowed_codes, block_all, filtered_indices, tier_matches, toggle_pop, toggle_selectable,
};

fn relay(a: u8, start: u16, end: u16) -> Relay {
    Relay { ipv4: [10, 0, 0, a], port_range: [start, end] }
}

fn pop(code: &str, desc: &str, tier: u8, relays: Vec<Relay>, selected: bool) -> Pop {
    Pop {
        code: code.to_string(),
        desc: desc.to_string(),
        lon_bits: 0,
        lat_bits: 0,
        tier,
        relays,
        selected,
    }
}

fn sample() -> LoadedConfig {
    LoadedConfig {
        revision: 7,
        source: "live Valve SDR config".to_string(),
        live: true,
        pops: vec![
            pop("ams", "Amsterdam (Netherlands)", 0, vec![relay(1, 27015, 27060), relay(2, 27015, 27060)], true),
            pop("fra", "Frankfurt (Germany)", 1, vec![relay(3, 27015, 27060)], false),
            pop("gnrt", "Guangzhou Relay", 2, vec![], false),
            pop("sto", "Stockholm (Sweden)", 0, vec![relay(4, 27015, 27060)], true),
        ],
    }
}

fn codes(v: &[&str]) -> CodeSet {
    CodeSet::from_codes(v.iter().map(|c| c.to_string()).collect())
}

fn selected(config: &LoadedConfig) -> Vec<bool> {
    config.pops.iter().map(|p| p.selected).collect()
}

#[test]
fn counts_of_sample() {
    let c = sample();
    assert_eq!(c.selectable_count(), 3);
    assert_eq!(c.allowed_count(), 2);
    assert_eq!(c.blocked_count(), 1);
    assert_eq!(c.relay_count(), 4);
}

#[test]
fn allowed_never_exceeds_selectable() {
    let mut c = sample();
    c.pops[2].selected = true;
    assert_eq!(c.allowed_count(), 2);
    assert!(c.allowed_count() <= c.selectable_count());
    assert_eq!(c.blocked_count(), c.selectable_count() - c.allowed_count());
}

#[test]
fn empty_config_counts() {
    let c = LoadedConfig { revision: 0, source: String::new(), live: false, pops: vec![] };
    assert_eq!(c.selectable_count(), 0);
    assert_eq!(c.allowed_count(), 0);
    assert_eq!(c.blocked_count(), 0);
    assert_eq!(c.relay_count(), 0);
}

#[test]
fn apply_codes_selects_only_pops_with_relays() {
    let mut c = sample();
    apply_allowed_codes(&mut c, &codes(&["fra", "gnrt", "xyz"]));
    assert_eq!(selected(&c), vec![false, true, false, false]);
    assert_eq!(c.revision, 7);
}

#[test]
fn saved_selection_restores() {
    let mut c = sample();
    let saved = allowed_codes(&c);
    assert_eq!(saved.to_vec(), vec!["ams".to_string(), "sto".to_string()]);
    block_all(&mut c);
    assert_eq!(selected(&c), vec![false, false, false, false]);
    apply_allowed_codes(&mut c, &saved);
    assert_eq!(selected(&c), vec![true, false, false, true]);
    assert_eq!(allowed_codes(&c).to_vec(), saved.to_vec());
}

#[test]
fn allow_all_and_region() {
    let mut c = sample();
    allow_all(&mut c);
    assert_eq!(selected(&c), vec![true, true, false, true]);
    allow_region(&mut c, &vec![false, true, true, false]);
    assert_eq!(selected(&c), vec![false, true, false, false]);
}

#[test]
fn toggles() {
    let mut c = sample();
    toggle_pop(&mut c, "fra");
    assert_eq!(selected(&c), vec![true, true, false, true]);
    toggle_pop(&mut c, "nowhere");
    assert_eq!(selected(&c), vec![true, true, false, true]);
    toggle_selectable(&mut c, 2);
    assert_eq!(selected(&c), vec![true, true, false, true]);
    toggle_selectable(&mut c, 0);
    assert_eq!(selected(&c), vec![false, true, false, true]);
}

#[test]
fn tier_filters() {
    assert!(tier_matches(TierFilter::All, 5));
    assert!(tier_matches(TierFilter::ValvePrimary, 0));
    assert!(!tier_matches(TierFilter::ValvePrimary, 1));
    assert!(tier_matches(TierFilter::ValveAny, 1));
    assert!(!tier_matches(TierFilter::ValveAny, 2));
    assert!(tier_matches(TierFilter::Partner, 2));
    assert!(!tier_matches(TierFilter::Partner, 1));
}

#[test]
fn list_filtering() {
    let c = sample();
    assert_eq!(filtered_indices(None, "", TierFilter::All, true), Vec::<usize>::new());
    assert_eq!(filtered_indices(Some(&c), "", TierFilter::All, false), vec![0, 1, 3]);
    assert_eq!(filtered_indices(Some(&c), "", TierFilter::All, true), vec![0, 1, 2, 3]);
    assert_eq!(filtered_indices(Some(&c), "", TierFilter::ValvePrimary, false), vec![0, 3]);
    assert_eq!(filtered_indices(Some(&c), "", TierFilter::Partner, true), vec![2]);
    // trimmed and lower-cased query, matched against code and description
    assert_eq!(filtered_indices(Some(&c), "  FRA ", TierFilter::All, false), vec![1]);
    assert_eq!(filtered_indices(Some(&c), "germany", TierFilter::All, false), vec![1]);
    assert_eq!(filtered_indices(Some(&c), "(s", TierFilter::All, false), vec![3]);
    assert_eq!(filtered_indices(Some(&c), "relay", TierFilter::All, false), Vec::<usize>::new());
}

#[test]
fn code_set_orders_and_dedups() {
    let s = codes(&["sto", "ams", "fra", "ams"]);
    assert_eq!(s.to_vec(), vec!["ams".to_string(), "fra".to_string(), "sto".to_string()]);
    assert_eq!(s.len(), 3);
    assert!(s.contains("fra"));
    assert!(!s.contains("fr"));
    let mut t = CodeSet::new();
    assert!(t.is_empty());
    t.insert("b".to_string());
    t.insert("a".to_string());
    t.insert("b".to_string());
    assert_eq!(t.to_vec(), vec!["a".to_string(), "b".to_string()]);
    assert_eq!(t.get(1), "b");
}
