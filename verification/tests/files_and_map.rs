use cs2_server_chooser::codes::CodeSet;
use cs2_server_chooser::data::{LoadedConfig, Pop, Relay, text_matches};
use cs2_server_chooser::map::{overlap_groups, pop_color};
use cs2_server_chooser::settings::{
    PathStyle, cache_path, config_dir, default_export_path, export_allowed_pops, has_parent,
    has_parent_in, platform_config_base, save_allowed_pops, selection_json, selection_path,
    windows_has_parent, windows_platform_config_base,
};
use cs2_server_chooser::status::{
    apply_summary, config_summary, loaded_status, refresh_failure, save_failure,
};
use cs2_server_chooser::text::{contains_str, decimal_string, has_prefix, parse_u32, str_eq, str_lt};

const UNIX: PathStyle = PathStyle::Unix;
const WINDOWS: PathStyle = PathStyle::Windows;

#[test]
fn paths() {
    assert_eq!(platform_config_base(Some("/xdg"), Some("/home/u")), "/xdg");
    assert_eq!(platform_config_base(None, Some("/home/u")), "/home/u/.config");
    assert_eq!(platform_config_base(None, Some("/home/u/")), "/home/u/.config");
    assert_eq!(platform_config_base(None, Some("")), ".config");
    assert_eq!(platform_config_base(None, None), ".");
    assert_eq!(config_dir(UNIX, "/xdg"), "/xdg/cs2-server-chooser");
    assert_eq!(config_dir(UNIX, "/xdg/"), "/xdg/cs2-server-chooser");
    assert_eq!(selection_path(UNIX, "/xdg"), "/xdg/cs2-server-chooser/selection.json");
    assert_eq!(default_export_path(UNIX, "."), "./cs2-server-chooser/selection-export.json");
    assert_eq!(cache_path(UNIX, None, Some("/home/u")), "/home/u/.cache/cs2-server-chooser/sdr_config.json");
    assert_eq!(cache_path(UNIX, Some("/c"), Some("/home/u")), "/c/cs2-server-chooser/sdr_config.json");
    assert_eq!(cache_path(UNIX, None, None), "./cs2-server-chooser/sdr_config.json");
}

#[test]
fn windows_paths() {
    assert_eq!(windows_platform_config_base(Some("C:\\Users\\u\\AppData\\Roaming"), Some("C:\\Users\\u")), "C:\\Users\\u\\AppData\\Roaming");
    assert_eq!(windows_platform_config_base(None, Some("C:\\Users\\u")), "C:\\Users\\u\\AppData\\Roaming");
    assert_eq!(windows_platform_config_base(None, Some("C:\\Users\\u\\")), "C:\\Users\\u\\AppData\\Roaming");
    assert_eq!(windows_platform_config_base(None, Some("D:/home/")), "D:/home/AppData\\Roaming");
    assert_eq!(windows_platform_config_base(None, None), ".");
    assert_eq!(config_dir(WINDOWS, "C:"), "C:cs2-server-chooser");
    assert_eq!(selection_path(WINDOWS, "C:"), "C:cs2-server-chooser\\selection.json");
    assert_eq!(config_dir(WINDOWS, "C:\\Users\\u\\AppData\\Roaming"), "C:\\Users\\u\\AppData\\Roaming\\cs2-server-chooser");
    assert_eq!(config_dir(WINDOWS, "E:/data/"), "E:/data/cs2-server-chooser");
    assert_eq!(config_dir(WINDOWS, ""), "cs2-server-chooser");
    // a verbatim base is rebuilt from its components
    assert_eq!(config_dir(WINDOWS, "\\\\?\\C:\\Users\\\\u\\"), "\\\\?\\C:\\Users\\u\\cs2-server-chooser");
    assert_eq!(config_dir(WINDOWS, "\\\\?\\C:"), "\\\\?\\C:\\cs2-server-chooser");
    assert_eq!(
        cache_path(WINDOWS, None, Some("C:\\Users\\u")),
        "C:\\Users\\u\\.cache\\cs2-server-chooser\\sdr_config.json"
    );
}

#[test]
fn selection_text_matches_pretty_json() {
    let empty = CodeSet::new();
    assert_eq!(selection_json(&empty).unwrap(), "{\n  \"allowed_pops\": []\n}");
    let set = CodeSet::from_codes(vec!["sto".to_string(), "ams".to_string(), "we\"ird".to_string()]);
    let text = selection_json(&set).unwrap();
    assert_eq!(text, "{\n  \"allowed_pops\": [\n    \"ams\",\n    \"sto\",\n    \"we\\\"ird\"\n  ]\n}");
    let mut expected = std::collections::BTreeMap::new();
    expected.insert("allowed_pops", vec!["ams", "sto", "we\"ird"]);
    assert_eq!(text, serde_json::to_string_pretty(&expected).unwrap());
}

#[test]
fn selection_text_escapes_controls() {
    let set = CodeSet::from_codes(vec!["a\u{1}\tb\\".to_string(), "\u{1f}\u{7f}\u{e9}".to_string()]);
    let text = selection_json(&set).unwrap();
    assert_eq!(text, "{\n  \"allowed_pops\": [\n    \"\\u001f\u{7f}\u{e9}\",\n    \"a\\u0001\\tb\\\\\"\n  ]\n}");
}

#[test]
fn selection_writes() {
    let set = CodeSet::from_codes(vec!["fra".to_string()]);
    let w = save_allowed_pops(UNIX, "/xdg", &set).unwrap();
    assert_eq!(w.path, "/xdg/cs2-server-chooser/selection.json");
    assert_eq!(w.json, "{\n  \"allowed_pops\": [\n    \"fra\"\n  ]\n}");
    let w = export_allowed_pops(UNIX, "/tmp/out.json", &set).unwrap();
    assert_eq!(w.path, "/tmp/out.json");
    let w = save_allowed_pops(UNIX, "", &set).unwrap();
    assert_eq!(w.path, "cs2-server-chooser/selection.json");
    let w = save_allowed_pops(WINDOWS, "C:", &set).unwrap();
    assert_eq!(w.path, "C:cs2-server-chooser\\selection.json");
}

#[test]
fn windows_network_base_without_parent_is_refused() {
    // `\\cs2-server-chooser\selection.json` is a bare network share
    let set = CodeSet::from_codes(vec!["fra".to_string()]);
    assert_eq!(
        save_allowed_pops(WINDOWS, "\\\\", &set).unwrap_err(),
        "Selection path \\\\cs2-server-chooser\\selection.json has no parent"
    );
}

#[test]
fn paths_without_parent_are_refused() {
    let set = CodeSet::from_codes(vec!["fra".to_string()]);
    assert_eq!(export_allowed_pops(UNIX, "", &set).unwrap_err(), "Selection path  has no parent");
    assert_eq!(export_allowed_pops(UNIX, "/", &set).unwrap_err(), "Selection path / has no parent");
    assert_eq!(export_allowed_pops(UNIX, "//./", &set).unwrap_err(), "Selection path //./ has no parent");
    assert!(export_allowed_pops(UNIX, "out.json", &set).is_ok());
    assert!(export_allowed_pops(UNIX, "/..", &set).is_ok());
    assert!(export_allowed_pops(UNIX, "/.a", &set).is_ok());
    assert_eq!(export_allowed_pops(WINDOWS, "C:\\", &set).unwrap_err(), "Selection path C:\\ has no parent");
    assert!(export_allowed_pops(WINDOWS, "C:\\out.json", &set).is_ok());
}

#[test]
fn parent_check_agrees_with_std_path() {
    for p in ["", "/", "//", "/.", "/./", "/./.", "//.//", ".", "./", "a", "/a", "/..", "/.a", "/a/.", "..", "a/b/", "/.//x"] {
        assert_eq!(has_parent(p), std::path::Path::new(p).parent().is_some(), "path {:?}", p);
        assert_eq!(has_parent_in(UNIX, p), has_parent(p));
    }
}

#[test]
fn windows_parent_check() {
    let without = [
        "", "C:", "c:\\", "C:/", "C:.", "C:\\.\\", "\\", "/", "\\.", "\\\\server\\share", "\\\\server\\share\\",
        "\\\\?\\C:", "\\\\?\\C:\\", "\\\\?\\UNC\\server\\share", "\\\\?\\pipe", "\\\\.\\COM1", "\\\\.\\COM1\\.",
        "//server/share/",
    ];
    for p in without {
        assert!(!windows_has_parent(p), "path {:?}", p);
    }
    let with = [
        "a", ".", "..", "C:x", "C:..", "C:\\x", "\\x", "\\\\server", "\\\\server\\", "\\\\server\\share\\x",
        "\\\\?\\C:\\.", "\\\\?\\C:\\x", "\\\\.\\COM1\\x", "/a/b",
    ];
    for p in with {
        assert!(windows_has_parent(p), "path {:?}", p);
    }
}

#[test]
fn colours() {
    assert_eq!(pop_color(true, true, 0), (78, 206, 118));
    assert_eq!(pop_color(false, true, 0), (69, 160, 238));
    assert_eq!(pop_color(false, true, 1), (235, 181, 82));
    assert_eq!(pop_color(false, false, 9), (120, 130, 136));
}

#[test]
fn overlap_groups_keep_depth_first_order() {
    // points at x = 0, 20 and 10: 0 and 1 are too far apart but both overlap 2
    let t = true;
    let f = false;
    let near = vec![vec![t, f, t], vec![f, t, t], vec![t, t, t]];
    assert_eq!(overlap_groups(&near), vec![vec![0, 2, 1]]);
}

#[test]
fn overlapping_points_group_into_clusters() {
    // 0-2 chain, 1 alone, 3-4 pair
    let t = true;
    let f = false;
    let near = vec![
        vec![t, f, t, f, f],
        vec![f, t, f, f, f],
        vec![t, f, t, f, f],
        vec![f, f, f, t, t],
        vec![f, f, f, t, t],
    ];
    let groups = overlap_groups(&near);
    assert_eq!(groups, vec![vec![0, 2], vec![1], vec![3, 4]]);
    let chain = vec![
        vec![t, t, f, f],
        vec![t, t, t, f],
        vec![f, t, t, t],
        vec![f, f, t, t],
    ];
    let groups = overlap_groups(&chain);
    assert_eq!(groups.len(), 1);
    let mut g = groups[0].clone();
    assert_eq!(g[0], 0);
    g.sort();
    assert_eq!(g, vec![0, 1, 2, 3]);
    assert_eq!(overlap_groups(&vec![]), Vec::<Vec<usize>>::new());
}

#[test]
fn status_texts() {
    assert_eq!(
        loaded_status(123, "live Valve SDR config", "12:34:56"),
        "Loaded revision 123 from live Valve SDR config at 12:34:56"
    );
    assert_eq!(refresh_failure("a", "b"), "Live refresh failed: a. Cache load failed: b");
    assert_eq!(save_failure("disk full"), "Failed to save allowed POPs: disk full");
    let config = LoadedConfig {
        revision: 1,
        source: String::new(),
        live: true,
        pops: vec![
            Pop { code: "a".into(), desc: "A".into(), lon_bits: 0, lat_bits: 0, tier: 0,
                relays: vec![Relay { ipv4: [1, 2, 3, 4], port_range: [1, 2] }; 3], selected: true },
            Pop { code: "b".into(), desc: "B".into(), lon_bits: 0, lat_bits: 0, tier: 0,
                relays: vec![Relay { ipv4: [1, 2, 3, 4], port_range: [1, 2] }], selected: false },
            Pop { code: "c".into(), desc: "C".into(), lon_bits: 0, lat_bits: 0, tier: 3,
                relays: vec![], selected: false },
        ],
    };
    assert_eq!(config_summary(&config), "3 POPs, 2 selectable, 1 allowed, 4 relays");
    assert_eq!(apply_summary(&config), "1 allowed, 1 blocked if applied");
}

#[test]
fn text_helpers() {
    assert_eq!(decimal_string(0), "0");
    assert_eq!(decimal_string(10), "10");
    assert_eq!(decimal_string(u64::MAX), "18446744073709551615");
    assert!(str_lt("Amsterdam", "Berlin"));
    assert!(str_lt("Ab", "Abc"));
    assert!(!str_lt("abc", "abc"));
    assert!(str_lt("Z", "a"));
    assert!(str_eq("x", "x"));
    assert!(!str_eq("x", "y"));
    assert!(has_prefix("live Valve", "live "));
    assert!(!has_prefix("liv", "live "));
    assert!(contains_str("frankfurt", "furt"));
    assert!(contains_str("abc", ""));
    assert!(!contains_str("abc", "abd"));
    assert_eq!(parse_u32("007"), Some(7));
    assert_eq!(parse_u32("+"), None);
    assert_eq!(parse_u32("1a"), None);
}

#[test]
fn framing_of_codes() {
    let set = CodeSet::from_codes(vec!["b".to_string(), "a".to_string()]);
    assert_eq!(selection_json(&set).unwrap(), "{\n  \"allowed_pops\": [\n    \"a\",\n    \"b\"\n  ]\n}");
}

#[test]
fn needle_matching() {
    assert!(text_matches("", "x", "y"));
    assert!(text_matches("ams", "ams", "amsterdam"));
    assert!(text_matches("dam", "ams", "amsterdam"));
    assert!(!text_matches("Ams", "ams", "amsterdam"));
}
