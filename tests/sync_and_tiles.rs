use synclinal::garmin::{activity_row, is_indoor_activity, is_near_bbox, split_fields, str_before, Row};
use synclinal::geo::Point;
use synclinal::grid::BBox;
use synclinal::tiles::{resolve_provider, Provider, TileProvider};

#[test]
fn indoor_types_are_recognised() {
    assert!(is_indoor_activity("strength_training"));
    assert!(is_indoor_activity("indoor_cycling"));
    assert!(is_indoor_activity("treadmill_running"));
    assert!(is_indoor_activity("yoga"));
    assert!(is_indoor_activity("breathwork"));
    assert!(is_indoor_activity("0.00"));
}

#[test]
fn truncated_types_are_trimmed() {
    assert!(is_indoor_activity("indoor_cyc..."));
    assert!(is_indoor_activity("0.00..."));
    assert!(is_indoor_activity("strength......"));
    assert!(!is_indoor_activity("yog..."));
}

#[test]
fn outdoor_types_are_kept() {
    assert!(!is_indoor_activity("trail_running"));
    assert!(!is_indoor_activity("hiking"));
    assert!(!is_indoor_activity("0.001"));
    assert!(!is_indoor_activity(""));
    assert!(!is_indoor_activity("str"));
}

#[test]
fn near_bbox_allows_the_buffer() {
    let b = BBox { south: 446_178_000, west: 50_353_900, north: 446_841_600, east: 52_146_300 };
    assert!(is_near_bbox(&b, &Point { lat: 446_500_000, lon: 51_000_000 }));
    assert!(is_near_bbox(&b, &Point { lat: 446_178_000 - 1_500_000, lon: 50_353_900 - 1_500_000 }));
    assert!(!is_near_bbox(&b, &Point { lat: 446_178_000 - 1_500_001, lon: 51_000_000 }));
    assert!(!is_near_bbox(&b, &Point { lat: 446_500_000, lon: 52_146_300 + 1_500_001 }));
}

#[test]
fn tile_urls() {
    assert_eq!(Provider::OpenTopoMap.tile_url(15, 16837, 11782), "https://tile.opentopomap.org/15/16837/11782.png");
    assert_eq!(Provider::OpenStreetMap.tile_url(0, 0, 0), "https://tile.openstreetmap.org/0/0/0.png");
    assert_eq!(
        Provider::OpenStreetMap.tile_url(u32::MAX, 10, 9),
        "https://tile.openstreetmap.org/4294967295/10/9.png"
    );
}

#[test]
fn provider_names_and_cache_dirs() {
    assert_eq!(Provider::OpenStreetMap.name(), "OpenStreetMap");
    assert_eq!(Provider::OpenTopoMap.name(), "OpenTopoMap");
    assert_eq!(Provider::OpenStreetMap.cache_subdir(), "osm");
    assert_eq!(Provider::OpenTopoMap.cache_subdir(), "topo");
}

#[test]
fn command_line_choice_maps_to_provider() {
    assert_eq!(resolve_provider(&TileProvider::Openstreetmap), Provider::OpenStreetMap);
    assert_eq!(resolve_provider(&TileProvider::Opentopomap), Provider::OpenTopoMap);
}

#[test]
fn fields_split_on_runs_of_white_space() {
    assert_eq!(split_fields("  a bb\t ccc  "), vec!["a", "bb", "ccc"]);
    assert!(split_fields("   ").is_empty());
    assert!(split_fields("").is_empty());
    assert_eq!(split_fields("x"), vec!["x"]);
}

#[test]
fn dates_compare_as_text() {
    assert!(str_before("2025-12-31", "2026-01-01"));
    assert!(!str_before("2026-01-01", "2026-01-01"));
    assert!(!str_before("2026-02-16", "2026-01-01"));
    assert!(str_before("2026", "2026-01-01"));
    assert!(!str_before("", ""));
}

#[test]
fn activity_rows_are_classified() {
    let since = "2026-01-01";
    assert_eq!(
        activity_row("21887868116  2026-02-16 trail_running     15.61 km      2:08:53        -", since),
        Row::Keep("21887868116".to_string(), "2026-02-16".to_string(), "trail_running".to_string())
    );
    assert_eq!(activity_row("21887868116  2025-12-30 hiking  3.2 km", since), Row::Stop);
    assert_eq!(activity_row("ID  Date  Type  Distance", since), Row::Skip);
    assert_eq!(activity_row("-----------", since), Row::Skip);
    assert_eq!(activity_row("123 2026-01-02", since), Row::Skip);
    assert_eq!(activity_row("", since), Row::Skip);
}
