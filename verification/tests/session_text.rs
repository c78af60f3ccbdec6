use pit_crew_coach::fixture_text::{fixture_session, fixture_yaml};
use pit_crew_coach::session_info::{parse_track_info, session_text, yaml_value};

const SESSION: &str = "---\nWeekendInfo:\n TrackName: roadatlanta full\n TrackDisplayName: Road Atlanta\n TrackConfigName: Full Course\n TrackLength: 4.09 km\nSessionInfo:\n Sessions:\n - ResultsPositions:\n   - CarIdx: 5\n     Lap: 3\nSplitTimeInfo:\n Sectors:\n - SectorNum: 0\n   SectorStartPct: 0.000000\n - SectorNum: 1\n   SectorStartPct: 0.312000\n - SectorNum: 2\n   SectorStartPct: 0.650000\nDriverInfo:\n DriverCarIdx: 5\n Drivers:\n - CarIdx: 2\n   UserName: Someone Else\n   CarScreenName: Mazda MX-5\n - CarIdx: 5\n   UserName: Real Person\n   CarScreenName: Dallara P217 LMP2\n...\n";

fn chars(s: &str) -> Vec<char> {
    s.chars().collect()
}

#[test]
fn yaml_value_finds_first_key_at_any_indentation() {
    let text = chars("a: 1\n  - b:  two words  \nb: 3\n");
    let (v, next) = yaml_value(&text, &chars("b"), 0).expect("b");
    assert_eq!(v.iter().collect::<String>(), "two words");
    assert_eq!(next, 25);
    let (v, _) = yaml_value(&text, &chars("b"), next).expect("second b");
    assert_eq!(v.iter().collect::<String>(), "3");
    assert!(yaml_value(&text, &chars("c"), 0).is_none());
    assert!(yaml_value(&text, &chars("a"), 1).is_none());
}

#[test]
fn yaml_value_requires_the_colon_right_after_the_key() {
    let text = chars("TrackNameX: no\nTrackName : no\nTrackName:yes\n");
    let (v, _) = yaml_value(&text, &chars("TrackName"), 0).expect("value");
    assert_eq!(v.iter().collect::<String>(), "yes");
}

#[test]
fn track_info_is_read_from_session_text() {
    let info = parse_track_info(SESSION);
    assert_eq!(info.track_name, "roadatlanta full");
    assert_eq!(info.display_name, "Road Atlanta");
    assert_eq!(info.config_name, "Full Course");
    assert_eq!(info.length_km.as_deref(), Some("4.09"));
    assert_eq!(info.sector_starts, vec!["0.000000", "0.312000", "0.650000"]);
    assert_eq!(info.car, "Dallara P217 LMP2");
}

#[test]
fn missing_keys_give_empty_values() {
    let info = parse_track_info("---\nWeekendInfo:\n TrackName: x\n");
    assert_eq!(info.track_name, "x");
    assert_eq!(info.display_name, "");
    assert_eq!(info.length_km, None);
    assert!(info.sector_starts.is_empty());
    assert_eq!(info.car, "");
}

#[test]
fn car_needs_the_driver_list() {
    let info = parse_track_info("DriverCarIdx: 1\n - CarIdx: 1\n   CarScreenName: Early\n");
    assert_eq!(info.car, "");
}

#[test]
fn session_text_is_latin1_up_to_the_nul() {
    let bytes = [b'A', 0xe9, b'\n', 0, b'Z'];
    assert_eq!(session_text(&bytes), "A\u{e9}\n");
    assert_eq!(session_text(b"abc"), "abc");
}

#[test]
fn fixture_yaml_keeps_only_track_sectors_and_car() {
    let yaml = fixture_yaml(SESSION, &["0.000000".to_string(), "0.312000".to_string()]);
    assert_eq!(
        yaml,
        "---\nWeekendInfo:\n TrackName: roadatlanta full\n TrackDisplayName: Road Atlanta\n TrackConfigName: Full Course\n TrackLength: 4.09 km\nSplitTimeInfo:\n Sectors:\n - SectorNum: 0\n   SectorStartPct: 0.000000\n - SectorNum: 1\n   SectorStartPct: 0.312000\nDriverInfo:\n DriverCarIdx: 0\n Drivers:\n - CarIdx: 0\n   UserName: Test Driver\n   CarScreenName: Dallara P217 LMP2\n...\n"
    );
    for banned in ["Real Person", "Someone Else", "ResultsPositions"] {
        assert!(!yaml.contains(banned));
    }
    let reread = parse_track_info(&yaml);
    assert_eq!(reread.display_name, "Road Atlanta");
    assert_eq!(reread.car, "Dallara P217 LMP2");
    assert_eq!(reread.sector_starts, vec!["0.000000", "0.312000"]);
}

#[test]
fn fixture_session_is_utf8_with_a_nul() {
    let bytes = fixture_session("TrackName: Caf\u{e9}\n", &[]);
    assert_eq!(bytes.last(), Some(&0));
    let text = std::str::from_utf8(&bytes[..bytes.len() - 1]).expect("utf-8");
    assert!(text.contains(" TrackName: Caf\u{e9}\n"));
    assert!(bytes.windows(2).any(|w| w == [0xc3, 0xa9]));
}

#[test]
fn fixture_yaml_reads_back_even_with_colons_in_values() {
    let recorded = "WeekendInfo:\n TrackName: a DriverInfo: b\n TrackDisplayName: SplitTimeInfo: c\n TrackConfigName:   spaced   \n TrackLength: 5.1 km\nDriverInfo:\n DriverCarIdx: 3\n Drivers:\n - CarIdx: 3\n   CarScreenName: Car: GT3\n";
    let before = parse_track_info(recorded);
    let pcts = vec!["0.0".to_string(), "0.5".to_string(), "0.75".to_string()];
    let yaml = fixture_yaml(recorded, &pcts);
    let after = parse_track_info(&yaml);
    assert_eq!(after.track_name, "a DriverInfo: b");
    assert_eq!(after.track_name, before.track_name);
    assert_eq!(after.display_name, "SplitTimeInfo: c");
    assert_eq!(after.config_name, "spaced");
    assert_eq!(after.length_km.as_deref(), Some("5.1"));
    assert_eq!(after.sector_starts, pcts);
    assert_eq!(after.car, "Car: GT3");
    assert_eq!(after.car, before.car);
}
