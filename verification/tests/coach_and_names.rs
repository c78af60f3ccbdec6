use pit_crew_coach::coach::{clean_reply, coach_feedback, join, strip_ansi, CoachOutcome};
use pit_crew_coach::files::{collect_telemetry_files, file_kind, normalize_path, FileKind, TelemetrySource};
use pit_crew_coach::runs::{add_corner_notes, clean_turn_label, split_id, track_label};
use pit_crew_coach::track::{
    fixture_file_name, map_source, resolve, track_path, wants_saved_sectors, MapPlan, SavedMapInfo,
};

#[test]
fn strip_ansi_removes_csi_sequences_and_lone_escapes() {
    assert_eq!(strip_ansi("\u{1b}[?25l\u{1b}[2KHello\u{1b}[0m world"), "Hello world");
    assert_eq!(strip_ansi("a\u{1b}b"), "ab");
    assert_eq!(strip_ansi("x\u{1b}[12"), "x");
    assert_eq!(strip_ansi("plain text"), "plain text");
    assert_eq!(strip_ansi(""), "");
}

#[test]
fn replies_are_trimmed_and_unquoted() {
    assert_eq!(clean_reply("\u{1b}[K  \"Brake later.\"  \n"), "Brake later.");
    assert_eq!(clean_reply(" \" \"inner\" \" "), "\"inner\"");
    assert_eq!(clean_reply("\u{1b}[2K"), "");
}

#[test]
fn feedback_falls_back_to_suggestions() {
    let suggestions = vec!["One".to_string(), "Two".to_string()];
    assert_eq!(
        coach_feedback(&CoachOutcome::Replied("  \"Go faster\" ".to_string()), &suggestions),
        "Go faster"
    );
    assert_eq!(coach_feedback(&CoachOutcome::Replied("\"\"".to_string()), &suggestions), "One; Two");
    assert_eq!(coach_feedback(&CoachOutcome::Failed, &suggestions), "One; Two");
    assert!(coach_feedback(&CoachOutcome::NotInstalled, &suggestions).starts_with("Ollama is not installed"));
    assert_eq!(join(&[], "; "), "");
    assert_eq!(join(&["a".to_string()], "; "), "a");
}

#[test]
fn track_maps_are_saved_under_a_slug() {
    assert_eq!(track_path("  Road Atlanta Full "), Some("data/tracks/road-atlanta-full.json".to_string()));
    assert_eq!(track_path("--Spa 2024!"), Some("data/tracks/spa-2024.json".to_string()));
    assert_eq!(track_path("Nürburgring"), Some("data/tracks/n-rburgring.json".to_string()));
    assert_eq!(track_path("  "), None);
    assert_eq!(track_path("?!"), None);
}

#[test]
fn fixture_files_are_named_after_the_track() {
    assert_eq!(fixture_file_name("roadatlanta full"), "roadatlanta-full.ibt");
    assert_eq!(fixture_file_name(""), "track.ibt");
    assert_eq!(fixture_file_name("***"), "track.ibt");
}

#[test]
fn saved_maps_are_upgraded_only_when_the_run_improves_them() {
    let heading = Some(SavedMapInfo { source: "heading".to_string(), sector_count: 4 });
    let gps_no_sectors = Some(SavedMapInfo { source: "gps".to_string(), sector_count: 0 });
    let gps = Some(SavedMapInfo { source: "gps".to_string(), sector_count: 4 });
    assert_eq!(resolve("t", 4, &heading, false, true), MapPlan::KeepSaved);
    assert_eq!(resolve("t", 4, &heading, true, true), MapPlan::Upgrade { points: true, sectors: false });
    assert_eq!(resolve("t", 4, &heading, true, false), MapPlan::KeepSaved);
    assert_eq!(resolve("t", 4, &gps_no_sectors, true, false), MapPlan::Upgrade { points: false, sectors: true });
    assert_eq!(resolve("t", 1, &gps_no_sectors, true, true), MapPlan::KeepSaved);
    assert_eq!(resolve("t", 4, &gps, true, true), MapPlan::KeepSaved);
    assert_eq!(resolve("t", 4, &None, true, true), MapPlan::Create { save: true });
    assert_eq!(resolve("", 4, &None, true, false), MapPlan::Create { save: false });
    assert_eq!(map_source(true), "gps");
    assert_eq!(map_source(false), "heading");
    assert!(wants_saved_sectors(1));
    assert!(!wants_saved_sectors(2));
}

#[test]
fn telemetry_files_are_recognised_by_extension() {
    assert_eq!(file_kind("CSV"), Some(FileKind::Csv));
    assert_eq!(file_kind("ibt"), Some(FileKind::Ibt));
    assert_eq!(file_kind("Ibt"), Some(FileKind::Ibt));
    assert_eq!(file_kind("ibtx"), None);
    assert_eq!(file_kind(""), None);
}

#[test]
fn telemetry_source_prefers_file_then_folder_then_default() {
    assert_eq!(normalize_path("a/b.ibt"), "a/b.ibt");
    assert_eq!(
        collect_telemetry_files(Some("s.ibt"), Some("dir"), false, false, Some("d")),
        TelemetrySource::Single("s.ibt".to_string())
    );
    assert_eq!(
        collect_telemetry_files(Some("folder"), None, true, false, None),
        TelemetrySource::Scan("folder".to_string())
    );
    assert_eq!(
        collect_telemetry_files(None, Some("dir"), false, false, Some("d")),
        TelemetrySource::Scan("dir".to_string())
    );
    assert_eq!(
        collect_telemetry_files(None, Some("laps.csv"), false, true, None),
        TelemetrySource::Single("laps.csv".to_string())
    );
    assert_eq!(
        collect_telemetry_files(None, None, false, false, Some("tele")),
        TelemetrySource::Scan("tele".to_string())
    );
    assert_eq!(
        collect_telemetry_files(None, None, false, false, None),
        TelemetrySource::Single("data/practice_session.csv".to_string())
    );
}

#[test]
fn corner_notes_follow_the_focus_sector() {
    let mut suggestions = vec!["Focus on sector 2".to_string(), "Smooth inputs".to_string()];
    let mut notes = Vec::new();
    add_corner_notes(&mut suggestions, &mut notes, true, vec!["Turn 5".to_string(), "Turn 1".to_string()]);
    assert_eq!(suggestions, vec!["Focus on sector 2", "Turn 5", "Turn 1", "Smooth inputs"]);
    assert_eq!(notes, vec!["Turn 5", "Turn 1"]);

    let mut suggestions = vec!["Smooth inputs".to_string()];
    add_corner_notes(&mut suggestions, &mut notes, false, vec!["Turn 3".to_string()]);
    assert_eq!(suggestions, vec!["Turn 3", "Smooth inputs"]);

    let mut suggestions = Vec::new();
    add_corner_notes(&mut suggestions, &mut notes, true, vec!["Turn 3".to_string()]);
    assert_eq!(suggestions, vec!["Turn 3"]);
}

#[test]
fn runs_are_labelled_and_named() {
    assert_eq!(track_label("Road Atlanta", "Full Course"), "Road Atlanta · Full Course");
    assert_eq!(track_label("Road Atlanta", ""), "Road Atlanta");
    assert_eq!(track_label("", "Full Course"), "");
    assert_eq!(split_id(1), "split-1");
    assert_eq!(split_id(407), "split-407");
    assert_eq!(split_id(0), "split-0");
}

#[test]
fn turn_labels_are_trimmed_to_twelve_characters() {
    assert_eq!(clean_turn_label("  10a "), "10a");
    assert_eq!(clean_turn_label(" The Esses and more "), "The Esses an");
    assert_eq!(clean_turn_label("ÄÖÜäöüßéèêëç13"), "ÄÖÜäöüßéèêëç");
}
