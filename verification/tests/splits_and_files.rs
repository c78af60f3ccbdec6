use pit_crew_coach::files::{
    import_kind, listing_dir, newest_first, typed_path, FileKind, ImportRefusal, MAX_LISTED,
};
use pit_crew_coach::runs::pick_model;
use pit_crew_coach::splits::SplitStore;

#[test]
fn splits_get_growing_ids_that_are_never_reused() {
    let mut store: SplitStore<&str> = SplitStore::new();
    assert_eq!(store.next_id(), "split-1");
    assert_eq!(store.add("first"), "split-1");
    assert_eq!(store.add("second"), "split-2");
    assert_eq!(store.len(), 2);
    assert_eq!(store.get("split-2"), Some(&"second"));
    assert!(store.remove("split-2"));
    assert_eq!(store.get("split-2"), None);
    assert!(!store.remove("split-2"));
    assert_eq!(store.add("third"), "split-3");
    assert_eq!(store.splits(), &["first", "third"]);
    assert_eq!(store.position("split-3"), Some(1));
}

#[test]
fn split_lookup_compares_whole_ids() {
    let mut store: SplitStore<u32> = SplitStore::new();
    for n in 0..12 {
        store.add(n);
    }
    assert_eq!(store.get("split-1"), Some(&0));
    assert_eq!(store.get("split-10"), Some(&9));
    assert_eq!(store.get("split-01"), None);
    assert_eq!(store.get("split-"), None);
    assert_eq!(store.position("split-12"), Some(11));
}

#[test]
fn split_contents_can_be_changed_in_place() {
    let mut store: SplitStore<Vec<u8>> = SplitStore::new();
    store.add(vec![1]);
    store.add(vec![2]);
    store.split_mut(1).push(3);
    assert_eq!(store.get("split-2"), Some(&vec![2, 3]));
    assert_eq!(store.get("split-1"), Some(&vec![1]));
    assert!(store.has_room());
}

#[test]
fn blank_model_falls_back_to_default() {
    assert_eq!(pick_model(Some("llama3"), "qwen"), "llama3");
    assert_eq!(pick_model(Some("  "), "qwen"), "qwen");
    assert_eq!(pick_model(Some(""), "qwen"), "qwen");
    assert_eq!(pick_model(None, "qwen"), "qwen");
    assert_eq!(pick_model(Some(" llama3 "), "qwen"), " llama3 ");
}

#[test]
fn typed_paths_lose_spaces_then_quotes() {
    assert_eq!(typed_path("  \"C:\\telemetry\\a.ibt\"  "), "C:\\telemetry\\a.ibt");
    assert_eq!(typed_path("\" \""), " ");
    assert_eq!(typed_path("   "), "");
    assert_eq!(typed_path("\"\"x\"\""), "x");
}

#[test]
fn import_refusals_come_in_order() {
    assert_eq!(import_kind("", false, false, ""), Err(ImportRefusal::EmptyPath));
    assert_eq!(import_kind("a.ibt", false, false, "ibt"), Err(ImportRefusal::NotFound));
    assert_eq!(import_kind("dir", true, true, ""), Err(ImportRefusal::Folder));
    assert_eq!(import_kind("a.txt", true, false, "txt"), Err(ImportRefusal::Unsupported));
    assert_eq!(import_kind("a.IBT", true, false, "IBT"), Ok(FileKind::Ibt));
    assert_eq!(import_kind("a.csv", true, false, "csv"), Ok(FileKind::Csv));
}

#[test]
fn listing_folder_prefers_typed_then_detected_then_fixtures() {
    assert_eq!(listing_dir(Some(" \"D:\\x\" "), Some("C:\\t"), true), Some("D:\\x".to_string()));
    assert_eq!(listing_dir(Some(" \"\" "), Some("C:\\t"), true), Some("C:\\t".to_string()));
    assert_eq!(listing_dir(None, None, true), Some("tests/fixtures".to_string()));
    assert_eq!(listing_dir(None, None, false), None);
}

#[test]
fn newest_files_first_ties_in_listed_order() {
    assert_eq!(newest_first(&[5, 9, 5, 1, 9]), vec![1, 4, 0, 2, 3]);
    assert_eq!(newest_first(&[]), Vec::<usize>::new());
}

#[test]
fn listing_keeps_the_newest_two_hundred() {
    let modified: Vec<u128> = (0..250u128).collect();
    let order = newest_first(&modified);
    assert_eq!(order.len(), MAX_LISTED);
    assert_eq!(order[0], 249);
    assert_eq!(order[199], 50);
}
