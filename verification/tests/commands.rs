use pit_crew_coach::commands::{command_names, pathext_extensions};

#[test]
fn pathext_lists_trimmed_lowercase_extensions() {
    assert_eq!(pathext_extensions(".COM;.EXE;.BAT;.CMD"), vec![".com", ".exe", ".bat", ".cmd"]);
    assert_eq!(pathext_extensions(" .Exe ;; ;.PY"), vec![".exe", ".py"]);
    assert!(pathext_extensions("").is_empty());
    assert!(pathext_extensions(";;").is_empty());
    assert_eq!(pathext_extensions(".CMD;"), vec![".cmd"]);
}

#[test]
fn command_names_add_extensions_only_when_asked() {
    let exts = vec![".com".to_string(), ".exe".to_string()];
    assert_eq!(command_names("ollama", true, &exts), vec!["ollama", "ollama.com", "ollama.exe"]);
    assert_eq!(command_names("ollama.exe", false, &exts), vec!["ollama.exe"]);
    assert_eq!(command_names("espeak", true, &[]), vec!["espeak"]);
}
