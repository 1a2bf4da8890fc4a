use axolotl_core::error::ErrorKind;
use axolotl_core::selection::{canonicalize_selections, normalize_relative_directory};

fn input_message(result: Result<String, ErrorKind>) -> String {
    match result {
        Err(ErrorKind::InputError(message)) => message,
        other => panic!("expected an input error, got {other:?}"),
    }
}

#[test]
fn normalizes_and_deduplicates_directory_selections() {
    assert_eq!(
        canonicalize_selections(vec![
            "saves/world".to_string(),
            "config\\mod".to_string(),
            "saves".to_string(),
            "config".to_string(),
        ])
        .unwrap(),
        ["config", "saves"]
    );
}

#[test]
fn rejects_paths_outside_the_instance() {
    for path in ["", ".", "..", "../saves", "/saves", "C:\\saves"] {
        assert!(normalize_relative_directory(path).is_err(), "{path}");
    }
}

#[test]
fn normalization_trims_and_drops_empty_and_dot_pieces() {
    assert_eq!(normalize_relative_directory("  ./saves//world/./ ").unwrap(), "saves/world");
    assert_eq!(normalize_relative_directory("config\\mods").unwrap(), "config/mods");
}

#[test]
fn each_rejection_names_its_reason() {
    assert_eq!(
        input_message(normalize_relative_directory("   ")),
        "Backup directory must be a non-empty relative path"
    );
    assert_eq!(
        input_message(normalize_relative_directory("saves/../..")),
        "Backup directory must stay inside the instance: saves/../.."
    );
    assert_eq!(
        input_message(normalize_relative_directory("./")),
        "Backup directory must not resolve to the instance root"
    );
    assert_eq!(
        input_message(normalize_relative_directory("d:world")),
        "Backup directory must stay inside the instance: d:world"
    );
}

#[test]
fn canonical_selections_are_ordered_by_depth_then_name() {
    assert_eq!(
        canonicalize_selections(vec![
            "resourcepacks/b".to_string(),
            "mods".to_string(),
            "config/x".to_string(),
            "saves".to_string(),
            "saves".to_string(),
        ])
        .unwrap(),
        ["mods", "saves", "config/x", "resourcepacks/b"]
    );
}

#[test]
fn canonicalizing_twice_changes_nothing() {
    let once = canonicalize_selections(vec![
        "b/c".to_string(),
        "a".to_string(),
        "a/b".to_string(),
        "b/c/d".to_string(),
    ])
    .unwrap();
    let twice = canonicalize_selections(once.clone()).unwrap();
    assert_eq!(once, twice);
    assert_eq!(once, ["a", "b/c"]);
}

#[test]
fn empty_selection_is_refused() {
    match canonicalize_selections(Vec::new()) {
        Err(ErrorKind::InputError(message)) => {
            assert_eq!(message, "Select at least one directory to back up")
        }
        other => panic!("unexpected {other:?}"),
    }
}

#[test]
fn first_rejected_selection_is_reported() {
    match canonicalize_selections(vec!["saves".to_string(), "..".to_string(), "/x".to_string()]) {
        Err(ErrorKind::InputError(message)) => {
            assert_eq!(message, "Backup directory must stay inside the instance: ..")
        }
        other => panic!("unexpected {other:?}"),
    }
}

#[test]
fn normalizing_a_normalized_directory_changes_nothing() {
    for path in ["saves", " ./saves//world/. ", "a\\b\\.\\c", "config/./x/", "é/ü"] {
        let once = normalize_relative_directory(path).unwrap();
        assert_eq!(normalize_relative_directory(&once).unwrap(), once, "{path}");
    }
}

#[test]
fn a_drive_hidden_behind_a_dot_piece_is_refused_on_the_second_pass() {
    let once = normalize_relative_directory("./C:x").unwrap();
    assert_eq!(once, "C:x");
    assert!(normalize_relative_directory(&once).is_err());
    let spaced = normalize_relative_directory("./ x").unwrap();
    assert_eq!(spaced, " x");
    assert_eq!(normalize_relative_directory(&spaced).unwrap(), "x");
}

#[test]
fn the_canonical_form_ignores_order_and_repeats() {
    let a = canonicalize_selections(vec![
        "saves/w".to_string(),
        "mods".to_string(),
        "saves".to_string(),
    ])
    .unwrap();
    let b = canonicalize_selections(vec![
        "saves".to_string(),
        "mods".to_string(),
        "mods".to_string(),
        "saves/w".to_string(),
    ])
    .unwrap();
    assert_eq!(a, b);
    assert_eq!(a, ["mods", "saves"]);
}

#[test]
fn canonical_directories_cover_every_selection_without_nesting() {
    let selected = ["x/y/z", "x/y", "w", "x/yy"];
    let result =
        canonicalize_selections(selected.iter().map(|s| s.to_string()).collect()).unwrap();
    assert_eq!(result, ["w", "x/y", "x/yy"]);
    for s in selected {
        assert!(result.iter().any(|r| r == s || s.starts_with(&format!("{r}/"))), "{s}");
    }
    for a in &result {
        for b in &result {
            assert!(!b.starts_with(&format!("{a}/")));
        }
    }
}
