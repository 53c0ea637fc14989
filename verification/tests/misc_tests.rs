use rzip::compress::{pack_step, PackStep, PathKind, check_destination, extract_plan, extracted_message, get_default_file_name, strip_name, walk_action, WalkAction};
use rzip::delete::{entry_action, get_tmp_name, tmp_name_for_target, EntryAction};
use rzip::error::ZipError;
use rzip::icon::{build_manifest, get_icon_manifest, FileIcon};
use std::collections::BTreeMap;

#[test]
fn deletion_decisions() {
    let files = vec!["docs/".to_string()];
    assert_eq!(entry_action("docs/", true, &files), EntryAction::Skip);
    assert_eq!(entry_action("docs/a.txt", false, &files), EntryAction::Skip);
    assert_eq!(entry_action("docsx", false, &files), EntryAction::Skip);
    assert_eq!(entry_action("src/", true, &files), EntryAction::AddDirectory);
    assert_eq!(entry_action("src/a.rs", false, &files), EntryAction::CopyFile);
    assert_eq!(entry_action("__MACOSX/x", false, &files), EntryAction::Skip);
    assert_eq!(entry_action(".DS_Store", false, &files), EntryAction::Skip);
}

#[test]
fn nothing_to_delete_keeps_everything() {
    let none: Vec<String> = vec![];
    assert_eq!(entry_action("__MACOSX/x", false, &none), EntryAction::CopyFile);
    assert_eq!(entry_action("d/", true, &none), EntryAction::AddDirectory);
}

#[test]
fn a_lone_slash_deletes_everything() {
    let files = vec!["/".to_string()];
    assert_eq!(entry_action("anything", false, &files), EntryAction::Skip);
}

#[test]
fn temporary_names() {
    assert_eq!(get_tmp_name(1700000000123), ".tmp_1700000000123");
    assert_eq!(tmp_name_for_target("/x/y/a.zip").as_deref(), Some(".tmp_a.zip"));
    assert_eq!(tmp_name_for_target("/"), None);
}

#[test]
fn archive_entry_names() {
    assert_eq!(strip_name("/a/b"), "a/b");
    assert_eq!(strip_name("//a"), "/a");
    assert_eq!(strip_name("a"), "a");
    match walk_action("/base/dir/sub", "/base", true) {
        Some(WalkAction::AddDirectory(n)) => assert_eq!(n, "dir/sub/"),
        _ => panic!("expected a directory"),
    }
    match walk_action("/base/dir/f.txt", "/base", false) {
        Some(WalkAction::AddFile(n)) => assert_eq!(n, "dir/f.txt"),
        _ => panic!("expected a file"),
    }
    assert!(matches!(walk_action("/base", "/base", true), Some(WalkAction::Nothing)));
    assert!(walk_action("/other/x", "/base", false).is_none());
}

#[test]
fn default_names_and_destinations() {
    assert_eq!(get_default_file_name(1), "new_archive_1.zip");
    assert_eq!(get_default_file_name(42), "new_archive_42.zip");
    assert!(matches!(check_destination("/o.zip", false, false), Ok(false)));
    assert!(matches!(check_destination("/o.zip", true, true), Ok(true)));
    match check_destination("/o.zip", true, false) {
        Err(ZipError::FileExist(p)) => assert_eq!(p, "/o.zip"),
        _ => panic!("expected an error"),
    }
}

#[test]
fn extraction_choices() {
    let p = extract_plan(None, &None);
    assert_eq!(p.output, "./");
    assert!(p.extract);
    let p = extract_plan(Some("out".to_string()), &Some("pw".to_string()));
    assert_eq!(p.output, "out");
    assert!(!p.extract);
    let m = extracted_message("/tmp/x");
    assert!(m == "Extracted to /tmp/x" || m == "\u{1b}[32mExtracted to \u{1b}[32m/tmp/x\u{1b}[0m\u{1b}[32m\u{1b}[0m");
}

#[test]
fn error_messages() {
    assert_eq!(ZipError::FileNotFound("a.zip".to_string()).message(), "\"a.zip\" can not be found");
    assert_eq!(ZipError::FileExist("q\"x".to_string()).message(), "\"q\\\"x\" already exists");
    // the path prints as std's `Debug` for a path prints it
    assert_eq!(
        ZipError::FileNotFound("it's.zip".to_string()).message(),
        format!("{:?} can not be found", std::path::Path::new("it's.zip"))
    );
    assert_eq!(
        ZipError::FileExist("it's.zip".to_string()).message(),
        format!("{:?} already exists", std::path::PathBuf::from("it's.zip"))
    );
}

#[test]
fn icon_manifest() {
    let icons = vec![
        FileIcon { name: "text".to_string(), exts: vec!["txt".to_string(), "md".to_string()], file_names: None },
        FileIcon { name: "rust".to_string(), exts: vec!["rs".to_string()], file_names: Some(vec!["Cargo.toml".to_string()]) },
        FileIcon { name: "markdown".to_string(), exts: vec!["md".to_string()], file_names: None },
    ];
    let m = build_manifest(&icons);
    let icon_map: BTreeMap<String, u16> = m.icon_map.iter().cloned().collect();
    let code_map: BTreeMap<u16, String> = m.code_map.iter().cloned().collect();
    assert_eq!(icon_map.get("txt"), Some(&0));
    assert_eq!(icon_map.get("md"), Some(&2));
    assert_eq!(icon_map.get("rs"), Some(&1));
    assert_eq!(icon_map.get("Cargo.toml"), Some(&1));
    assert_eq!(icon_map.len(), 4);
    assert_eq!(code_map.get(&0).map(|s| s.as_str()), Some("text"));
    assert_eq!(code_map.get(&2).map(|s| s.as_str()), Some("markdown"));
    assert_eq!(code_map.len(), 3);
}

#[test]
fn icon_manifest_of_a_parse_failure_is_empty() {
    let m = get_icon_manifest(None);
    assert!(m.icon_map.is_empty());
    assert!(m.code_map.is_empty());
    let icons = vec![FileIcon { name: "text".to_string(), exts: vec!["txt".to_string()], file_names: None }];
    let m = get_icon_manifest(Some(icons));
    assert_eq!(m.icon_map, vec![("txt".to_string(), 0)]);
    assert_eq!(m.code_map, vec![(0, "text".to_string())]);
}

#[test]
fn packing_steps() {
    match pack_step("gone.txt", PathKind::Missing, false) {
        Some(PackStep::Fail(ZipError::FileNotFound(p))) => assert_eq!(p, "gone.txt"),
        _ => panic!("expected an error"),
    }
    match pack_step("dir/a.txt", PathKind::File, true) {
        Some(PackStep::AddFile(n)) => assert_eq!(n, "a.txt"),
        _ => panic!("expected a file"),
    }
    assert!(pack_step("a/..", PathKind::File, false).is_none());
    match pack_step("y", PathKind::Dir("/x/y".to_string()), true) {
        Some(PackStep::Walk { dir, base }) => {
            assert_eq!(dir, "/x/y");
            assert_eq!(base, "/x");
        }
        _ => panic!("expected a walk"),
    }
    match pack_step("y", PathKind::Dir("/x/y".to_string()), false) {
        Some(PackStep::Walk { dir, base }) => {
            assert_eq!(dir, "/x/y");
            assert_eq!(base, "/x/y");
        }
        _ => panic!("expected a walk"),
    }
    match pack_step("top", PathKind::Dir("/top".to_string()), true) {
        Some(PackStep::Walk { base, .. }) => assert_eq!(base, "/"),
        _ => panic!("expected a walk"),
    }
    assert!(pack_step("/", PathKind::Dir("/".to_string()), true).is_none());
}
