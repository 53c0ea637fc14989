use rzip::archive::{get_abs_path, get_zip_structure, ArchiveNode, ZipEntry};
use rzip::date::DateParts;

fn entry(name: &str, is_dir: bool, size: u64, compressed_size: u64) -> ZipEntry {
    ZipEntry {
        name: name.to_string(),
        is_dir,
        size,
        compressed_size,
        last_modified: None,
    }
}

fn child<'a>(node: &'a ArchiveNode, name: &str) -> &'a ArchiveNode {
    node.children.iter().find(|c| c.name == name).expect("child present")
}

fn names(node: &ArchiveNode) -> Vec<String> {
    node.children.iter().map(|c| c.name.clone()).collect()
}

#[test]
fn root_of_empty_archive() {
    let (root, map) = get_zip_structure(&vec![], None);
    assert_eq!(root.name, "root");
    assert!(root.is_dir);
    assert!(root.children.is_empty());
    assert!(map.is_empty());
}

#[test]
fn entries_build_nested_tree() {
    let mut file = entry("docs/readme.txt", false, 120, 80);
    file.last_modified = Some(DateParts { year: 2024, month: 3, day: 5, hour: 7, minute: 8, second: 9 });
    let entries = vec![entry("docs/", true, 0, 0), file, entry("top.bin", false, 7, 7)];
    let (root, _) = get_zip_structure(&entries, None);
    assert_eq!(names(&root), vec!["docs".to_string(), "top.bin".to_string()]);
    let docs = child(&root, "docs");
    assert!(docs.is_dir);
    assert_eq!(docs.size, 0);
    assert!(docs.last_modified.is_none());
    let readme = child(docs, "readme.txt");
    assert!(!readme.is_dir);
    assert_eq!(readme.size, 120);
    assert_eq!(readme.compressed_size, 80);
    assert_eq!(readme.last_modified.as_deref(), Some("2024-03-05 07:08:09"));
    let top = child(&root, "top.bin");
    assert_eq!(top.size, 7);
}

#[test]
fn missing_parents_become_directories() {
    let (root, _) = get_zip_structure(&vec![entry("a/b/c.txt", false, 3, 2)], None);
    let a = child(&root, "a");
    let b = child(a, "b");
    assert!(a.is_dir && b.is_dir);
    assert_eq!(a.size, 0);
    assert_eq!(child(b, "c.txt").size, 3);
}

#[test]
fn first_entry_wins() {
    // "x" exists as a directory before the entry "x" itself comes
    let (root, _) = get_zip_structure(&vec![entry("x/y.txt", false, 5, 5), entry("x", false, 9, 9)], None);
    let x = child(&root, "x");
    assert!(x.is_dir);
    assert_eq!(x.size, 0);
    assert_eq!(names(x), vec!["y.txt".to_string()]);
}

#[test]
fn children_are_sorted_by_name() {
    let entries = vec![entry("b", false, 1, 1), entry("a", false, 1, 1), entry("B", false, 1, 1), entry("a", false, 2, 2)];
    let (root, _) = get_zip_structure(&entries, None);
    assert_eq!(names(&root), vec!["B".to_string(), "a".to_string(), "b".to_string()]);
    assert_eq!(child(&root, "a").size, 1);
}

#[test]
fn odd_names_keep_normal_components_only() {
    let entries = vec![entry("/abs//./p/../q", false, 4, 4), entry("./", true, 0, 0)];
    let (root, _) = get_zip_structure(&entries, None);
    assert_eq!(names(&root), vec!["abs".to_string()]);
    let abs = child(&root, "abs");
    assert_eq!(names(abs), vec!["p".to_string()]);
    let p = child(abs, "p");
    assert_eq!(names(p), vec!["q".to_string()]);
}

#[test]
fn path_map_records_requested_paths() {
    let entries = vec![entry("a/", true, 0, 0), entry("a/b.txt", false, 1, 1)];
    let targets = vec!["/a".to_string(), "a".to_string(), "zzz".to_string(), "//a/b.txt".to_string()];
    let (_, map) = get_zip_structure(&entries, Some(targets));
    assert_eq!(map.len(), 3);
    assert_eq!(map[0], ("a".to_string(), true));
    assert_eq!(map[1], ("zzz".to_string(), false));
    assert_eq!(map[2], ("a/b.txt".to_string(), true));
}

#[test]
fn requested_empty_list_gives_empty_map() {
    let (_, map) = get_zip_structure(&vec![entry("a", false, 1, 1)], Some(vec![]));
    assert!(map.is_empty());
}

#[test]
fn absolute_path_is_kept() {
    assert_eq!(get_abs_path("/tmp/a.zip", None).as_deref(), Some("/tmp/a.zip"));
}

#[test]
fn relative_path_is_joined() {
    assert_eq!(get_abs_path("a.zip", Some("/home/u".to_string())).as_deref(), Some("/home/u/a.zip"));
    assert_eq!(get_abs_path("a.zip", Some("/home/u/".to_string())).as_deref(), Some("/home/u/a.zip"));
    assert_eq!(get_abs_path("a.zip", None), None);
}
