use rzip::archive::{get_zip_structure, ZipEntry};
use rzip::listing::{list, list_file, list_file_details, list_recursive, listable, FileDetails, ListItem};

fn entry(name: &str, is_dir: bool, size: u64) -> ZipEntry {
    ZipEntry { name: name.to_string(), is_dir, size, compressed_size: size / 2, last_modified: None }
}

fn sample() -> Vec<ZipEntry> {
    vec![
        entry("zeta.txt", false, 10),
        entry("alpha/", true, 0),
        entry("alpha/inner.txt", false, 4),
        entry("beta/", true, 0),
        entry("beta/deep/", true, 0),
        entry("beta/deep/x.bin", false, 2),
        entry("aaa.txt", false, 6),
    ]
}

/// The name as printed, without colour codes.
fn plain(s: &str) -> String {
    let mut out = String::new();
    let mut chars = s.chars().peekable();
    while let Some(c) = chars.next() {
        if c == '\u{1b}' {
            for d in chars.by_ref() {
                if d == 'm' {
                    break;
                }
            }
        } else {
            out.push(c);
        }
    }
    out
}

fn row_names(rows: &[FileDetails]) -> Vec<String> {
    rows.iter().map(|r| plain(&r.name)).collect()
}

#[test]
fn directories_come_first() {
    let (root, _) = get_zip_structure(&sample(), None);
    let rows = list_file_details(&root);
    assert_eq!(row_names(&rows), vec!["alpha", "beta", "aaa.txt", "zeta.txt"]);
    assert_eq!(rows[2].size, 6);
    assert_eq!(rows[2].compressed_size, 3);
    assert_eq!(rows[2].last_modified, "");
    assert_eq!(rows[2].name, "aaa.txt");
}

#[test]
fn directory_names_are_bold_blue_or_plain() {
    let (root, _) = get_zip_structure(&sample(), None);
    let rows = list_file_details(&root);
    assert!(rows[0].name == "alpha" || rows[0].name == "\u{1b}[1;34malpha\u{1b}[0m");
}

#[test]
fn listing_a_file_shows_the_file() {
    let (root, _) = get_zip_structure(&sample(), None);
    let rows = list_file(&root, "beta/deep/x.bin");
    assert_eq!(row_names(&rows), vec!["x.bin"]);
    assert_eq!(rows[0].size, 2);
}

#[test]
fn listing_a_directory_path() {
    let (root, _) = get_zip_structure(&sample(), None);
    assert_eq!(row_names(&list_file(&root, "/beta/")), vec!["deep"]);
    // a component that matches nothing is skipped
    assert_eq!(row_names(&list_file(&root, "nope/alpha")), vec!["inner.txt"]);
}

#[test]
fn recursive_listing_lines() {
    let (root, _) = get_zip_structure(&sample(), None);
    assert!(listable(&root));
    let lines = list_recursive(&root, None);
    let shown: Vec<String> = lines
        .iter()
        .map(|l| format!("{}{}{}", plain(&l.guides), plain(&l.branch), plain(&l.name)))
        .collect();
    assert_eq!(
        shown,
        vec![
            "alpha",
            "|--inner.txt",
            "beta",
            "|--deep",
            "|  |--x.bin",
            "aaa.txt",
            "zeta.txt",
        ]
    );
    let sub = list_recursive(&root, Some("beta"));
    let shown: Vec<String> = sub.iter().map(|l| format!("{}{}{}", plain(&l.guides), plain(&l.branch), plain(&l.name))).collect();
    assert_eq!(shown, vec!["deep", "|--x.bin"]);
}

#[test]
fn ls_without_paths_lists_the_top_level() {
    let (root, map) = get_zip_structure(&sample(), None);
    let items = list(&root, &map, false);
    assert_eq!(items.len(), 1);
    match &items[0] {
        ListItem::Table(rows) => assert_eq!(row_names(rows), vec!["alpha", "beta", "aaa.txt", "zeta.txt"]),
        _ => panic!("expected a table"),
    }
}

#[test]
fn ls_with_paths() {
    let targets = vec!["alpha".to_string(), "missing".to_string(), "beta/deep".to_string()];
    let (root, map) = get_zip_structure(&sample(), Some(targets));
    let items = list(&root, &map, false);
    let kinds: Vec<String> = items
        .iter()
        .map(|it| match it {
            ListItem::Missing(m) => format!("missing:{}", m),
            ListItem::Separator => "sep".to_string(),
            ListItem::Title(t) => format!("title:{}", plain(t)),
            ListItem::Table(rows) => format!("table:{}", row_names(rows).join(",")),
            ListItem::Tree(lines) => format!("tree:{}", lines.len()),
        })
        .collect();
    assert_eq!(
        kinds,
        vec![
            "title:alpha: ",
            "table:inner.txt",
            "missing:missing: No such file or directory",
            "sep",
            "title:beta/deep: ",
            "table:x.bin",
        ]
    );
}

#[test]
fn ls_with_one_existing_path_has_no_title() {
    let (root, map) = get_zip_structure(&sample(), Some(vec!["beta".to_string()]));
    let items = list(&root, &map, true);
    assert_eq!(items.len(), 1);
    match &items[0] {
        ListItem::Tree(lines) => assert_eq!(lines.len(), 2),
        _ => panic!("expected a tree"),
    }
}
