use rzip::archive::{get_zip_structure, ZipEntry};
use rzip::compress::extracted_message;
use rzip::listing::{list, list_file_details, list_recursive, ListItem};

fn entry(name: &str, is_dir: bool, size: u64) -> ZipEntry {
    ZipEntry { name: name.to_string(), is_dir, size, compressed_size: size, last_modified: None }
}

fn sample() -> Vec<ZipEntry> {
    vec![entry("docs/", true, 0), entry("docs/a.txt", false, 3), entry("b.txt", false, 1)]
}

#[test]
fn coloured_directory_row_is_bold_blue() {
    colored::control::set_override(true);
    let (root, _) = get_zip_structure(&sample(), None);
    let rows = list_file_details(&root);
    assert_eq!(rows[0].name, "\u{1b}[1;34mdocs\u{1b}[0m");
    assert_eq!(rows[1].name, "b.txt");
}

#[test]
fn coloured_tree_lines() {
    colored::control::set_override(true);
    let (root, _) = get_zip_structure(&sample(), None);
    let lines = list_recursive(&root, None);
    assert_eq!(lines.len(), 3);
    // the top level has no guides and no branch mark, painted all the same
    assert_eq!(lines[0].guides, "\u{1b}[32m\u{1b}[0m");
    assert_eq!(lines[0].branch, "\u{1b}[1;32m\u{1b}[0m");
    assert_eq!(lines[0].name, "\u{1b}[34mdocs\u{1b}[0m");
    assert_eq!(lines[1].branch, "\u{1b}[1;32m|--\u{1b}[0m");
    assert_eq!(lines[1].name, "a.txt");
    assert_eq!(lines[2].name, "b.txt");
}

#[test]
fn coloured_titles() {
    colored::control::set_override(true);
    let targets = vec!["docs".to_string(), "b.txt".to_string()];
    let (root, map) = get_zip_structure(&sample(), Some(targets));
    let items = list(&root, &map, false);
    match &items[0] {
        ListItem::Title(t) => assert_eq!(t, "\u{1b}[1;32mdocs: \u{1b}[0m"),
        _ => panic!("expected a title"),
    }
}

#[test]
fn coloured_extracted_message() {
    colored::control::set_override(true);
    assert_eq!(
        extracted_message("/tmp/out"),
        "\u{1b}[32mExtracted to \u{1b}[32m/tmp/out\u{1b}[0m\u{1b}[32m\u{1b}[0m"
    );
}
