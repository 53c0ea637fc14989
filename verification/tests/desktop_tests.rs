use rzip::archive::ZipEntry;
use rzip::desktop::{get_file_ext, get_zip_structure, is_filename_valid, is_valid_mac_filename, ArchiveNode};

fn entry(name: &str, is_dir: bool, size: u64, compressed_size: u64) -> ZipEntry {
    ZipEntry { name: name.to_string(), is_dir, size, compressed_size, last_modified: None }
}

fn child<'a>(node: &'a ArchiveNode, name: &str) -> &'a ArchiveNode {
    node.children.iter().find(|c| c.name == name).expect("child present")
}

#[test]
fn mac_file_names() {
    assert!(is_valid_mac_filename("report.pdf"));
    assert!(is_valid_mac_filename(".hidden"));
    assert!(is_valid_mac_filename("..."));
    assert!(!is_valid_mac_filename(""));
    assert!(!is_valid_mac_filename("."));
    assert!(!is_valid_mac_filename(".."));
    assert!(!is_valid_mac_filename("a/b"));
    assert!(!is_valid_mac_filename("nul\0byte"));
    assert!(is_valid_mac_filename(&"x".repeat(255)));
    assert!(!is_valid_mac_filename(&"x".repeat(256)));
    // 128 two-byte characters are 256 bytes
    assert!(!is_valid_mac_filename(&"é".repeat(128)));
    assert!(is_valid_mac_filename(&"é".repeat(127)));
    assert!(is_filename_valid("ok"));
    assert!(!is_filename_valid("no/"));
}

#[test]
fn node_constructors() {
    let d = ArchiveNode::default();
    assert_eq!(d.name, "");
    assert!(d.is_dir);
    assert_eq!(d.size, 0);
    let n = ArchiveNode::from_name("root");
    assert_eq!(n.name, "root");
    assert!(n.children.is_empty());
    assert!(n.ext.is_none());
}

#[test]
fn directories_add_up_sizes() {
    let entries = vec![
        entry("d/", true, 0, 0),
        entry("d/a.txt", false, 10, 4),
        entry("d/b.md", false, 5, 2),
        entry("e.rs", false, 1, 1),
    ];
    let root = get_zip_structure(&entries).expect("sizes fit");
    assert_eq!(root.name, "root");
    assert_eq!(root.size, 16);
    assert_eq!(root.compressed_size, 7);
    let d = child(&root, "d");
    assert!(d.is_dir);
    assert_eq!(d.size, 15);
    let a = child(d, "a.txt");
    assert_eq!(a.size, 10);
    assert_eq!(a.ext.as_deref(), Some("txt"));
    assert_eq!(child(&root, "e.rs").ext.as_deref(), Some("rs"));
}

#[test]
fn a_missing_parent_takes_the_entry_kind() {
    // the parent "p" is created from a file entry: it is marked as a file,
    // carries the file's size and extension, and then adds the size again
    let root = get_zip_structure(&vec![entry("p/q.txt", false, 10, 3)]).expect("sizes fit");
    let p = child(&root, "p");
    assert!(!p.is_dir);
    assert_eq!(p.size, 20);
    assert_eq!(p.ext.as_deref(), Some("txt"));
    assert_eq!(root.size, 10);
}

#[test]
fn sizes_that_overflow_give_none() {
    let entries = vec![entry("a", false, u64::MAX, 0), entry("b", false, 1, 0)];
    assert!(get_zip_structure(&entries).is_none());
}

#[test]
fn extension_of_paths() {
    assert_eq!(get_file_ext("x/y/archive.tar.gz").as_deref(), Some("gz"));
    assert_eq!(get_file_ext("x/.profile"), None);
}
