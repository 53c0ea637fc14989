use rzip::path::{components, extension, file_name, is_absolute, join, normal_components, PathComponent};

fn texts(p: &str) -> Vec<String> {
    components(p)
        .into_iter()
        .map(|c| match c {
            PathComponent::RootDir => "<root>".to_string(),
            PathComponent::CurDir => "<cur>".to_string(),
            PathComponent::ParentDir => "<parent>".to_string(),
            PathComponent::Normal(s) => s,
        })
        .collect()
}

#[test]
fn components_follow_std() {
    let cases = ["/a//b/./c/", "./a/./b", "../x", "", "/", ".", "a/.", "//", "a/../b", ".hidden/x.y"];
    for case in cases {
        let std: Vec<String> = std::path::Path::new(case)
            .components()
            .map(|c| match c {
                std::path::Component::RootDir => "<root>".to_string(),
                std::path::Component::CurDir => "<cur>".to_string(),
                std::path::Component::ParentDir => "<parent>".to_string(),
                std::path::Component::Normal(s) => s.to_str().unwrap().to_string(),
                std::path::Component::Prefix(_) => "<prefix>".to_string(),
            })
            .collect();
        assert_eq!(texts(case), std, "path {:?}", case);
    }
}

#[test]
fn components_exact_values() {
    assert_eq!(texts("/a//b/./c/"), vec!["<root>", "a", "b", "c"]);
    assert_eq!(texts("./a"), vec!["<cur>", "a"]);
    assert_eq!(texts("a/./b"), vec!["a", "b"]);
    assert!(texts("").is_empty());
}

#[test]
fn normal_components_drop_the_rest() {
    assert_eq!(normal_components("/x/../y/./z"), vec!["x".to_string(), "y".to_string(), "z".to_string()]);
}

#[test]
fn file_names_and_extensions() {
    assert_eq!(file_name("a/b.tar.gz").as_deref(), Some("b.tar.gz"));
    assert_eq!(extension("a/b.tar.gz").as_deref(), Some("gz"));
    assert_eq!(extension(".bashrc"), None);
    assert_eq!(extension("a.").as_deref(), Some(""));
    assert_eq!(extension("noext"), None);
    assert_eq!(file_name("dir/").as_deref(), Some("dir"));
    assert_eq!(file_name("a/.."), None);
    assert_eq!(file_name("/"), None);
    for p in ["a/b.tar.gz", ".bashrc", "a.", "noext", "x/.y.z", "..", "."] {
        let std = std::path::Path::new(p).extension().map(|e| e.to_str().unwrap().to_string());
        assert_eq!(extension(p), std, "path {:?}", p);
    }
}

#[test]
fn joining_paths() {
    assert_eq!(join("/home", "a"), "/home/a");
    assert_eq!(join("/home/", "a"), "/home/a");
    assert_eq!(join("", "a"), "a");
    assert_eq!(join("/home", "/etc"), "/etc");
    assert!(is_absolute("/x"));
    assert!(!is_absolute("x/"));
}
