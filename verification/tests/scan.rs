use api_release::fs::{
    generate_file_data_from_listing, generate_root_from_listing, should_ignore, DirListing,
    FileListing, ListingEntry, ProgressData,
};
use api_release::join_path;
use api_release::node::Node;

fn file_entry(name: &str, mtime: u64) -> ListingEntry {
    ListingEntry::File(FileListing { name: name.to_string(), last_modified: mtime })
}

fn dir_entry(name: &str, entries: Vec<ListingEntry>) -> ListingEntry {
    ListingEntry::Directory(DirListing { name: name.to_string(), entries })
}

#[test]
fn test_join_path() {
    assert_eq!(join_path("", "dir"), "dir");
    assert_eq!(join_path(".", "dir"), "./dir");
    assert_eq!(join_path("./dir", "b.txt"), "./dir/b.txt");
}

#[test]
fn test_should_ignore_both_spellings() {
    let ignore = vec!["dir".to_string()];
    assert!(should_ignore("dir/sub", &ignore));
    assert!(should_ignore("./dir", &ignore));
    assert!(!should_ignore("./other", &ignore));
    assert!(!should_ignore("./di", &ignore));
    let none: Vec<String> = Vec::new();
    assert!(!should_ignore("./dir", &none));
}

#[test]
fn test_scan_ignores_directory() {
    // scanning a tree containing dir/x.txt with ignore list ["dir"]
    // produces a root with no dir child
    let listing = DirListing {
        name: String::new(),
        entries: vec![dir_entry("dir", vec![file_entry("x.txt", 1)])],
    };
    let ignore = vec!["dir".to_string()];
    let root = generate_root_from_listing(&listing, "", &ignore);
    assert_eq!(root.name, ".");
    assert!(root.children().is_empty());
}

#[test]
fn test_scan_builds_sorted_tree_without_hashes() {
    let listing = DirListing {
        name: String::new(),
        entries: vec![
            file_entry("zebra.txt", 9),
            dir_entry("sub", vec![file_entry("inner.txt", 5)]),
            file_entry("alpha.txt", 3),
        ],
    };
    let no_ignore: Vec<String> = Vec::new();
    let root = generate_root_from_listing(&listing, "", &no_ignore);
    assert_eq!(root.name, ".");
    assert!(root.path.is_none());
    let names: Vec<String> = root.children().iter().map(|c| c.name().clone()).collect();
    assert_eq!(names, vec!["alpha.txt", "sub", "zebra.txt"]);
    match &root.children()[0] {
        Node::File(f) => {
            assert_eq!(f.last_modified, 3);
            assert!(f.hash.is_none());
            assert_eq!(f.path.as_deref(), Some("."));
        },
        _ => panic!("expected alpha.txt"),
    }
    match &root.children()[1] {
        Node::Directory(d) => {
            assert_eq!(d.path.as_deref(), Some("."));
            assert_eq!(d.children().len(), 1);
            match &d.children()[0] {
                Node::File(f) => {
                    assert_eq!(f.name, "inner.txt");
                    assert_eq!(f.path.as_deref(), Some("./sub"));
                },
                _ => panic!("expected inner.txt"),
            }
        },
        _ => panic!("expected sub"),
    }
}

#[test]
fn test_scan_into_file_data() {
    let listing = DirListing { name: String::new(), entries: vec![file_entry("a.txt", 1)] };
    let no_ignore: Vec<String> = Vec::new();
    let data = generate_file_data_from_listing(&listing, &no_ignore, "somewhere".to_string());
    assert_eq!(data.path, "somewhere");
    assert_eq!(data.version, 0);
    assert_eq!(data.root.unwrap().children.len(), 1);
}

#[test]
fn test_progress_completion_barrier() {
    assert!(ProgressData::new(0, 0).complete());
    assert!(!ProgressData::new(3, 2).complete());
    assert!(ProgressData::new(3, 3).complete());
}
