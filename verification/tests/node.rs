use api_release::hash::Error;
use api_release::node::dir::DirectoryNode;
use api_release::node::file::FileNode;
use api_release::node::Node;

#[test]
fn test_file_node() {
    let path: String = String::from("test");
    let file = FileNode::new(path, "test".to_string(), 0);
    assert_eq!(file.get_path(), format!("test{}test", std::path::MAIN_SEPARATOR_STR));
}

fn file(name: &str, mtime: u64) -> Node {
    Node::File(FileNode::new(String::from("."), name.to_string(), mtime))
}

fn child_names(dir: &DirectoryNode) -> Vec<String> {
    dir.children().iter().map(|c| c.name().clone()).collect()
}

#[test]
fn test_add_child_order_independent() {
    let mut a = DirectoryNode::new(".".to_string(), None);
    assert!(a.add_child(file("b.txt", 1)).is_some());
    assert!(a.add_child(file("a.txt", 2)).is_some());
    assert!(a.add_child(file("c.txt", 3)).is_some());

    let mut b = DirectoryNode::new(".".to_string(), None);
    assert!(b.add_child(file("c.txt", 3)).is_some());
    assert!(b.add_child(file("b.txt", 1)).is_some());
    assert!(b.add_child(file("a.txt", 2)).is_some());

    assert_eq!(child_names(&a), vec!["a.txt", "b.txt", "c.txt"]);
    assert_eq!(child_names(&a), child_names(&b));
}

#[test]
fn test_add_child_duplicate_is_noop() {
    let mut d = DirectoryNode::new(".".to_string(), None);
    assert_eq!(d.add_child(file("a.txt", 1)), Some(0));
    assert_eq!(d.add_child(file("a.txt", 99)), None);
    assert_eq!(d.children().len(), 1);
    match &d.children()[0] {
        Node::File(f) => assert_eq!(f.last_modified, 1),
        _ => panic!("expected a file"),
    }
}

#[test]
fn test_has_and_remove_child() {
    let mut d = DirectoryNode::new(".".to_string(), None);
    d.add_child(file("a.txt", 1));
    d.add_child(file("b.txt", 2));
    assert!(d.has_child(&file("a.txt", 77)));
    assert!(!d.has_child(&file("z.txt", 0)));
    let removed = d.remove_child(&file("a.txt", 0));
    assert!(removed.is_some());
    let taken = removed.unwrap();
    assert_eq!(taken.name().as_str(), "a.txt");
    assert!(!d.has_child(&file("a.txt", 0)));
    assert_eq!(d.children().len(), 1);
}

#[test]
fn test_restore_path_rebuilds_paths() {
    let mut root = DirectoryNode::new(".".to_string(), None);
    let mut sub = DirectoryNode::new("dir".to_string(), Some("bogus".to_string()));
    sub.add_child(file("b.txt", 1));
    root.add_child(Node::Directory(sub));
    root.add_child(file("a.txt", 2));

    root.restore_path(None);
    assert_eq!(root.get_path(), ".");
    match &root.children()[0] {
        Node::File(f) => {
            assert_eq!(f.path.as_deref(), Some("."));
            assert_eq!(f.get_path(), "./a.txt");
        },
        _ => panic!("expected a.txt first"),
    }
    match &root.children()[1] {
        Node::Directory(d) => {
            assert_eq!(d.path.as_deref(), Some("."));
            assert_eq!(d.get_path(), "./dir");
            match &d.children()[0] {
                Node::File(f) => assert_eq!(f.get_path(), "./dir/b.txt"),
                _ => panic!("expected b.txt"),
            }
        },
        _ => panic!("expected dir second"),
    }
}

#[test]
fn test_needs_update_mtime_fallback() {
    let older = FileNode::new(".".to_string(), "a".to_string(), 5);
    let newer = FileNode::new(".".to_string(), "a".to_string(), 9);
    assert!(older.needs_update(&newer));
    assert!(!newer.needs_update(&older));
    assert!(!older.needs_update(&older));
}

#[test]
fn test_set_hash_rejects_bad_length() {
    let mut f = FileNode::new(".".to_string(), "a".to_string(), 0);
    assert!(!f.has_hash());
    assert_eq!(f.set_hash("abc".to_string()), Err(Error::HashLengthInvalid));
    assert!(!f.has_hash());
    let h: String = "ab".repeat(32);
    assert_eq!(f.set_hash(h.clone()), Ok(()));
    assert!(f.has_hash());
    assert_eq!(f.hash.as_deref(), Some(h.as_str()));
}
