use api_release::data::FileData;
use api_release::hash::fingerprint;
use api_release::node::dir::DirectoryNode;
use api_release::node::file::FileNode;
use api_release::node::Node;

fn hashed_file(name: &str, mtime: u64, seed: &str) -> Node {
    let mut f = FileNode::new(".".to_string(), name.to_string(), mtime);
    f.set_hash(seed.repeat(64 / seed.len())).unwrap();
    Node::File(f)
}

fn assert_same_tree(a: &DirectoryNode, b: &DirectoryNode) {
    assert_eq!(a.name, b.name);
    assert_eq!(a.children.len(), b.children.len());
    for (x, y) in a.children.iter().zip(b.children.iter()) {
        match (x, y) {
            (Node::File(fx), Node::File(fy)) => {
                assert_eq!(fx.name, fy.name);
                assert_eq!(fx.last_modified, fy.last_modified);
                assert_eq!(fx.hash, fy.hash);
            },
            (Node::Directory(dx), Node::Directory(dy)) => assert_same_tree(dx, dy),
            other => panic!("tree shapes differ: {:?}", other),
        }
    }
}

fn sample_snapshot() -> FileData {
    let mut root = DirectoryNode::new(".".to_string(), None);
    root.add_child(hashed_file("a.txt", 11, "a1"));
    let mut sub = DirectoryNode::new("dir".to_string(), Some("bogus".to_string()));
    sub.add_child(hashed_file("b.txt", 22, "b2"));
    sub.add_child(Node::File(FileNode::new(".".to_string(), "pending".to_string(), 33)));
    root.add_child(Node::Directory(sub));
    root.restore_path(None);
    FileData::new("/tmp/source".to_string(), 3, root)
}

#[test]
fn test_snapshot_round_trip() {
    let snap = sample_snapshot();
    let bytes = snap.to_bytes();
    let loaded = FileData::from_bytes(bytes.as_slice());

    assert_eq!(loaded.path, snap.path);
    assert_eq!(loaded.version, snap.version);
    assert_eq!(loaded.time, snap.time);
    let before = snap.root.as_ref().unwrap();
    let after = loaded.root.as_ref().unwrap();
    assert_same_tree(before, after);
    // paths are not persisted; they are rebuilt on load
    assert!(after.path.is_none());
    match &after.children[1] {
        Node::Directory(d) => {
            assert_eq!(d.path.as_deref(), Some("."));
            match &d.children[0] {
                Node::File(f) => assert_eq!(f.get_path(), "./dir/b.txt"),
                _ => panic!("expected b.txt"),
            }
        },
        _ => panic!("expected dir"),
    }
}

#[test]
fn test_snapshot_round_trip_empty_root() {
    let empty = FileData::new("src".to_string(), 1, DirectoryNode::new(".".to_string(), None));
    let loaded = FileData::from_bytes(empty.to_bytes().as_slice());
    assert_eq!(loaded.path, "src");
    assert!(loaded.root.is_some());
    assert_eq!(loaded.root.unwrap().children.len(), 0);
}

#[test]
fn test_corrupt_bytes_yield_default_snapshot() {
    let loaded = FileData::from_bytes(b"not a snapshot at all");
    assert_eq!(loaded.path, "");
    assert_eq!(loaded.version, 0);
    assert_eq!(loaded.time, 0);
    assert!(loaded.root.is_none());
}

#[test]
fn test_truncated_stream_yields_default_snapshot() {
    let snap = sample_snapshot();
    let bytes = snap.to_bytes();
    let loaded = FileData::from_bytes(&bytes[..bytes.len() / 2]);
    assert!(loaded.root.is_none());
    assert_eq!(loaded.version, 0);
}

#[test]
fn test_fingerprint_known_value_and_determinism() {
    let one = fingerprint(b"abc");
    assert_eq!(one, "ba7816bf8f01cfea414140de5dae2223b00361a396177a9cb410ff61f20015ad");
    assert_eq!(one.len(), 64);
    let two = fingerprint(b"abc");
    assert_eq!(one, two);
    let other = fingerprint(b"abd");
    assert_eq!(other.len(), 64);
    assert_ne!(one, other);
}

#[test]
fn test_diff_via_snapshots() {
    let base = sample_snapshot();
    let target = sample_snapshot();
    let diffs = base.diff(&target);
    assert!(diffs.is_empty());
}
