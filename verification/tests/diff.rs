use api_release::node::diff::{plan_patch, FileDetail, FileDiff, PatchAction};
use api_release::node::dir::DirectoryNode;
use api_release::node::file::FileNode;
use api_release::node::Node;

fn file(name: &str, mtime: u64) -> Node {
    Node::File(FileNode::new(".".to_string(), name.to_string(), mtime))
}

fn hashed_file(name: &str, mtime: u64, seed: &str) -> Node {
    let mut f = FileNode::new(".".to_string(), name.to_string(), mtime);
    let h: String = seed.repeat(64 / seed.len());
    assert_eq!(h.len(), 64);
    f.set_hash(h).unwrap();
    Node::File(f)
}

fn detail(d: &FileDetail) -> (String, String, bool) {
    (d.path.clone(), d.name.clone(), d.is_file)
}

#[test]
fn test_diff_of_identical_trees_is_empty() {
    let mut root = DirectoryNode::new(".".to_string(), None);
    let mut sub = DirectoryNode::new("dir".to_string(), Some(".".to_string()));
    sub.add_child(hashed_file("b.txt", 1, "b2"));
    root.add_child(Node::Directory(sub));
    root.add_child(hashed_file("a.txt", 2, "a1"));

    let diffs = root.get_update_list(&root);
    assert!(diffs.is_empty());
}

#[test]
fn test_diff_change_and_add() {
    // base: a.txt(H1), dir/b.txt(H2); target: a.txt(H1), dir/b.txt(H3), dir/c.txt(H4)
    let mut base = DirectoryNode::new(".".to_string(), None);
    base.add_child(hashed_file("a.txt", 1, "11"));
    let mut base_dir = DirectoryNode::new("dir".to_string(), Some(".".to_string()));
    base_dir.add_child(hashed_file("b.txt", 1, "22"));
    base.add_child(Node::Directory(base_dir));

    let mut target = DirectoryNode::new(".".to_string(), None);
    target.add_child(hashed_file("a.txt", 9, "11"));
    let mut target_dir = DirectoryNode::new("dir".to_string(), Some(".".to_string()));
    target_dir.add_child(hashed_file("b.txt", 1, "33"));
    target_dir.add_child(hashed_file("c.txt", 1, "44"));
    target.add_child(Node::Directory(target_dir));

    let diffs = base.get_update_list(&target);
    assert_eq!(diffs.len(), 2);
    match &diffs[0] {
        FileDiff::Change(d) => {
            assert_eq!(detail(d), ("./dir".to_string(), "b.txt".to_string(), true))
        },
        other => panic!("expected a change first, got {:?}", other),
    }
    match &diffs[1] {
        FileDiff::Add(d) => {
            assert_eq!(detail(d), ("./dir".to_string(), "c.txt".to_string(), true))
        },
        other => panic!("expected an addition second, got {:?}", other),
    }
}

#[test]
fn test_diff_swap_symmetry() {
    // One-sided entries are files and same-named files carry fingerprints,
    // so the two directions are label-swapped images of each other.
    let mut a = DirectoryNode::new(".".to_string(), None);
    a.add_child(hashed_file("common.txt", 1, "aa"));
    a.add_child(hashed_file("only-a.txt", 1, "ab"));

    let mut b = DirectoryNode::new(".".to_string(), None);
    b.add_child(hashed_file("common.txt", 1, "ba"));
    b.add_child(hashed_file("only-b.txt", 1, "bb"));

    let ab = a.get_update_list(&b);
    let ba = b.get_update_list(&a);
    assert_eq!(ab.len(), ba.len());
    for (x, y) in ab.iter().zip(ba.iter()) {
        match (x, y) {
            (FileDiff::Add(dx), FileDiff::Remove(dy)) => assert_eq!(detail(dx), detail(dy)),
            (FileDiff::Remove(dx), FileDiff::Add(dy)) => assert_eq!(detail(dx), detail(dy)),
            (FileDiff::Change(dx), FileDiff::Change(dy)) => assert_eq!(detail(dx), detail(dy)),
            other => panic!("labels are not swapped images: {:?}", other),
        }
    }
}

#[test]
fn test_diff_kind_mismatch_replaces() {
    let mut base = DirectoryNode::new(".".to_string(), None);
    base.add_child(file("x", 1));

    let mut target = DirectoryNode::new(".".to_string(), None);
    let mut target_x = DirectoryNode::new("x".to_string(), Some(".".to_string()));
    target_x.add_child(hashed_file("inner.txt", 1, "cc"));
    target.add_child(Node::Directory(target_x));

    let diffs = base.get_update_list(&target);
    assert_eq!(diffs.len(), 3);
    match &diffs[0] {
        FileDiff::Remove(d) => assert_eq!(detail(d), (".".to_string(), "x".to_string(), true)),
        other => panic!("expected a removal first, got {:?}", other),
    }
    match &diffs[1] {
        FileDiff::Add(d) => assert_eq!(detail(d), (".".to_string(), "x".to_string(), false)),
        other => panic!("expected the directory added, got {:?}", other),
    }
    match &diffs[2] {
        FileDiff::Add(d) => {
            assert_eq!(detail(d), ("./x".to_string(), "inner.txt".to_string(), true))
        },
        other => panic!("expected the subtree added, got {:?}", other),
    }
}

#[test]
fn test_one_sided_directory_expands_on_add_side_only() {
    let empty = DirectoryNode::new(".".to_string(), None);
    let mut full = DirectoryNode::new(".".to_string(), None);
    let mut sub = DirectoryNode::new("dir".to_string(), Some(".".to_string()));
    sub.add_child(hashed_file("b.txt", 1, "dd"));
    full.add_child(Node::Directory(sub));

    let adds = empty.get_update_list(&full);
    assert_eq!(adds.len(), 2);
    assert!(matches!(&adds[0], FileDiff::Add(d) if !d.is_file && d.name == "dir"));
    assert!(matches!(&adds[1], FileDiff::Add(d) if d.is_file && d.name == "b.txt"));

    let removes = full.get_update_list(&empty);
    assert_eq!(removes.len(), 1);
    assert!(matches!(&removes[0], FileDiff::Remove(d) if !d.is_file && d.name == "dir"));
}

#[test]
fn test_detail_get_path() {
    let d = FileDetail::new("./dir".to_string(), "b.txt".to_string(), true);
    assert_eq!(d.get_path("out"), "out/./dir/b.txt");
    assert_eq!(d.get_path(""), "./dir/b.txt");
}

#[test]
fn test_patch_plan_of_removals_is_empty() {
    // a diff containing only a removal plans no action: nothing is
    // deleted and nothing is created
    let diffs = vec![
        FileDiff::Remove(FileDetail::new(".".to_string(), "old.txt".to_string(), true)),
    ];
    let actions = plan_patch(&diffs, "live", "out");
    assert!(actions.is_empty());
}

#[test]
fn test_patch_plan_copies_files_and_creates_directories() {
    let diffs = vec![
        FileDiff::Add(FileDetail::new(".".to_string(), "dir".to_string(), false)),
        FileDiff::Change(FileDetail::new("./dir".to_string(), "b.txt".to_string(), true)),
        FileDiff::Remove(FileDetail::new(".".to_string(), "gone.txt".to_string(), true)),
    ];
    let actions = plan_patch(&diffs, "live", "out");
    assert_eq!(actions.len(), 2);
    assert_eq!(actions[0], PatchAction::MakeDir { path: "out/./dir".to_string() });
    assert_eq!(
        actions[1],
        PatchAction::CopyFile {
            from: "live/./dir/b.txt".to_string(),
            to: "out/./dir/b.txt".to_string(),
        },
    );
}

#[test]
fn test_materializing_a_diff_without_removals_closes_the_gap() {
    // base and target share a.txt's name; the target adds dir/c.txt and
    // changes a.txt, so the diff has no removals. Applying the additions
    // and changes onto a copy of the base yields a tree whose diff
    // against the target is empty.
    let mut base = DirectoryNode::new(".".to_string(), None);
    base.add_child(hashed_file("a.txt", 1, "1a"));

    let target = || {
        let mut t = DirectoryNode::new(".".to_string(), None);
        t.add_child(hashed_file("a.txt", 2, "2a"));
        let mut dir = DirectoryNode::new("dir".to_string(), Some(".".to_string()));
        dir.add_child(hashed_file("c.txt", 3, "3c"));
        t.add_child(Node::Directory(dir));
        t
    };

    let diffs = base.get_update_list(&target());
    assert!(diffs.iter().all(|d| !matches!(d, FileDiff::Remove(_))));

    // apply the records onto a copy of the base, taking content from the
    // target side as a materialized patch would
    let mut applied = base;
    for diff in &diffs {
        match diff {
            FileDiff::Change(d) if d.path == "." && d.name == "a.txt" => {
                applied.remove_child(&hashed_file("a.txt", 0, "1a"));
                applied.add_child(hashed_file("a.txt", 2, "2a"));
            },
            FileDiff::Add(d) if d.name == "dir" => {
                applied.add_child(Node::Directory(DirectoryNode::new(
                    "dir".to_string(),
                    Some(".".to_string()),
                )));
            },
            FileDiff::Add(d) if d.name == "c.txt" => {
                match applied.children.iter_mut().find(|c| c.name() == "dir") {
                    Some(Node::Directory(dir)) => {
                        dir.add_child(hashed_file("c.txt", 3, "3c"));
                    },
                    _ => panic!("dir must exist before its content"),
                }
            },
            other => panic!("unexpected record {:?}", other),
        }
    }

    let rest = applied.get_update_list(&target());
    assert!(rest.is_empty());
}
