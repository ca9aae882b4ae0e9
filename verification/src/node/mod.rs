//! The tree model: a directory tree of file and directory entries, ordered
//! by name.

use vstd::prelude::*;

pub mod diff;
pub mod dir;
pub mod file;
pub mod order;

use crate::node::diff::{FileDetail, FileDiff};
use crate::node::dir::DirectoryNode;
use crate::node::file::FileNode;

verus! {

/// An entry of a directory tree: either a file or a directory.
#[derive(Debug)]
pub enum Node {
    File(FileNode),
    Directory(DirectoryNode),
}

impl Node {
    /// The entry's name, the key by which entries are ordered.
    pub open spec fn spec_name(self) -> Seq<char> {
        match self {
            Node::File(f) => f.name@,
            Node::Directory(d) => d.name@,
        }
    }

    /// The stored parent path of the entry, if one has been assigned.
    pub open spec fn spec_stored_path(self) -> Option<String> {
        match self {
            Node::File(f) => f.path,
            Node::Directory(d) => d.path,
        }
    }

    /// The full path of the entry, derived from its stored parent path.
    pub open spec fn spec_path(self) -> Seq<char> {
        match self {
            Node::File(f) => f.spec_path(),
            Node::Directory(d) => d.spec_path(),
        }
    }

    /// Every directory below this entry keeps its children strictly sorted
    /// by name, and every fingerprint is well-formed.
    pub open spec fn wf(self) -> bool
        decreases self,
    {
        match self {
            Node::File(f) => f.wf(),
            Node::Directory(d) => d.wf(),
        }
    }

    /// The update signal between two same-named entries: entries of
    /// differing kinds always differ; entries of one kind are compared by
    /// their kind's own rule.
    pub open spec fn spec_needs_update(self, other: Node) -> bool
        decreases self,
    {
        match (self, other) {
            (Node::File(a), Node::File(b)) => a.spec_needs_update(b),
            (Node::Directory(a), Node::Directory(b)) => a.spec_needs_update(b),
            _ => true,
        }
    }

    pub fn name(&self) -> (r: &String)
        ensures
            r@ == self.spec_name(),
    {
        match self {
            Node::File(file) => &file.name,
            Node::Directory(dir) => &dir.name,
        }
    }

    pub fn get_path(&self) -> (r: String)
        ensures
            r@ == self.spec_path(),
    {
        match self {
            Node::File(file) => file.get_path(),
            Node::Directory(dir) => dir.get_path(),
        }
    }

    pub fn needs_update(&self, other: &Self) -> (r: bool)
        ensures
            r == self.spec_needs_update(*other),
        decreases *self,
    {
        match (self, other) {
            (Node::File(a), Node::File(b)) => a.needs_update(b),
            (Node::Directory(a), Node::Directory(b)) => a.needs_update(b),
            _ => true,
        }
    }

    /// The diff records for two same-named entries. Entries of differing
    /// kinds are replaced: the old entry is removed and the new one is
    /// added together with its whole subtree.
    pub fn get_update_list(&self, other: &Self) -> (r: Vec<FileDiff>)
        requires
            (*self is File || *other is File) ==> self.spec_stored_path() is Some,
        ensures
            r.deep_view() == diff::spec_node_update_stored(*self, *other),
    {
        match (self, other) {
            (Node::File(a), Node::File(b)) => a.get_update_list(b),
            (Node::Directory(a), Node::Directory(b)) => a.get_update_list(b),
            _ => {
                let path = match self {
                    Node::File(f) => f.path.as_ref().unwrap().clone(),
                    Node::Directory(d) => d.path.as_ref().unwrap().clone(),
                };
                let mut r: Vec<FileDiff> = Vec::new();
                r.push(FileDiff::Remove(FileDetail::new(path.clone(), self.name().clone(), self.is_file())));
                let mut added = diff::node_as_add(&path, other);
                r.append(&mut added);
                proof {
                    assert(r.deep_view() =~= diff::spec_node_update_stored(*self, *other));
                }
                r
            },
        }
    }

    pub fn is_file(&self) -> (r: bool)
        ensures
            r == (*self is File),
    {
        match self {
            Node::File(_) => true,
            _ => false,
        }
    }

    /// Assigns the stored parent path of this entry and, below a directory,
    /// of every descendant.
    pub fn restore_path(&mut self, path: Option<String>)
        requires
            *old(self) is File ==> path is Some,
        ensures
            node_restored_opt(*old(self), *final(self), spec_opt_path(path)),
    {
        match self {
            Node::File(file) => file.restore_path(path),
            Node::Directory(dir) => dir.restore_path(path),
        }
    }
}

/// The mathematical value of an optional stored path.
pub open spec fn spec_opt_path(p: Option<String>) -> Option<Seq<char>> {
    match p {
        None => None,
        Some(s) => Some(s@),
    }
}

/// `n` is `o` with its stored parent path set to `p` and, below a
/// directory, all descendant paths rebuilt; names, kinds, modification
/// times and fingerprints are unchanged.
pub open spec fn node_restored_opt(o: Node, n: Node, p: Option<Seq<char>>) -> bool
    decreases o,
{
    match (o, n) {
        (Node::File(of), Node::File(nf)) => p matches Some(q) && file_path_restored(of, nf, q),
        (Node::Directory(od), Node::Directory(nd)) => dir_path_restored(od, nd, p),
        _ => false,
    }
}

/// `n` is `o` with its stored parent path set to `p`; all other fields
/// carry the same values.
pub open spec fn file_path_restored(o: FileNode, n: FileNode, p: Seq<char>) -> bool {
    &&& n.path matches Some(s) && s@ == p
    &&& n.name@ == o.name@
    &&& n.last_modified == o.last_modified
    &&& match (o.hash, n.hash) {
        (None, None) => true,
        (Some(x), Some(y)) => x@ == y@,
        _ => false,
    }
}

/// `n` is `o` with every stored path absent: the same names, kinds,
/// modification times and fingerprints, and no path anywhere.
pub open spec fn node_stripped(o: Node, n: Node) -> bool
    decreases o,
{
    match (o, n) {
        (Node::File(of), Node::File(nf)) => {
            &&& nf.path is None
            &&& nf.name@ == of.name@
            &&& nf.last_modified == of.last_modified
            &&& match (of.hash, nf.hash) {
                (None, None) => true,
                (Some(x), Some(y)) => x@ == y@,
                _ => false,
            }
        },
        (Node::Directory(od), Node::Directory(nd)) => dir_stripped(od, nd),
        _ => false,
    }
}

/// `n` is `o` with every stored path absent.
pub open spec fn dir_stripped(o: DirectoryNode, n: DirectoryNode) -> bool
    decreases o,
{
    &&& n.path is None
    &&& n.name@ == o.name@
    &&& n.children@.len() == o.children@.len()
    &&& forall|k: int|
        0 <= k < o.children@.len() ==> node_stripped(
            #[trigger] o.children@[k],
            #[trigger] n.children@[k],
        )
}

/// `n` is `o` with its stored parent path set to `p` and every child
/// restored below `n`'s own derived path.
pub open spec fn dir_path_restored(o: DirectoryNode, n: DirectoryNode, p: Option<Seq<char>>) -> bool
    decreases o,
{
    &&& n.name@ == o.name@
    &&& match (n.path, p) {
        (None, None) => true,
        (Some(s), Some(q)) => s@ == q,
        _ => false,
    }
    &&& n.children@.len() == o.children@.len()
    &&& forall|k: int|
        0 <= k < o.children@.len() ==> node_restored_opt(
            #[trigger] o.children@[k],
            #[trigger] n.children@[k],
            Some(n.spec_path()),
        )
}

} // verus!
