//! Content-addressed snapshots of directory trees.
//!
//! The library models a directory tree whose entries are ordered by name,
//! computes an ordered list of additions, changes and removals between two
//! such trees, and persists a snapshot of a tree in a compressed binary
//! format that round-trips the tree exactly.

use vstd::prelude::*;
use vstd::string::StringExecFns;

pub mod codec;
pub mod data;
pub mod fs;
pub mod hash;
pub mod node;

verus! {

/// A path is built from its parent path and the entry name, joined by a
/// single separator; an empty parent contributes nothing.
pub open spec fn spec_join_path(parent: Seq<char>, name: Seq<char>) -> Seq<char> {
    if parent.len() == 0 {
        name
    } else {
        parent + "/"@ + name
    }
}

/// Joins a relative path and an entry name with the path separator.
pub fn join_path(path: &str, name: &str) -> (r: String)
    ensures
        r@ == spec_join_path(path@, name@),
{
    if path.is_empty() {
        return path_string(name);
    }
    let mut r = path_string(path);
    r.append("/");
    r.append(name);
    r
}

/// Copies a string slice into an owned `String`.
pub fn path_string(s: &str) -> (r: String)
    ensures
        r@ == s@,
{
    String::from_str(s)
}

} // verus!
