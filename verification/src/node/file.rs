//! File entries: name, modification time and an optional content
//! fingerprint.

use vstd::prelude::*;
use vstd::string::StrSliceExecFns;
use vstd::string::StringExecFns;

use crate::hash::{valid_hash, Error};
use crate::node::diff::{spec_file_change, FileDetail, FileDiff};

verus! {

/// A file entry. The fingerprint is absent until the hashing phase has
/// completed for the file; the stored `path` is the path of the containing
/// directory and is never persisted.
#[derive(Clone, Debug, PartialEq)]
pub struct FileNode {
    pub path: Option<String>,
    pub name: String,
    pub last_modified: u64,
    pub hash: Option<String>,
}

impl FileNode {
    /// A fingerprint, when present, is a well-formed 64-character string.
    pub open spec fn wf(self) -> bool {
        self.hash matches Some(h) ==> valid_hash(h@)
    }

    /// The full path of the file, derived from the stored parent path; a
    /// file with no parent path is addressed below `.`.
    pub open spec fn spec_path(self) -> Seq<char> {
        match self.path {
            None => "."@ + "/"@ + self.name@,
            Some(p) => p@ + "/"@ + self.name@,
        }
    }

    /// The change signal between two same-named files: fingerprints are
    /// compared when both are present; otherwise a newer modification time
    /// on the target side signals a change.
    pub open spec fn spec_needs_update(self, other: FileNode) -> bool {
        if self.hash is Some && other.hash is Some {
            self.hash.unwrap()@ != other.hash.unwrap()@
        } else {
            self.last_modified < other.last_modified
        }
    }

    pub fn new(path: String, name: String, last_modified: u64) -> (r: Self)
        ensures
            r.path == Some(path),
            r.name == name,
            r.last_modified == last_modified,
            r.hash is None,
            r.wf(),
    {
        FileNode { path: Some(path), name, last_modified, hash: None }
    }

    pub fn has_hash(&self) -> (r: bool)
        ensures
            r == (self.hash is Some),
    {
        self.hash.is_some()
    }

    pub fn get_path(&self) -> (r: String)
        ensures
            r@ == self.spec_path(),
    {
        match &self.path {
            None => {
                let mut s = String::from_str(".");
                s.append("/");
                s.append(self.name.as_str());
                s
            },
            Some(p) => {
                let mut s = p.clone();
                s.append("/");
                s.append(self.name.as_str());
                s
            },
        }
    }

    /// Stores a fingerprint; a string of any length other than 64 is
    /// rejected and leaves the entry unchanged.
    pub fn set_hash(&mut self, hash: String) -> (r: Result<(), Error>)
        ensures
            valid_hash(hash@) ==> {
                &&& r is Ok
                &&& final(self).hash == Some(hash)
                &&& final(self).path == old(self).path
                &&& final(self).name == old(self).name
                &&& final(self).last_modified == old(self).last_modified
            },
            !valid_hash(hash@) ==> r == Err::<(), Error>(Error::HashLengthInvalid) && *final(self)
                == *old(self),
    {
        if hash.as_str().unicode_len() != 64 {
            return Err(Error::HashLengthInvalid);
        }
        self.hash = Some(hash);
        Ok(())
    }

    pub fn needs_update(&self, other: &Self) -> (r: bool)
        ensures
            r == self.spec_needs_update(*other),
    {
        match (&self.hash, &other.hash) {
            (Some(a), Some(b)) => !a.eq(b),
            _ => self.last_modified < other.last_modified,
        }
    }

    /// A single change record when the target file differs, nothing
    /// otherwise.
    pub fn get_update_list(&self, other: &Self) -> (r: Vec<FileDiff>)
        requires
            self.path is Some,
        ensures
            r.deep_view() == spec_file_change(self.path.unwrap()@, *self, *other),
    {
        let mut r: Vec<FileDiff> = Vec::new();
        if self.needs_update(other) {
            let path = self.path.as_ref().unwrap().clone();
            r.push(FileDiff::Change(FileDetail::new(path, self.name.clone(), true)));
        }
        proof {
            assert(r.deep_view() =~= spec_file_change(self.path.unwrap()@, *self, *other));
        }
        r
    }

    /// Assigns the stored parent path; files always sit below a parent, so
    /// a path must be given.
    pub fn restore_path(&mut self, path: Option<String>)
        requires
            path is Some,
        ensures
            final(self).path == path,
            final(self).name == old(self).name,
            final(self).last_modified == old(self).last_modified,
            final(self).hash == old(self).hash,
    {
        self.path = path;
    }
}

} // verus!
