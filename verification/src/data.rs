//! Snapshots: a captured directory tree together with its source path,
//! schema version and capture time, and their persisted form.
//!
//! The persisted form is the wire layout of the snapshot record,
//! compressed as a whole with gzip. Loading never fails at the boundary:
//! bytes that do not decompress and decode to a snapshot yield the empty
//! default snapshot, which signals "nothing to compare against".

use std::io::Read;
use std::io::Write;
use vstd::prelude::*;
use vstd::string::StringExecFns;

use crate::codec::{decode_snapshot, encode_snapshot, spec_encode_snapshot};
use crate::node::diff::{spec_dir_update_list, FileDiff};
use crate::node::dir::DirectoryNode;
use crate::node::{dir_path_restored, dir_stripped, node_restored_opt, node_stripped, Node};

verus! {

/// A snapshot: the scanned source path, the schema version, the capture
/// time in seconds since the epoch, and the captured tree. `root` is
/// `None` for an empty or missing snapshot.
#[derive(Debug)]
pub struct FileData {
    pub path: String,
    pub version: u64,
    pub time: u64,
    pub root: Option<DirectoryNode>,
}

/// Relies on std::time::SystemTime: the number of whole seconds between
/// the Unix epoch and now, or 0 when the clock reads before the epoch.
/// The value depends on the clock, so nothing is promised of it.
#[verifier::external_body]
fn get_time() -> u64 {
    match std::time::SystemTime::now().duration_since(std::time::SystemTime::UNIX_EPOCH) {
        Ok(d) => d.as_secs(),
        Err(_) => 0,
    }
}

/// The compressed form that gzip, at the default compression level, gives
/// to a byte sequence.
pub uninterp spec fn gzip_of(data: Seq<u8>) -> Seq<u8>;

/// What gzip decompression yields on a byte sequence: the decompressed
/// bytes, or `None` when the bytes are not a well-formed gzip stream.
pub uninterp spec fn gunzip_of(data: Seq<u8>) -> Option<Seq<u8>>;

/// Relies on flate2's `GzEncoder` over an in-memory buffer: compression
/// at a fixed level is a function of the input bytes alone, and
/// decompressing the result returns exactly the input. Writing into a
/// `Vec`-backed encoder cannot fail.
#[verifier::external_body]
fn gzip_compress(data: &[u8]) -> (r: Vec<u8>)
    ensures
        r@ == gzip_of(data@),
        gunzip_of(r@) == Some(data@),
{
    let mut encoder = flate2::write::GzEncoder::new(Vec::new(), flate2::Compression::default());
    encoder.write_all(data).expect("writing to an in-memory encoder cannot fail");
    encoder.finish().expect("finishing an in-memory encoder cannot fail")
}

/// Relies on flate2's `GzDecoder` over an in-memory buffer: what a byte
/// sequence decompresses to, or fails to, is a function of the bytes
/// alone.
#[verifier::external_body]
fn gzip_decompress(data: &[u8]) -> (r: Option<Vec<u8>>)
    ensures
        match r {
            Some(v) => gunzip_of(data@) == Some(v@),
            None => gunzip_of(data@) is None,
        },
{
    let mut decoder = flate2::read::GzDecoder::new(data);
    let mut out = Vec::new();
    match decoder.read_to_end(&mut out) {
        Ok(_) => Some(out),
        Err(_) => None,
    }
}

impl Default for FileData {
    /// The empty snapshot: no tree, version 0, the epoch as capture time.
    fn default() -> (r: Self)
        ensures
            r.path@ == Seq::<char>::empty(),
            r.version == 0,
            r.time == 0,
            r.root is None,
    {
        FileData { path: String::new(), version: 0, time: 0, root: None }
    }
}

/// `r` is the snapshot `d` as loading reconstructs it: the same source
/// path, version and capture time, and the same tree with every stored
/// path rebuilt from the root down.
pub open spec fn spec_loaded_from(d: FileData, r: FileData) -> bool {
    &&& r.path@ == d.path@
    &&& r.version == d.version
    &&& r.time == d.time
    &&& match (d.root, r.root) {
        (None, None) => true,
        (Some(dr), Some(rr)) => dir_path_restored(dr, rr, None),
        _ => false,
    }
}

impl FileData {
    /// Captures a snapshot of `root`, stamped with the time of the call.
    pub fn new(path: String, version: u64, root: DirectoryNode) -> (r: Self)
        ensures
            r.path == path,
            r.version == version,
            r.root == Some(root),
    {
        FileData { path, version, time: get_time(), root: Some(root) }
    }

    pub fn get_path(&self) -> (r: String)
        ensures
            r@ == self.path@,
    {
        self.path.clone()
    }

    /// The ordered diff between this snapshot's tree (base) and another's
    /// (target).
    pub fn diff(&self, other: &FileData) -> (r: Vec<FileDiff>)
        requires
            self.root is Some,
            other.root is Some,
        ensures
            r.deep_view() == spec_dir_update_list(self.root.unwrap(), other.root.unwrap()),
    {
        self.root.as_ref().unwrap().get_update_list(other.root.as_ref().unwrap())
    }

    /// The persisted form of the snapshot: its wire layout, compressed.
    pub fn to_bytes(&self) -> (r: Vec<u8>)
        ensures
            r@ == gzip_of(spec_encode_snapshot(*self)),
            gunzip_of(r@) == Some(spec_encode_snapshot(*self)),
    {
        let encoded = encode_snapshot(self);
        gzip_compress(encoded.as_slice())
    }

    /// Reconstructs a snapshot from its persisted form; stored paths are
    /// rebuilt from the root down. Bytes that are not the persisted form
    /// of a snapshot yield the empty default snapshot.
    pub fn from_bytes(bytes: &[u8]) -> (r: FileData)
        ensures
            forall|d: FileData|
                gunzip_of(bytes@) == Some(spec_encode_snapshot(d)) ==> spec_loaded_from(d, r),
    {
        let decompressed = match gzip_decompress(bytes) {
            None => {
                return FileData::default();
            },
            Some(v) => v,
        };
        let snap = match decode_snapshot(&decompressed) {
            None => {
                return FileData::default();
            },
            Some(s) => s,
        };
        let ghost gsnap = snap;
        let FileData { path, version, time, root } = snap;
        let ghost gdecoded = root;
        let root = match root {
            None => None,
            Some(mut rd) => {
                rd.restore_path(None);
                Some(rd)
            },
        };
        let out = FileData { path, version, time, root };
        proof {
            assert forall|d: FileData|
                gunzip_of(bytes@) == Some(spec_encode_snapshot(d)) implies spec_loaded_from(
                d,
                out,
            ) by {
                assert(decompressed@ == spec_encode_snapshot(d));
                assert(crate::codec::snap_stripped(d, gsnap));
                match (d.root, gdecoded, out.root) {
                    (Some(dr), Some(sr), Some(rr)) => {
                        lemma_restored_of_stripped(dr, sr, rr, None);
                    },
                    _ => {},
                }
            }
        }
        out
    }
}

/// Snapshot round trip: loading the bytes saved for a snapshot yields a
/// snapshot with the same source path, version and capture time, whose
/// tree has the same names, kinds, modification times and fingerprints,
/// with all derived paths rebuilt from the root down.
pub proof fn lemma_snapshot_round_trip(x: FileData, saved: Seq<u8>, loaded: FileData)
    requires
        gunzip_of(saved) == Some(spec_encode_snapshot(x)),
        forall|d: FileData|
            gunzip_of(saved) == Some(spec_encode_snapshot(d)) ==> spec_loaded_from(d, loaded),
    ensures
        spec_loaded_from(x, loaded),
{
}

/// Restoring the paths of a tree does not depend on the stored paths it
/// carried before: a stripped copy restores to the same tree.
proof fn lemma_restored_of_stripped(a: DirectoryNode, b: DirectoryNode, c: DirectoryNode, p: Option<
    Seq<char>,
>)
    requires
        dir_stripped(a, b),
        dir_path_restored(b, c, p),
    ensures
        dir_path_restored(a, c, p),
    decreases a,
{
    assert forall|k: int| 0 <= k < a.children@.len() implies node_restored_opt(
        #[trigger] a.children@[k],
        #[trigger] c.children@[k],
        Some(c.spec_path()),
    ) by {
        lemma_restored_of_stripped_node(
            a.children@[k],
            b.children@[k],
            c.children@[k],
            Some(c.spec_path()),
        );
    }
}

/// As above, for one entry.
proof fn lemma_restored_of_stripped_node(a: Node, b: Node, c: Node, p: Option<Seq<char>>)
    requires
        node_stripped(a, b),
        node_restored_opt(b, c, p),
    ensures
        node_restored_opt(a, c, p),
    decreases a,
{
    match (a, b, c) {
        (Node::Directory(da), Node::Directory(db), Node::Directory(dc)) => {
            lemma_restored_of_stripped(da, db, dc, p);
        },
        _ => {},
    }
}

} // verus!
