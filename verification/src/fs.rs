//! The scanner core: building a tree from a directory listing.
//!
//! Walking the live directory tree and reading file bytes is I/O and sits
//! with the caller; it hands the structure in as a listing of names and
//! modification times. The functions here turn such a listing into the
//! sorted tree model: ignored directories are pruned, files start without
//! a fingerprint, and every entry's stored path is assigned from the
//! relative path of its parent.

use vstd::prelude::*;
use vstd::string::StrSliceExecFns;
use vstd::string::StringExecFns;

use crate::node::dir::{sorted_children, DirectoryNode};
use crate::node::file::FileNode;
use crate::node::Node;
use crate::data::FileData;
use crate::spec_join_path;

verus! {

/// A file seen by the directory walk: its name and modification time.
#[derive(Debug)]
pub struct FileListing {
    pub name: String,
    pub last_modified: u64,
}

/// A directory seen by the directory walk: its name and its entries, in
/// whatever order the walk produced them.
#[derive(Debug)]
pub struct DirListing {
    pub name: String,
    pub entries: Vec<ListingEntry>,
}

/// One entry of a directory listing.
#[derive(Debug)]
pub enum ListingEntry {
    File(FileListing),
    Directory(DirListing),
}

/// The name of a listing entry.
pub open spec fn entry_name(e: ListingEntry) -> Seq<char> {
    match e {
        ListingEntry::File(f) => f.name@,
        ListingEntry::Directory(d) => d.name@,
    }
}

impl DirListing {
    /// A real directory listing never repeats a name at one level.
    pub open spec fn wf(self) -> bool
        decreases self,
    {
        &&& forall|i: int, j: int|
            0 <= i < j < self.entries@.len() ==> entry_name(#[trigger] self.entries@[i])
                != entry_name(#[trigger] self.entries@[j])
        &&& forall|i: int|
            0 <= i < self.entries@.len() ==> match #[trigger] self.entries@[i] {
                ListingEntry::Directory(d) => d.wf(),
                ListingEntry::File(_) => true,
            }
    }
}

/// Progress of a scan: fingerprinting jobs scheduled so far and jobs that
/// have completed.
#[derive(Clone, Copy, PartialEq, Eq, Structural, Debug)]
pub struct ProgressData {
    pub total: usize,
    pub completed: usize,
}

impl ProgressData {
    pub fn new(total: usize, completed: usize) -> (r: Self)
        ensures
            r.total == total,
            r.completed == completed,
    {
        ProgressData { total, completed }
    }

    /// The completion barrier: a scan is complete once every scheduled
    /// fingerprinting job has completed.
    pub fn complete(&self) -> (r: bool)
        ensures
            r == (self.total <= self.completed),
    {
        self.total <= self.completed
    }
}

/// `p` is a prefix of `s`.
pub open spec fn is_prefix(p: Seq<char>, s: Seq<char>) -> bool {
    p.len() <= s.len() && s.subrange(0, p.len() as int) == p
}

/// Whether `s` starts with `p`.
pub fn str_starts_with(s: &str, p: &str) -> (r: bool)
    ensures
        r == is_prefix(p@, s@),
{
    let lp = p.unicode_len();
    let ls = s.unicode_len();
    if lp > ls {
        return false;
    }
    let mut i: usize = 0;
    while i < lp
        invariant
            i <= lp,
            lp == p@.len(),
            ls == s@.len(),
            lp <= ls,
            forall|k: int| 0 <= k < i ==> s@[k] == p@[k],
        decreases lp - i,
    {
        if (s.get_char(i) as u32) != (p.get_char(i) as u32) {
            proof {
                vstd::utf8::char_u32_cast(s@[i as int], s@[i as int] as u32);
                vstd::utf8::char_u32_cast(p@[i as int], p@[i as int] as u32);
                assert(s@.subrange(0, p@.len() as int)[i as int] == s@[i as int]);
            }
            return false;
        }
        proof {
            vstd::utf8::char_u32_cast(s@[i as int], s@[i as int] as u32);
            vstd::utf8::char_u32_cast(p@[i as int], p@[i as int] as u32);
        }
        i = i + 1;
    }
    proof {
        assert(s@.subrange(0, p@.len() as int) =~= p@);
    }
    true
}

/// A directory is pruned when its relative path starts with one of the
/// ignore prefixes, in either the bare or the `./`-prefixed spelling.
pub open spec fn spec_should_ignore(rel_path: Seq<char>, ignore: Seq<Seq<char>>) -> bool {
    exists|k: int|
        0 <= k < ignore.len() && (is_prefix(#[trigger] ignore[k], rel_path) || is_prefix(
            "."@ + "/"@ + ignore[k],
            rel_path,
        ))
}

/// Whether the relative path of a directory matches an ignore prefix.
pub fn should_ignore(rel_path: &str, ignore: &Vec<String>) -> (r: bool)
    ensures
        r == spec_should_ignore(rel_path@, ignore.deep_view()),
{
    let mut k: usize = 0;
    while k < ignore.len()
        invariant
            k <= ignore@.len(),
            forall|j: int|
                0 <= j < k ==> !is_prefix(#[trigger] ignore.deep_view()[j], rel_path@) && !is_prefix(
                    "."@ + "/"@ + ignore.deep_view()[j],
                    rel_path@,
                ),
        decreases ignore@.len() - k,
    {
        proof {
            assert(ignore.deep_view()[k as int] == ignore@[k as int]@);
        }
        if str_starts_with(rel_path, ignore[k].as_str()) {
            return true;
        }
        let mut dotted = crate::path_string(".");
        dotted.append("/");
        dotted.append(ignore[k].as_str());
        if str_starts_with(rel_path, dotted.as_str()) {
            return true;
        }
        k = k + 1;
    }
    false
}

/// Whether a listing entry survives the scan: files always do, a
/// directory only when its relative path matches no ignore prefix.
#[verifier::opaque]
pub open spec fn entry_kept(e: ListingEntry, rp: Seq<char>, ignore: Seq<Seq<char>>) -> bool {
    match e {
        ListingEntry::File(_) => true,
        ListingEntry::Directory(d) => !spec_should_ignore(spec_join_path(rp, d.name@), ignore),
    }
}

/// A file entry always survives the scan.
proof fn lemma_file_entry_kept(e: ListingEntry, rp: Seq<char>, ignore: Seq<Seq<char>>)
    requires
        e is File,
    ensures
        entry_kept(e, rp, ignore),
{
    reveal(entry_kept);
}

/// A directory entry survives the scan exactly when its relative path
/// matches no ignore prefix.
proof fn lemma_dir_entry_kept(e: ListingEntry, rp: Seq<char>, ignore: Seq<Seq<char>>)
    requires
        e is Directory,
    ensures
        entry_kept(e, rp, ignore) == !spec_should_ignore(
            spec_join_path(rp, e->Directory_0.name@),
            ignore,
        ),
{
    reveal(entry_kept);
}

/// `c` is the scanned form of the listing entry `e` inside the directory
/// whose relative path is `rp`.
pub open spec fn entry_scanned(
    e: ListingEntry,
    rp: Seq<char>,
    ignore: Seq<Seq<char>>,
    c: Node,
) -> bool
    decreases e, 3int,
{
    match (e, c) {
        (ListingEntry::File(fl), Node::File(fc)) => {
            &&& fc.name@ == fl.name@
            &&& fc.last_modified == fl.last_modified
            &&& fc.hash is None
            &&& fc.path matches Some(p) && p@ == rp
        },
        (ListingEntry::Directory(dl), Node::Directory(dc)) => spec_scanned_dir(dl, rp, ignore, dc),
        _ => false,
    }
}

/// `r` is the tree that scanning the listing `l` at relative path `rel`
/// produces: the root of a scan (empty `rel`) is named `.` with no stored
/// path, children are strictly sorted, every kept entry appears among the
/// children, and every child is the scanned form of some kept entry.
pub open spec fn spec_scanned_dir(
    l: DirListing,
    rel: Seq<char>,
    ignore: Seq<Seq<char>>,
    r: DirectoryNode,
) -> bool
    decreases l, 2int,
{
    let rp = spec_join_path(rel, r.name@);
    &&& r.name@ == if rel.len() == 0 {
        "."@
    } else {
        l.name@
    }
    &&& if rel.len() == 0 {
        r.path is None
    } else {
        r.path matches Some(p) && p@ == rel
    }
    &&& sorted_children(r.children@)
    &&& scan_children_match(l, rp, ignore, l.entries@.len() as int, r.children@)
}

/// The two directions of the scan relation, over the first `i` entries of
/// the listing: every kept entry among them appears among the children,
/// and every child is the scanned form of one of them.
pub open spec fn scan_children_match(
    l: DirListing,
    rp: Seq<char>,
    ignore: Seq<Seq<char>>,
    i: int,
    children: Seq<Node>,
) -> bool
    decreases l, 1int,
{
    &&& scan_covers(l, rp, ignore, i, children)
    &&& scan_sources(l, rp, ignore, i, children)
}

/// The listing entry at position `k`. The scan relation quantifies over
/// positions with this function as the trigger, so that its facts
/// instantiate only where a proof names a position explicitly.
pub open spec fn listed_entry(l: DirListing, k: int) -> ListingEntry {
    l.entries@[k]
}

/// The child at position `j`; the trigger of the scan relation's second
/// direction, for the same reason as `listed_entry`.
pub open spec fn child_at(children: Seq<Node>, j: int) -> Node {
    children[j]
}

/// Every kept entry among the first `i` appears among the children.
pub open spec fn scan_covers(
    l: DirListing,
    rp: Seq<char>,
    ignore: Seq<Seq<char>>,
    i: int,
    children: Seq<Node>,
) -> bool
    decreases l, 0int,
{
    forall|k: int|
        0 <= k < i <= l.entries@.len() && entry_kept(#[trigger] listed_entry(l, k), rp, ignore)
            ==> exists|j: int|
            0 <= j < children.len() && entry_scanned(
                listed_entry(l, k),
                rp,
                ignore,
                #[trigger] child_at(children, j),
            )
}

/// Every child is the scanned form of some kept entry among the first `i`.
pub open spec fn scan_sources(
    l: DirListing,
    rp: Seq<char>,
    ignore: Seq<Seq<char>>,
    i: int,
    children: Seq<Node>,
) -> bool
    decreases l, 0int,
{
    forall|j: int|
        #![trigger child_at(children, j)]
        0 <= j < children.len() ==> exists|k: int|
            0 <= k < i <= l.entries@.len() && entry_kept(#[trigger] listed_entry(l, k), rp, ignore)
                && entry_scanned(listed_entry(l, k), rp, ignore, child_at(children, j))
}

/// Before any entry is processed, no child exists yet.
proof fn lemma_scan_init(l: DirListing, rp: Seq<char>, ignore: Seq<Seq<char>>, children: Seq<Node>)
    requires
        children.len() == 0,
    ensures
        scan_children_match(l, rp, ignore, 0, children),
{
}

/// Skipping an ignored directory keeps the scan relation: the entry is
/// not kept, and the children are unchanged.
#[verifier::rlimit(60)]
proof fn lemma_scan_step_skip(
    l: DirListing,
    i: int,
    rp: Seq<char>,
    ignore: Seq<Seq<char>>,
    children: Seq<Node>,
)
    requires
        0 <= i < l.entries@.len(),
        !entry_kept(l.entries@[i], rp, ignore),
        scan_children_match(l, rp, ignore, i, children),
    ensures
        scan_children_match(l, rp, ignore, i + 1, children),
{
    assert forall|k: int|
        0 <= k < i + 1 <= l.entries@.len() && entry_kept(
            #[trigger] listed_entry(l, k),
            rp,
            ignore,
        ) implies exists|j: int|
        0 <= j < children.len() && entry_scanned(
            listed_entry(l, k),
            rp,
            ignore,
            #[trigger] child_at(children, j),
        ) by {
        assert(listed_entry(l, i) == l.entries@[i]);
        assert(k < i);
        let j0 = choose|j0: int|
            0 <= j0 < children.len() && entry_scanned(
                listed_entry(l, k),
                rp,
                ignore,
                #[trigger] child_at(children, j0),
            );
        assert(0 <= j0 < children.len() && entry_scanned(
            listed_entry(l, k),
            rp,
            ignore,
            child_at(children, j0),
        ));
    }
    assert forall|j: int|
        #![trigger child_at(children, j)]
        0 <= j < children.len() implies exists|k: int|
        0 <= k < i + 1 <= l.entries@.len() && entry_kept(#[trigger] listed_entry(l, k), rp, ignore)
            && entry_scanned(listed_entry(l, k), rp, ignore, child_at(children, j)) by {
        let k0 = choose|k0: int|
            0 <= k0 < i <= l.entries@.len() && entry_kept(#[trigger] listed_entry(l, k0), rp, ignore)
                && entry_scanned(listed_entry(l, k0), rp, ignore, child_at(children, j));
        assert(0 <= k0 < i + 1 <= l.entries@.len() && entry_kept(listed_entry(l, k0), rp, ignore)
            && entry_scanned(listed_entry(l, k0), rp, ignore, child_at(children, j)));
    }
}

/// Builds the tree for the listing `l` seen at relative path
/// `relative_path`: a scan root is named `.`, each subdirectory keeps its
/// listed name, ignored directories are pruned, and files start without a
/// fingerprint.
#[verifier::rlimit(100)]
pub fn generate_root_from_listing(
    l: &DirListing,
    relative_path: &str,
    ignore: &Vec<String>,
) -> (r: DirectoryNode)
    requires
        l.wf(),
    ensures
        spec_scanned_dir(*l, relative_path@, ignore.deep_view(), r),
        r.wf(),
    decreases *l,
{
    proof {
        reveal_strlit(".");
    }
    let mut data = if relative_path.is_empty() {
        DirectoryNode::new(crate::path_string("."), None)
    } else {
        DirectoryNode::new(l.name.clone(), Some(crate::path_string(relative_path)))
    };
    let rp = crate::join_path(relative_path, data.name.as_str());
    let ghost grp = rp@;
    let ghost gname = data.name@;
    let ghost gpath = data.path;
    proof {
        lemma_scan_init(*l, grp, ignore.deep_view(), data.children@);
    }
    let mut i: usize = 0;
    while i < l.entries.len()
        invariant
            i <= l.entries@.len(),
            l.wf(),
            rp@ == grp,
            grp == spec_join_path(relative_path@, data.name@),
            grp.len() != 0,
            data.name@ == gname,
            (if relative_path@.len() == 0 {
                gname == "."@
            } else {
                gname == l.name@
            }),
            data.path == gpath,
            (if relative_path@.len() == 0 {
                data.path is None
            } else {
                data.path matches Some(p) && p@ == relative_path@
            }),
            sorted_children(data.children@),
            forall|j: int| 0 <= j < data.children@.len() ==> (#[trigger] data.children@[j]).wf(),
            scan_children_match(*l, grp, ignore.deep_view(), i as int, data.children@),
        decreases l.entries@.len() - i,
    {
        let ghost prev = data.children@;
        match &l.entries[i] {
            ListingEntry::File(fl) => {
                let child = Node::File(
                    FileNode::new(rp.clone(), fl.name.clone(), fl.last_modified),
                );
                proof {
                    lemma_file_entry_kept(l.entries@[i as int], grp, ignore.deep_view());
                    assert(entry_scanned(l.entries@[i as int], grp, ignore.deep_view(), child));
                }
                proof {
                    lemma_scan_fresh_name(prev, child, *l, i as int, grp, ignore.deep_view());
                }
                let added = data.add_child(child);
                proof {
                    match added {
                        Some(idx) => {
                            lemma_scan_step_insert(
                                prev,
                                data.children@,
                                idx as int,
                                child,
                                *l,
                                i as int,
                                grp,
                                ignore.deep_view(),
                            );
                        },
                        None => {
                            assert(false);
                        },
                    }
                }
            },
            ListingEntry::Directory(dl) => {
                let rp_folder = crate::join_path(rp.as_str(), dl.name.as_str());
                if should_ignore(rp_folder.as_str(), ignore) {
                    proof {
                        lemma_dir_entry_kept(l.entries@[i as int], grp, ignore.deep_view());
                        assert(!entry_kept(l.entries@[i as int], grp, ignore.deep_view()));
                        lemma_scan_step_skip(
                            *l,
                            i as int,
                            grp,
                            ignore.deep_view(),
                            data.children@,
                        );
                    }
                } else {
                    proof {
                        assert(decreases_to!(*l => l.entries));
                        vstd::std_specs::vec::axiom_vec_decreases_to_view(l.entries);
                        assert(decreases_to!(l.entries@ => l.entries@[i as int]));
                        assert(decreases_to!(
                            l.entries@[i as int] => l.entries@[i as int]->Directory_0
                        ));
                    }
                    let sub = generate_root_from_listing(dl, rp.as_str(), ignore);
                    let child = Node::Directory(sub);
                    proof {
                        lemma_dir_entry_kept(l.entries@[i as int], grp, ignore.deep_view());
                        assert(entry_kept(l.entries@[i as int], grp, ignore.deep_view()));
                        assert(entry_scanned(
                            l.entries@[i as int],
                            grp,
                            ignore.deep_view(),
                            child,
                        ));
                        lemma_scan_fresh_name(prev, child, *l, i as int, grp, ignore.deep_view());
                    }
                    let added = data.add_child(child);
                    proof {
                        match added {
                            Some(idx) => {
                                lemma_scan_step_insert(
                                    prev,
                                    data.children@,
                                    idx as int,
                                    child,
                                    *l,
                                    i as int,
                                    grp,
                                    ignore.deep_view(),
                                );
                            },
                            None => {
                                assert(false);
                            },
                        }
                    }
                }
            },
        }
        i = i + 1;
    }
    data
}

/// The name of a scanned entry is the listing entry's name, provided the
/// entry sits below a non-empty relative path.
proof fn lemma_entry_scanned_name(e: ListingEntry, rp: Seq<char>, ignore: Seq<Seq<char>>, c: Node)
    requires
        rp.len() != 0,
        entry_scanned(e, rp, ignore, c),
    ensures
        c.spec_name() == entry_name(e),
{
}

/// Inserting the scanned form of entry `i` keeps every witness of the
/// scan loop: every earlier kept entry still appears among the children,
/// at a possibly shifted position, and every child still comes from some
/// kept entry.
#[verifier::rlimit(100)]
proof fn lemma_scan_step_insert(
    prev: Seq<Node>,
    cur: Seq<Node>,
    idx: int,
    child: Node,
    l: DirListing,
    i: int,
    grp: Seq<char>,
    ignore: Seq<Seq<char>>,
)
    requires
        0 <= i < l.entries@.len(),
        0 <= idx <= prev.len(),
        cur == prev.insert(idx, child),
        entry_kept(l.entries@[i], grp, ignore),
        entry_scanned(l.entries@[i], grp, ignore, child),
        scan_children_match(l, grp, ignore, i, prev),
    ensures
        scan_children_match(l, grp, ignore, i + 1, cur),
{
    assert(cur.len() == prev.len() + 1);
    assert forall|k: int|
        0 <= k < i + 1 <= l.entries@.len() && entry_kept(
            #[trigger] listed_entry(l, k),
            grp,
            ignore,
        ) implies exists|j: int|
        0 <= j < cur.len() && entry_scanned(
            listed_entry(l, k),
            grp,
            ignore,
            #[trigger] child_at(cur, j),
        ) by {
        if k == i {
            assert(child_at(cur, idx) == child);
            assert(entry_scanned(listed_entry(l, k), grp, ignore, child_at(cur, idx)));
        } else {
            let j0 = choose|j0: int|
                0 <= j0 < prev.len() && entry_scanned(
                    listed_entry(l, k),
                    grp,
                    ignore,
                    #[trigger] child_at(prev, j0),
                );
            let j1: int = if j0 < idx {
                j0
            } else {
                j0 + 1
            };
            assert(cur[j1] == prev[j0]);
            assert(child_at(cur, j1) == child_at(prev, j0));
            assert(entry_scanned(listed_entry(l, k), grp, ignore, child_at(cur, j1)));
        }
    }
    assert forall|j: int|
        #![trigger child_at(cur, j)]
        0 <= j < cur.len() implies exists|k: int|
        0 <= k < i + 1 <= l.entries@.len() && entry_kept(#[trigger] listed_entry(l, k), grp, ignore)
            && entry_scanned(listed_entry(l, k), grp, ignore, child_at(cur, j)) by {
        if j == idx {
            assert(child_at(cur, j) == child);
            assert(listed_entry(l, i) == l.entries@[i]);
            assert(entry_kept(listed_entry(l, i), grp, ignore) && entry_scanned(
                listed_entry(l, i),
                grp,
                ignore,
                child_at(cur, j),
            ));
        } else {
            let j0: int = if j < idx {
                j
            } else {
                j - 1
            };
            assert(cur[j] == prev[j0]);
            assert(child_at(prev, j0) == child_at(cur, j));
            let k0 = choose|k0: int|
                0 <= k0 < i <= l.entries@.len() && entry_kept(
                    #[trigger] listed_entry(l, k0),
                    grp,
                    ignore,
                ) && entry_scanned(listed_entry(l, k0), grp, ignore, child_at(prev, j0));
            assert(entry_kept(listed_entry(l, k0), grp, ignore) && entry_scanned(
                listed_entry(l, k0),
                grp,
                ignore,
                child_at(cur, j),
            ));
        }
    }
}

/// A well-formed listing never hands the scan a name it has already
/// inserted: every child built from the earlier entries carries a name
/// other than entry `i`'s, since names at one level are distinct.
proof fn lemma_scan_fresh_name(
    prev: Seq<Node>,
    child: Node,
    l: DirListing,
    i: int,
    grp: Seq<char>,
    ignore: Seq<Seq<char>>,
)
    requires
        0 <= i < l.entries@.len(),
        l.wf(),
        grp.len() != 0,
        entry_scanned(l.entries@[i], grp, ignore, child),
        scan_children_match(l, grp, ignore, i, prev),
    ensures
        forall|j: int|
            0 <= j < prev.len() ==> (#[trigger] prev[j]).spec_name() != child.spec_name(),
{
    assert forall|j: int|
        0 <= j < prev.len() implies (#[trigger] prev[j]).spec_name() != child.spec_name() by {
        assert(child_at(prev, j) == prev[j]);
        let k0 = choose|k0: int|
            0 <= k0 < i <= l.entries@.len() && entry_kept(#[trigger] listed_entry(l, k0), grp, ignore)
                && entry_scanned(listed_entry(l, k0), grp, ignore, child_at(prev, j));
        lemma_entry_scanned_name(l.entries@[k0], grp, ignore, prev[j]);
        lemma_entry_scanned_name(l.entries@[i], grp, ignore, child);
    }
}

/// Captures a snapshot of a directory listing: the scanned tree together
/// with the source path and the time of the call.
pub fn generate_file_data_from_listing(
    l: &DirListing,
    ignore: &Vec<String>,
    path: String,
) -> (r: FileData)
    requires
        l.wf(),
    ensures
        r.path == path,
        r.version == 0,
        r.root matches Some(root) && spec_scanned_dir(*l, Seq::<char>::empty(), ignore.deep_view(), root)
            && root.wf(),
{
    let root = generate_root_from_listing(l, "", ignore);
    proof {
        reveal_strlit("");
        assert(""@ =~= Seq::<char>::empty());
    }
    FileData::new(path, 0, root)
}

} // verus!
