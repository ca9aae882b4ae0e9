//! Diff records and the merge-diff algorithm over two sorted trees.
//!
//! A diff between a base tree and a target tree is an ordered list of
//! records, each naming the containing directory, the entry and its kind,
//! labelled as an addition, a change or a removal. The list is produced by
//! a sorted two-pointer merge at each directory level.

use vstd::prelude::*;

use crate::node::dir::DirectoryNode;
use crate::node::file::FileNode;
use crate::node::Node;
use crate::spec_join_path;

verus! {

/// One affected entry: the path of its containing directory, its name, and
/// whether it is a file.
#[derive(Clone, Debug, PartialEq)]
pub struct FileDetail {
    pub path: String,
    pub name: String,
    pub is_file: bool,
}

/// The mathematical value of a diff record's entry.
pub struct FileDetailView {
    pub path: Seq<char>,
    pub name: Seq<char>,
    pub is_file: bool,
}

impl View for FileDetail {
    type V = FileDetailView;

    open spec fn view(&self) -> FileDetailView {
        FileDetailView { path: self.path@, name: self.name@, is_file: self.is_file }
    }
}

impl DeepView for FileDetail {
    type V = FileDetailView;

    open spec fn deep_view(&self) -> FileDetailView {
        self.view()
    }
}

/// One diff record.
#[derive(Clone, Debug, PartialEq)]
pub enum FileDiff {
    Add(FileDetail),
    Change(FileDetail),
    Remove(FileDetail),
}

/// The mathematical value of a diff record.
pub enum FileDiffView {
    Add(FileDetailView),
    Change(FileDetailView),
    Remove(FileDetailView),
}

impl View for FileDiff {
    type V = FileDiffView;

    open spec fn view(&self) -> FileDiffView {
        match self {
            FileDiff::Add(d) => FileDiffView::Add(d@),
            FileDiff::Change(d) => FileDiffView::Change(d@),
            FileDiff::Remove(d) => FileDiffView::Remove(d@),
        }
    }
}

impl DeepView for FileDiff {
    type V = FileDiffView;

    open spec fn deep_view(&self) -> FileDiffView {
        self.view()
    }
}

impl FileDetail {
    pub fn new(path: String, name: String, is_file: bool) -> (r: Self)
        ensures
            r.path == path,
            r.name == name,
            r.is_file == is_file,
    {
        FileDetail { path, name, is_file }
    }

    /// The record for an entry, at the entry's stored parent path.
    pub fn from(node: &Node) -> (r: Self)
        requires
            node.spec_stored_path() is Some,
        ensures
            r.path == node.spec_stored_path().unwrap(),
            r.name@ == node.spec_name(),
            r.is_file == (*node is File),
    {
        match node {
            Node::Directory(dir) => FileDetail::new(
                dir.path.as_ref().unwrap().clone(),
                dir.name.clone(),
                false,
            ),
            Node::File(file) => FileDetail::new(
                file.path.as_ref().unwrap().clone(),
                file.name.clone(),
                true,
            ),
        }
    }

    /// The record for a file entry, at the file's stored parent path.
    pub fn from_file(file: &FileNode) -> (r: Self)
        requires
            file.path is Some,
        ensures
            r.path == file.path.unwrap(),
            r.name@ == file.name@,
            r.is_file,
    {
        FileDetail::new(file.path.as_ref().unwrap().clone(), file.name.clone(), true)
    }

    /// The entry's path under the given base directory.
    pub fn get_path(&self, base: &str) -> (r: String)
        ensures
            r@ == spec_join_path(spec_join_path(base@, self.path@), self.name@),
    {
        let below = crate::join_path(base, self.path.as_str());
        crate::join_path(below.as_str(), self.name.as_str())
    }
}

/// The removal record for the entry `n` in the directory at `path`.
pub open spec fn spec_remove_record(path: Seq<char>, n: Node) -> FileDiffView {
    FileDiffView::Remove(
        FileDetailView { path, name: n.spec_name(), is_file: n is File },
    )
}

/// The change records between two same-named files in the directory at
/// `path`: one change record if the target differs, nothing otherwise.
pub open spec fn spec_file_change(path: Seq<char>, a: FileNode, b: FileNode) -> Seq<FileDiffView> {
    if a.spec_needs_update(b) {
        seq![
            FileDiffView::Change(
                FileDetailView { path, name: a.name@, is_file: true },
            ),
        ]
    } else {
        Seq::empty()
    }
}

/// The addition records for the entry `n` in the directory at `path`: the
/// entry itself and, for a directory, every descendant in pre-order.
pub open spec fn spec_node_as_add(path: Seq<char>, n: Node) -> Seq<FileDiffView>
    decreases n,
{
    match n {
        Node::File(f) => seq![
            FileDiffView::Add(FileDetailView { path, name: f.name@, is_file: true }),
        ],
        Node::Directory(d) => seq![
            FileDiffView::Add(FileDetailView { path, name: d.name@, is_file: false }),
        ] + spec_children_as_add(spec_join_path(path, d.name@), d.children@),
    }
}

/// The addition records for all entries of `s`, in order.
pub open spec fn spec_children_as_add(path: Seq<char>, s: Seq<Node>) -> Seq<FileDiffView>
    decreases s,
{
    if s.len() == 0 {
        Seq::empty()
    } else {
        spec_node_as_add(path, s[0]) + spec_children_as_add(path, s.drop_first())
    }
}

/// The merge-diff over two same-named entries found on both sides.
/// Files are compared by content, directories are recursed into, and a
/// kind mismatch replaces the old entry by the new one with its subtree.
pub open spec fn spec_node_update(path: Seq<char>, a: Node, b: Node) -> Seq<FileDiffView>
    decreases a, b,
{
    match (a, b) {
        (Node::File(fa), Node::File(fb)) => spec_file_change(path, fa, fb),
        (Node::Directory(da), Node::Directory(db)) => spec_diff_children(
            spec_join_path(path, da.name@),
            da.children@,
            db.children@,
        ),
        _ => seq![spec_remove_record(path, a)] + spec_node_as_add(path, b),
    }
}

/// The merge-diff over the remaining children `xs` (base side) and `ys`
/// (target side) of the directory at `path`, both sorted by name: the name
/// that sorts first is emitted as a removal (base only), an addition with
/// its subtree (target only), or compared on both sides when equal.
pub open spec fn spec_diff_children(path: Seq<char>, xs: Seq<Node>, ys: Seq<Node>) -> Seq<
    FileDiffView,
>
    decreases xs, ys,
{
    if xs.len() == 0 && ys.len() == 0 {
        Seq::empty()
    } else if ys.len() == 0 {
        seq![spec_remove_record(path, xs[0])] + spec_diff_children(path, xs.drop_first(), ys)
    } else if xs.len() == 0 {
        spec_node_as_add(path, ys[0]) + spec_diff_children(path, xs, ys.drop_first())
    } else if crate::node::order::name_lt(xs[0].spec_name(), ys[0].spec_name()) {
        seq![spec_remove_record(path, xs[0])] + spec_diff_children(path, xs.drop_first(), ys)
    } else if crate::node::order::name_lt(ys[0].spec_name(), xs[0].spec_name()) {
        spec_node_as_add(path, ys[0]) + spec_diff_children(path, xs, ys.drop_first())
    } else {
        spec_node_update(path, xs[0], ys[0]) + spec_diff_children(
            path,
            xs.drop_first(),
            ys.drop_first(),
        )
    }
}

/// The merge-diff between two directories, addressed at the base
/// directory's own derived path.
pub open spec fn spec_dir_update_list(a: DirectoryNode, b: DirectoryNode) -> Seq<FileDiffView> {
    spec_diff_children(a.spec_path(), a.children@, b.children@)
}

/// The diff records for two same-named entries, addressed at the base
/// entry's stored parent path (for a directory pair, at the base
/// directory's own derived path).
pub open spec fn spec_node_update_stored(a: Node, b: Node) -> Seq<FileDiffView> {
    match (a, b) {
        (Node::File(fa), Node::File(fb)) => spec_file_change(fa.path.unwrap()@, fa, fb),
        (Node::Directory(da), Node::Directory(db)) => spec_dir_update_list(da, db),
        _ => seq![spec_remove_record(a.spec_stored_path().unwrap()@, a)] + spec_node_as_add(
            a.spec_stored_path().unwrap()@,
            b,
        ),
    }
}

/// A diff of a tree against itself is empty: at every level the merge
/// pairs each entry with itself, and an entry never differs from itself.
pub proof fn lemma_diff_self_empty(path: Seq<char>, xs: Seq<Node>)
    ensures
        spec_diff_children(path, xs, xs) == Seq::<FileDiffView>::empty(),
    decreases xs,
{
    if xs.len() != 0 {
        crate::node::order::lemma_name_lt_irreflexive(xs[0].spec_name());
        lemma_node_update_self_empty(path, xs[0]);
        lemma_diff_self_empty(path, xs.drop_first());
        assert(spec_diff_children(path, xs, xs) =~= Seq::<FileDiffView>::empty());
    }
}

/// An entry never produces records against itself: a file's content never
/// differs from itself, and a directory recurses into an empty diff.
proof fn lemma_node_update_self_empty(path: Seq<char>, n: Node)
    ensures
        spec_node_update(path, n, n) == Seq::<FileDiffView>::empty(),
    decreases n,
{
    match n {
        Node::File(f) => {
            assert(!f.spec_needs_update(f));
        },
        Node::Directory(d) => {
            lemma_diff_self_empty(spec_join_path(path, d.name@), d.children@);
        },
    }
}

/// The record with its addition and removal labels swapped; change
/// records keep their label.
pub open spec fn spec_swap_record(r: FileDiffView) -> FileDiffView {
    match r {
        FileDiffView::Add(d) => FileDiffView::Remove(d),
        FileDiffView::Remove(d) => FileDiffView::Add(d),
        FileDiffView::Change(d) => FileDiffView::Change(d),
    }
}

/// The record list with addition and removal labels swapped.
pub open spec fn spec_swap(s: Seq<FileDiffView>) -> Seq<FileDiffView> {
    s.map_values(|r: FileDiffView| spec_swap_record(r))
}

/// An entry whose addition expands to a single record: a file, or a
/// directory without children.
pub open spec fn spec_single_add(n: Node) -> bool {
    match n {
        Node::File(_) => true,
        Node::Directory(d) => d.children@.len() == 0,
    }
}

/// The child lists on which the diff is symmetric. A one-sided entry must
/// be a file or an empty directory, since a one-sided directory with
/// content expands to its whole subtree on the adding side but to a single
/// record on the removing side. A same-named pair must have one kind, and
/// two files must either both carry fingerprints or share a modification
/// time, since the fall-back comparison "target is newer" is one-way.
pub open spec fn spec_sym_diffable(xs: Seq<Node>, ys: Seq<Node>) -> bool
    decreases xs, ys,
{
    if xs.len() == 0 && ys.len() == 0 {
        true
    } else if ys.len() == 0 {
        spec_single_add(xs[0]) && spec_sym_diffable(xs.drop_first(), ys)
    } else if xs.len() == 0 {
        spec_single_add(ys[0]) && spec_sym_diffable(xs, ys.drop_first())
    } else if crate::node::order::name_lt(xs[0].spec_name(), ys[0].spec_name()) {
        spec_single_add(xs[0]) && spec_sym_diffable(xs.drop_first(), ys)
    } else if crate::node::order::name_lt(ys[0].spec_name(), xs[0].spec_name()) {
        spec_single_add(ys[0]) && spec_sym_diffable(xs, ys.drop_first())
    } else {
        spec_sym_nodes(xs[0], ys[0]) && spec_sym_diffable(xs.drop_first(), ys.drop_first())
    }
}

/// The same-named pairs on which the diff is symmetric.
pub open spec fn spec_sym_nodes(a: Node, b: Node) -> bool
    decreases a, b,
{
    match (a, b) {
        (Node::File(fa), Node::File(fb)) => (fa.hash is Some && fb.hash is Some)
            || fa.last_modified == fb.last_modified,
        (Node::Directory(da), Node::Directory(db)) => spec_sym_diffable(
            da.children@,
            db.children@,
        ),
        _ => false,
    }
}

/// The addition records of a file or an empty directory: the single
/// record that also names the entry on the removing side.
proof fn lemma_single_add(path: Seq<char>, n: Node)
    requires
        spec_single_add(n),
    ensures
        spec_node_as_add(path, n) =~= seq![
            FileDiffView::Add(
                FileDetailView { path, name: n.spec_name(), is_file: n is File },
            ),
        ],
{
    match n {
        Node::File(_) => {},
        Node::Directory(d) => {
            assert(spec_children_as_add(spec_join_path(path, d.name@), d.children@)
                =~= Seq::<FileDiffView>::empty());
        },
    }
}

/// Swap symmetry: the diff taken in the opposite direction is the same
/// record list with addition and removal labels swapped, and the change
/// records are identical in both directions.
pub proof fn lemma_diff_swap_symmetric(path: Seq<char>, xs: Seq<Node>, ys: Seq<Node>)
    requires
        spec_sym_diffable(xs, ys),
    ensures
        spec_diff_children(path, ys, xs) == spec_swap(spec_diff_children(path, xs, ys)),
    decreases xs, ys,
{
    if xs.len() == 0 && ys.len() == 0 {
        assert(spec_diff_children(path, ys, xs) =~= spec_swap(
            spec_diff_children(path, xs, ys),
        ));
    } else if ys.len() == 0 {
        lemma_single_add(path, xs[0]);
        lemma_diff_swap_symmetric(path, xs.drop_first(), ys);
        assert(spec_diff_children(path, ys, xs) =~= spec_swap(
            spec_diff_children(path, xs, ys),
        ));
    } else if xs.len() == 0 {
        lemma_single_add(path, ys[0]);
        lemma_diff_swap_symmetric(path, xs, ys.drop_first());
        assert(spec_diff_children(path, ys, xs) =~= spec_swap(
            spec_diff_children(path, xs, ys),
        ));
    } else if crate::node::order::name_lt(xs[0].spec_name(), ys[0].spec_name()) {
        crate::node::order::lemma_name_lt_asymmetric(xs[0].spec_name(), ys[0].spec_name());
        lemma_single_add(path, xs[0]);
        lemma_diff_swap_symmetric(path, xs.drop_first(), ys);
        assert(spec_diff_children(path, ys, xs) =~= spec_swap(
            spec_diff_children(path, xs, ys),
        ));
    } else if crate::node::order::name_lt(ys[0].spec_name(), xs[0].spec_name()) {
        crate::node::order::lemma_name_lt_asymmetric(ys[0].spec_name(), xs[0].spec_name());
        lemma_single_add(path, ys[0]);
        lemma_diff_swap_symmetric(path, xs, ys.drop_first());
        assert(spec_diff_children(path, ys, xs) =~= spec_swap(
            spec_diff_children(path, xs, ys),
        ));
    } else {
        crate::node::order::lemma_name_lt_connected(xs[0].spec_name(), ys[0].spec_name());
        assert(xs[0].spec_name() == ys[0].spec_name());
        lemma_node_update_swap(path, xs[0], ys[0]);
        lemma_diff_swap_symmetric(path, xs.drop_first(), ys.drop_first());
        assert(spec_diff_children(path, ys, xs) =~= spec_swap(
            spec_diff_children(path, xs, ys),
        ));
    }
}

/// Swap symmetry for one same-named pair.
proof fn lemma_node_update_swap(path: Seq<char>, a: Node, b: Node)
    requires
        spec_sym_nodes(a, b),
        a.spec_name() == b.spec_name(),
    ensures
        spec_node_update(path, b, a) == spec_swap(spec_node_update(path, a, b)),
    decreases a, b,
{
    match (a, b) {
        (Node::File(fa), Node::File(fb)) => {
            assert(fa.spec_needs_update(fb) == fb.spec_needs_update(fa));
            assert(spec_node_update(path, b, a) =~= spec_swap(spec_node_update(path, a, b)));
        },
        (Node::Directory(da), Node::Directory(db)) => {
            lemma_diff_swap_symmetric(
                spec_join_path(path, da.name@),
                da.children@,
                db.children@,
            );
            assert(spec_join_path(path, db.name@) == spec_join_path(path, da.name@));
        },
        _ => {},
    }
}

/// Emits the addition records for `n` in the directory at `path`: the
/// entry itself and, for a directory, its whole subtree.
pub fn node_as_add(path: &String, n: &Node) -> (r: Vec<FileDiff>)
    ensures
        r.deep_view() == spec_node_as_add(path@, *n),
    decreases *n,
{
    let mut r: Vec<FileDiff> = Vec::new();
    match n {
        Node::File(f) => {
            r.push(FileDiff::Add(FileDetail::new(path.clone(), f.name.clone(), true)));
        },
        Node::Directory(d) => {
            r.push(FileDiff::Add(FileDetail::new(path.clone(), d.name.clone(), false)));
            let child_path = crate::join_path(path.as_str(), d.name.as_str());
            proof {
                lemma_children_decreases(*n, *d);
            }
            let mut below = children_as_add(&child_path, &d.children, 0);
            r.append(&mut below);
            proof {
                assert(d.children@.skip(0) =~= d.children@);
            }
        },
    }
    proof {
        assert(r.deep_view() =~= spec_node_as_add(path@, *n));
    }
    r
}

/// The children sequence of a directory entry sits strictly lower than the
/// entry itself in the termination order.
proof fn lemma_children_decreases(n: Node, d: DirectoryNode)
    requires
        n == Node::Directory(d),
    ensures
        decreases_to!(n => d.children@.skip(0)),
{
    assert(decreases_to!(n => n->Directory_0));
    assert(decreases_to!(n->Directory_0 => n->Directory_0.children));
    vstd::std_specs::vec::axiom_vec_decreases_to_view(d.children);
    assert(d.children@.skip(0) =~= d.children@);
}

/// Emits the addition records for the entries of `s` from index `i` on.
fn children_as_add(path: &String, s: &Vec<Node>, i: usize) -> (r: Vec<FileDiff>)
    requires
        i <= s@.len(),
    ensures
        r.deep_view() == spec_children_as_add(path@, s@.skip(i as int)),
    decreases s@.skip(i as int),
{
    let mut r: Vec<FileDiff> = Vec::new();
    if i == s.len() {
        proof {
            assert(r.deep_view() =~= spec_children_as_add(path@, s@.skip(i as int)));
        }
        return r;
    }
    proof {
        assert(s@.skip(i as int)[0] == s@[i as int]);
    }
    let mut first = node_as_add(path, &s[i]);
    r.append(&mut first);
    proof {
        lemma_skip_step(s@, i as int);
    }
    let mut rest = children_as_add(path, s, i + 1);
    r.append(&mut rest);
    proof {
        assert(s@.skip(i as int).drop_first() =~= s@.skip(i + 1 as int));
        assert(r.deep_view() =~= spec_children_as_add(path@, s@.skip(i as int)));
    }
    r
}

/// Dropping the first element of the suffix from `i` steps to the suffix
/// from `i + 1`, which sits strictly lower in the termination order.
proof fn lemma_skip_step(s: Seq<Node>, i: int)
    requires
        0 <= i < s.len(),
    ensures
        decreases_to!(s.skip(i) => s.skip(i + 1)),
{
    let t = s.skip(i);
    assert(t.subrange(1, t.len() as int) =~= s.skip(i + 1));
    vstd::seq::axiom_seq_subrange_decreases::<Node>(t, 1, t.len() as int);
}

/// The sorted two-pointer merge over the children of two directories at
/// `path`, from index `i` on the base side and `j` on the target side.
pub(crate) fn update_list_between(
    path: &String,
    xs: &Vec<Node>,
    i: usize,
    ys: &Vec<Node>,
    j: usize,
) -> (r: Vec<FileDiff>)
    requires
        i <= xs@.len(),
        j <= ys@.len(),
    ensures
        r.deep_view() == spec_diff_children(path@, xs@.skip(i as int), ys@.skip(j as int)),
    decreases xs@.skip(i as int), ys@.skip(j as int),
{
    let mut r: Vec<FileDiff> = Vec::new();
    if i == xs.len() && j == ys.len() {
        proof {
            assert(r.deep_view() =~= spec_diff_children(
                path@,
                xs@.skip(i as int),
                ys@.skip(j as int),
            ));
        }
        return r;
    }
    if j == ys.len() {
        proof {
            assert(xs@.skip(i as int)[0] == xs@[i as int]);
            lemma_skip_step(xs@, i as int);
        }
        let a = &xs[i];
        r.push(FileDiff::Remove(FileDetail::new(path.clone(), a.name().clone(), a.is_file())));
        let mut rest = update_list_between(path, xs, i + 1, ys, j);
        r.append(&mut rest);
        proof {
            assert(xs@.skip(i as int).drop_first() =~= xs@.skip(i + 1 as int));
            assert(r.deep_view() =~= spec_diff_children(
                path@,
                xs@.skip(i as int),
                ys@.skip(j as int),
            ));
        }
        return r;
    }
    if i == xs.len() {
        proof {
            assert(ys@.skip(j as int)[0] == ys@[j as int]);
            lemma_skip_step(ys@, j as int);
        }
        let mut added = node_as_add(path, &ys[j]);
        r.append(&mut added);
        let mut rest = update_list_between(path, xs, i, ys, j + 1);
        r.append(&mut rest);
        proof {
            assert(ys@.skip(j as int).drop_first() =~= ys@.skip(j + 1 as int));
            assert(r.deep_view() =~= spec_diff_children(
                path@,
                xs@.skip(i as int),
                ys@.skip(j as int),
            ));
        }
        return r;
    }
    proof {
        assert(xs@.skip(i as int)[0] == xs@[i as int]);
        assert(ys@.skip(j as int)[0] == ys@[j as int]);
    }
    let a = &xs[i];
    let b = &ys[j];
    match crate::node::order::compare_names(a.name().as_str(), b.name().as_str()) {
        crate::node::order::NameCmp::Less => {
            proof {
                lemma_skip_step(xs@, i as int);
            }
            r.push(FileDiff::Remove(FileDetail::new(path.clone(), a.name().clone(), a.is_file())));
            let mut rest = update_list_between(path, xs, i + 1, ys, j);
            r.append(&mut rest);
            proof {
                assert(xs@.skip(i as int).drop_first() =~= xs@.skip(i + 1 as int));
                assert(r.deep_view() =~= spec_diff_children(
                    path@,
                    xs@.skip(i as int),
                    ys@.skip(j as int),
                ));
            }
        },
        crate::node::order::NameCmp::Greater => {
            proof {
                lemma_skip_step(ys@, j as int);
            }
            let mut added = node_as_add(path, b);
            r.append(&mut added);
            let mut rest = update_list_between(path, xs, i, ys, j + 1);
            r.append(&mut rest);
            proof {
                assert(ys@.skip(j as int).drop_first() =~= ys@.skip(j + 1 as int));
                assert(r.deep_view() =~= spec_diff_children(
                    path@,
                    xs@.skip(i as int),
                    ys@.skip(j as int),
                ));
            }
        },
        crate::node::order::NameCmp::Equal => {
            proof {
                lemma_skip_step(xs@, i as int);
                lemma_skip_step(ys@, j as int);
            }
            let mut here = node_update(path, a, b);
            r.append(&mut here);
            let mut rest = update_list_between(path, xs, i + 1, ys, j + 1);
            r.append(&mut rest);
            proof {
                assert(xs@.skip(i as int).drop_first() =~= xs@.skip(i + 1 as int));
                assert(ys@.skip(j as int).drop_first() =~= ys@.skip(j + 1 as int));
                assert(r.deep_view() =~= spec_diff_children(
                    path@,
                    xs@.skip(i as int),
                    ys@.skip(j as int),
                ));
            }
        },
    }
    r
}

/// The records for two same-named entries in the directory at `path`.
fn node_update(path: &String, a: &Node, b: &Node) -> (r: Vec<FileDiff>)
    ensures
        r.deep_view() == spec_node_update(path@, *a, *b),
    decreases *a, *b,
{
    match (a, b) {
        (Node::File(fa), Node::File(fb)) => {
            let mut r: Vec<FileDiff> = Vec::new();
            if fa.needs_update(fb) {
                r.push(FileDiff::Change(FileDetail::new(path.clone(), fa.name.clone(), true)));
            }
            proof {
                assert(r.deep_view() =~= spec_node_update(path@, *a, *b));
            }
            r
        },
        (Node::Directory(da), Node::Directory(db)) => {
            let child_path = crate::join_path(path.as_str(), da.name.as_str());
            proof {
                lemma_children_decreases(*a, *da);
                lemma_children_decreases(*b, *db);
            }
            let r = update_list_between(&child_path, &da.children, 0, &db.children, 0);
            proof {
                assert(da.children@.skip(0) =~= da.children@);
                assert(db.children@.skip(0) =~= db.children@);
            }
            r
        },
        _ => {
            let mut r: Vec<FileDiff> = Vec::new();
            r.push(FileDiff::Remove(FileDetail::new(path.clone(), a.name().clone(), a.is_file())));
            let mut added = node_as_add(path, b);
            r.append(&mut added);
            proof {
                assert(r.deep_view() =~= spec_node_update(path@, *a, *b));
            }
            r
        },
    }
}

/// One filesystem action of a patch: create a directory under the output
/// root, or copy a file from below the source root to below the output
/// root.
#[derive(Clone, Debug, PartialEq)]
pub enum PatchAction {
    CopyFile { from: String, to: String },
    MakeDir { path: String },
}

/// The mathematical value of a patch action.
pub enum PatchActionView {
    CopyFile { from: Seq<char>, to: Seq<char> },
    MakeDir { path: Seq<char> },
}

impl View for PatchAction {
    type V = PatchActionView;

    open spec fn view(&self) -> PatchActionView {
        match self {
            PatchAction::CopyFile { from, to } => PatchActionView::CopyFile {
                from: from@,
                to: to@,
            },
            PatchAction::MakeDir { path } => PatchActionView::MakeDir { path: path@ },
        }
    }
}

impl DeepView for PatchAction {
    type V = PatchActionView;

    open spec fn deep_view(&self) -> PatchActionView {
        self.view()
    }
}

/// The full path of a record's entry below the given root.
pub open spec fn spec_record_path(root: Seq<char>, d: FileDetailView) -> Seq<char> {
    spec_join_path(spec_join_path(root, d.path), d.name)
}

/// The actions that materialize a diff: additions and changes become a
/// copy (for a file) or a directory creation, removals are never applied.
pub open spec fn spec_patch_actions(
    diffs: Seq<FileDiffView>,
    source_root: Seq<char>,
    output_root: Seq<char>,
) -> Seq<PatchActionView>
    decreases diffs.len(),
{
    if diffs.len() == 0 {
        Seq::empty()
    } else {
        spec_record_actions(diffs[0], source_root, output_root) + spec_patch_actions(
            diffs.drop_first(),
            source_root,
            output_root,
        )
    }
}

/// The actions of one record.
pub open spec fn spec_record_actions(
    r: FileDiffView,
    source_root: Seq<char>,
    output_root: Seq<char>,
) -> Seq<PatchActionView> {
    match r {
        FileDiffView::Add(d) | FileDiffView::Change(d) => if d.is_file {
            seq![
                PatchActionView::CopyFile {
                    from: spec_record_path(source_root, d),
                    to: spec_record_path(output_root, d),
                },
            ]
        } else {
            seq![PatchActionView::MakeDir { path: spec_record_path(output_root, d) }]
        },
        FileDiffView::Remove(_) => Seq::empty(),
    }
}

/// Plans the actions that materialize a diff below `output_root`, copying
/// file content from below `source_root`. Removal records plan nothing:
/// a patch only ever adds or overwrites.
pub fn plan_patch(diffs: &Vec<FileDiff>, source_root: &str, output_root: &str) -> (r: Vec<
    PatchAction,
>)
    ensures
        r.deep_view() == spec_patch_actions(diffs.deep_view(), source_root@, output_root@),
{
    let mut r: Vec<PatchAction> = Vec::new();
    let mut i: usize = 0;
    while i < diffs.len()
        invariant
            i <= diffs@.len(),
            r.deep_view() == spec_patch_actions(
                diffs.deep_view().take(i as int),
                source_root@,
                output_root@,
            ),
        decreases diffs@.len() - i,
    {
        match &diffs[i] {
            FileDiff::Add(d) | FileDiff::Change(d) => {
                if d.is_file {
                    let from = d.get_path(source_root);
                    let to = d.get_path(output_root);
                    r.push(PatchAction::CopyFile { from, to });
                } else {
                    let path = d.get_path(output_root);
                    r.push(PatchAction::MakeDir { path });
                }
            },
            FileDiff::Remove(_) => {},
        }
        proof {
            lemma_patch_actions_snoc(diffs.deep_view(), i as int, source_root@, output_root@);
            assert(r.deep_view() =~= spec_patch_actions(
                diffs.deep_view().take(i + 1 as int),
                source_root@,
                output_root@,
            ));
        }
        i = i + 1;
    }
    proof {
        assert(diffs.deep_view().take(diffs.deep_view().len() as int) =~= diffs.deep_view());
    }
    r
}

/// Extending the planned prefix by one record appends that record's
/// actions.
proof fn lemma_patch_actions_snoc(diffs: Seq<FileDiffView>, i: int, s: Seq<char>, o: Seq<char>)
    requires
        0 <= i < diffs.len(),
    ensures
        spec_patch_actions(diffs.take(i + 1), s, o) == spec_patch_actions(diffs.take(i), s, o)
            + spec_record_actions(diffs[i], s, o),
    decreases i,
{
    if i == 0 {
        assert(diffs.take(0) =~= Seq::<FileDiffView>::empty());
        assert(diffs.take(1)[0] == diffs[0]);
        assert(diffs.take(1).drop_first() =~= Seq::<FileDiffView>::empty());
        assert(spec_patch_actions(diffs.take(1), s, o) =~= spec_patch_actions(diffs.take(0), s, o)
            + spec_record_actions(diffs[0], s, o));
    } else {
        lemma_patch_actions_snoc(diffs.drop_first(), i - 1, s, o);
        assert(diffs.take(i + 1)[0] == diffs[0]);
        assert(diffs.take(i)[0] == diffs[0]);
        assert(diffs.take(i + 1).drop_first() =~= diffs.drop_first().take(i));
        assert(diffs.take(i).drop_first() =~= diffs.drop_first().take(i - 1));
        assert(diffs.drop_first()[i - 1] == diffs[i]);
        assert(spec_patch_actions(diffs.take(i + 1), s, o) =~= spec_patch_actions(
            diffs.take(i),
            s,
            o,
        ) + spec_record_actions(diffs[i], s, o));
    }
}

/// A patch never deletes: a diff holding removal records alone plans no
/// action at all, and the output is left untouched.
pub proof fn lemma_removals_plan_nothing(diffs: Seq<FileDiffView>, s: Seq<char>, o: Seq<char>)
    requires
        forall|i: int| 0 <= i < diffs.len() ==> (#[trigger] diffs[i]) is Remove,
    ensures
        spec_patch_actions(diffs, s, o) == Seq::<PatchActionView>::empty(),
    decreases diffs.len(),
{
    if diffs.len() != 0 {
        lemma_removals_plan_nothing(diffs.drop_first(), s, o);
        assert(spec_patch_actions(diffs, s, o) =~= Seq::<PatchActionView>::empty());
    }
}

} // verus!
