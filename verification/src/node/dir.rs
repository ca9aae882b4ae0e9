//! Directory entries: a name and a collection of children kept strictly
//! sorted by name, searched by binary search.

use vstd::prelude::*;
use vstd::string::StringExecFns;

use crate::node::diff::{spec_dir_update_list, update_list_between, FileDiff};
use crate::node::order::{
    compare_names, lemma_name_lt_asymmetric, lemma_name_lt_irreflexive, lemma_name_lt_transitive,
    name_lt, NameCmp,
};
use crate::node::{node_restored_opt, spec_opt_path, Node};

verus! {

/// Children are strictly sorted by name: no two children share a name.
pub open spec fn sorted_children(s: Seq<Node>) -> bool {
    forall|i: int, j: int|
        0 <= i < j < s.len() ==> name_lt(#[trigger] s[i].spec_name(), #[trigger] s[j].spec_name())
}

/// A directory entry. The stored `path` is the path of the containing
/// directory (`None` for a root) and is never persisted.
#[derive(Debug)]
pub struct DirectoryNode {
    pub path: Option<String>,
    pub name: String,
    pub children: Vec<Node>,
}

impl DirectoryNode {
    /// The full path of the directory, derived from the stored parent
    /// path; a root's path is its own name.
    pub open spec fn spec_path(self) -> Seq<char> {
        match self.path {
            None => self.name@,
            Some(p) => p@ + "/"@ + self.name@,
        }
    }

    /// Every directory below this one keeps its children strictly sorted
    /// by name, and every fingerprint is well-formed.
    pub open spec fn wf(self) -> bool
        decreases self,
    {
        &&& sorted_children(self.children@)
        &&& forall|i: int|
            0 <= i < self.children@.len() ==> (#[trigger] self.children@[i]).wf()
    }

    /// Two directories signal an update when their child lists differ in
    /// length, in some name, or in some same-positioned child.
    pub open spec fn spec_needs_update(self, other: DirectoryNode) -> bool
        decreases self,
    {
        ||| self.children@.len() != other.children@.len()
        ||| exists|k: int|
            0 <= k < self.children@.len() && ((#[trigger] self.children@[k]).spec_name()
                != (#[trigger] other.children@[k]).spec_name() || self.children@[
                k
            ].spec_needs_update(other.children@[k]))
    }

    pub fn new(name: String, path: Option<String>) -> (r: DirectoryNode)
        ensures
            r.name == name,
            r.path == path,
            r.children@ =~= Seq::<Node>::empty(),
            r.wf(),
    {
        DirectoryNode { path, name, children: Vec::new() }
    }

    /// Binary search for `name` among the sorted children: whether it was
    /// found, and the index where it sits or would be inserted.
    fn search(&self, name: &str) -> (r: (bool, usize))
        requires
            sorted_children(self.children@),
        ensures
            ({
                let (found, idx) = r;
                &&& idx <= self.children@.len()
                &&& (found <==> exists|k: int|
                    0 <= k < self.children@.len() && (#[trigger] self.children@[k]).spec_name()
                        == name@)
                &&& (found ==> idx < self.children@.len() && self.children@[
                    idx as int
                ].spec_name() == name@)
                &&& (!found ==> forall|k: int|
                    0 <= k < idx ==> name_lt((#[trigger] self.children@[k]).spec_name(), name@))
                &&& (!found ==> forall|k: int|
                    idx <= k < self.children@.len() ==> name_lt(
                        name@,
                        (#[trigger] self.children@[k]).spec_name(),
                    ))
            }),
    {
        let mut lo: usize = 0;
        let mut hi: usize = self.children.len();
        while lo < hi
            invariant
                lo <= hi <= self.children@.len(),
                sorted_children(self.children@),
                forall|k: int|
                    0 <= k < lo ==> name_lt((#[trigger] self.children@[k]).spec_name(), name@),
                forall|k: int|
                    hi <= k < self.children@.len() ==> name_lt(
                        name@,
                        (#[trigger] self.children@[k]).spec_name(),
                    ),
            decreases hi - lo,
        {
            let mid = lo + (hi - lo) / 2;
            match compare_names(self.children[mid].name().as_str(), name) {
                NameCmp::Less => {
                    proof {
                        assert forall|k: int| 0 <= k < mid + 1 implies name_lt(
                            (#[trigger] self.children@[k]).spec_name(),
                            name@,
                        ) by {
                            if k < mid {
                                lemma_name_lt_transitive(
                                    self.children@[k].spec_name(),
                                    self.children@[mid as int].spec_name(),
                                    name@,
                                );
                            }
                        }
                    }
                    lo = mid + 1;
                },
                NameCmp::Greater => {
                    proof {
                        assert forall|k: int| mid <= k < self.children@.len() implies name_lt(
                            name@,
                            (#[trigger] self.children@[k]).spec_name(),
                        ) by {
                            if k > mid {
                                lemma_name_lt_transitive(
                                    name@,
                                    self.children@[mid as int].spec_name(),
                                    self.children@[k].spec_name(),
                                );
                            }
                        }
                    }
                    hi = mid;
                },
                NameCmp::Equal => {
                    proof {
                        assert(self.children@[mid as int].spec_name() == name@);
                    }
                    return (true, mid);
                },
            }
        }
        proof {
            assert forall|k: int|
                0 <= k < self.children@.len() implies (#[trigger] self.children@[k]).spec_name()
                != name@ by {
                lemma_name_lt_irreflexive(self.children@[k].spec_name());
            }
        }
        (false, lo)
    }

    /// Whether some child shares the entry's name.
    pub fn has_child(&self, child: &Node) -> (r: bool)
        requires
            sorted_children(self.children@),
        ensures
            r <==> exists|k: int|
                0 <= k < self.children@.len() && (#[trigger] self.children@[k]).spec_name()
                    == child.spec_name(),
    {
        let (found, _) = self.search(child.name().as_str());
        found
    }

    /// Removes and returns the child sharing the entry's name, if any.
    pub fn remove_child(&mut self, child: &Node) -> (r: Option<Node>)
        requires
            sorted_children(old(self).children@),
        ensures
            final(self).name == old(self).name,
            final(self).path == old(self).path,
            sorted_children(final(self).children@),
            match r {
                Some(n) => exists|k: int|
                    0 <= k < old(self).children@.len() && (#[trigger] old(self).children@[k]) == n
                        && n.spec_name() == child.spec_name() && final(self).children@ == old(
                        self,
                    ).children@.remove(k),
                None => *final(self) == *old(self) && forall|k: int|
                    0 <= k < old(self).children@.len() ==> (
                    #[trigger] old(self).children@[k]).spec_name() != child.spec_name(),
            },
    {
        let (found, idx) = self.search(child.name().as_str());
        if found {
            let n = self.children.remove(idx);
            proof {
                assert(old(self).children@[idx as int] == n);
                assert forall|i: int, j: int|
                    0 <= i < j < self.children@.len() implies name_lt(
                    (#[trigger] self.children@[i]).spec_name(),
                    (#[trigger] self.children@[j]).spec_name(),
                ) by {
                    assert(self.children@[i] == if i < idx {
                        old(self).children@[i]
                    } else {
                        old(self).children@[i + 1]
                    });
                    assert(self.children@[j] == if j < idx {
                        old(self).children@[j]
                    } else {
                        old(self).children@[j + 1]
                    });
                }
            }
            Some(n)
        } else {
            None
        }
    }

    /// Inserts the entry at its sorted position and returns the position;
    /// inserting a name that already exists is a no-op returning `None`.
    pub fn add_child(&mut self, child: Node) -> (r: Option<usize>)
        requires
            sorted_children(old(self).children@),
        ensures
            final(self).name == old(self).name,
            final(self).path == old(self).path,
            sorted_children(final(self).children@),
            match r {
                None => *final(self) == *old(self) && exists|k: int|
                    0 <= k < old(self).children@.len() && (
                    #[trigger] old(self).children@[k]).spec_name() == child.spec_name(),
                Some(idx) => {
                    &&& idx <= old(self).children@.len()
                    &&& final(self).children@ == old(self).children@.insert(idx as int, child)
                    &&& forall|k: int|
                        0 <= k < old(self).children@.len() ==> (
                        #[trigger] old(self).children@[k]).spec_name() != child.spec_name()
                },
            },
    {
        let (found, idx) = self.search(child.name().as_str());
        if found {
            None
        } else {
            proof {
                let inserted = old(self).children@.insert(idx as int, child);
                assert forall|i: int, j: int| 0 <= i < j < inserted.len() implies name_lt(
                    (#[trigger] inserted[i]).spec_name(),
                    (#[trigger] inserted[j]).spec_name(),
                ) by {
                    assert(inserted[i] == if i < idx {
                        old(self).children@[i]
                    } else if i == idx {
                        child
                    } else {
                        old(self).children@[i - 1]
                    });
                    assert(inserted[j] == if j < idx {
                        old(self).children@[j]
                    } else if j == idx {
                        child
                    } else {
                        old(self).children@[j - 1]
                    });
                }
            }
            self.children.insert(idx, child);
            Some(idx)
        }
    }

    pub fn get_path(&self) -> (r: String)
        ensures
            r@ == self.spec_path(),
    {
        match &self.path {
            None => self.name.clone(),
            Some(p) => {
                let mut s = p.clone();
                s.append("/");
                s.append(self.name.as_str());
                s
            },
        }
    }

    pub fn needs_update(&self, other: &Self) -> (r: bool)
        ensures
            r == self.spec_needs_update(*other),
        decreases *self,
    {
        if self.children.len() != other.children.len() {
            return true;
        }
        let mut i: usize = 0;
        while i < self.children.len()
            invariant
                i <= self.children@.len(),
                self.children@.len() == other.children@.len(),
                forall|k: int|
                    0 <= k < i ==> (#[trigger] self.children@[k]).spec_name() == (
                    #[trigger] other.children@[k]).spec_name() && !self.children@[
                    k
                ].spec_needs_update(other.children@[k]),
            decreases self.children@.len() - i,
        {
            let a = &self.children[i];
            let b = &other.children[i];
            match compare_names(a.name().as_str(), b.name().as_str()) {
                NameCmp::Equal => {},
                _ => {
                    return true;
                },
            }
            if a.needs_update(b) {
                return true;
            }
            i = i + 1;
        }
        false
    }

    /// The ordered diff records between this directory (base) and another
    /// (target), produced by a sorted merge at each level.
    pub fn get_update_list(&self, other: &Self) -> (r: Vec<FileDiff>)
        ensures
            r.deep_view() == spec_dir_update_list(*self, *other),
    {
        let path = self.get_path();
        let r = update_list_between(&path, &self.children, 0, &other.children, 0);
        proof {
            assert(self.children@.skip(0) =~= self.children@);
            assert(other.children@.skip(0) =~= other.children@);
        }
        r
    }

    /// Assigns the stored parent path of this directory and rebuilds the
    /// stored paths of all descendants from it.
    pub fn restore_path(&mut self, path: Option<String>)
        ensures
            crate::node::dir_path_restored(*old(self), *final(self), spec_opt_path(path)),
    {
        let r = restored_dir(self, path);
        *self = r;
    }

    pub fn children(&self) -> (r: &Vec<Node>)
        ensures
            r == &self.children,
    {
        &self.children
    }
}

/// Insertion order independence: two strictly sorted child lists that hold
/// the same entries are identical. Since `add_child` keeps the list
/// strictly sorted and ignores re-inserted names, inserting a directory's
/// children in any permutation yields this one sorted sequence.
pub proof fn lemma_sorted_unique(s: Seq<Node>, t: Seq<Node>)
    requires
        sorted_children(s),
        sorted_children(t),
        forall|n: Node| s.contains(n) <==> t.contains(n),
    ensures
        s == t,
    decreases s.len(),
{
    if s.len() == 0 {
        if t.len() > 0 {
            assert(t.contains(t[0]));
            assert(s.contains(t[0]));
            assert(false);
        }
        assert(s =~= t);
    } else {
        assert(s.contains(s[0]));
        assert(t.contains(s[0]));
        let j = choose|j: int| 0 <= j < t.len() && t[j] == s[0];
        assert(t.contains(t[0]));
        assert(s.contains(t[0]));
        let i = choose|i: int| 0 <= i < s.len() && s[i] == t[0];
        if i > 0 && j > 0 {
            assert(name_lt(s[0].spec_name(), s[i].spec_name()));
            assert(name_lt(t[0].spec_name(), t[j].spec_name()));
            lemma_name_lt_asymmetric(s[0].spec_name(), t[0].spec_name());
            assert(false);
        }
        if i == 0 || j == 0 {
            if j > 0 {
                assert(t[j] == t[0]);
                lemma_name_lt_irreflexive(t[0].spec_name());
                assert(false);
            }
            if i > 0 {
                assert(s[i] == s[0]);
                lemma_name_lt_irreflexive(s[0].spec_name());
                assert(false);
            }
        }
        assert(s[0] == t[0]);
        assert forall|n: Node| s.drop_first().contains(n) <==> t.drop_first().contains(
            n,
        ) by {
            if s.drop_first().contains(n) {
                let m = choose|m: int| 0 <= m < s.drop_first().len() && s.drop_first()[m] == n;
                assert(s[m + 1] == n);
                assert(s.contains(n));
                assert(t.contains(n));
                let k = choose|k: int| 0 <= k < t.len() && t[k] == n;
                if k == 0 {
                    assert(name_lt(s[0].spec_name(), s[m + 1].spec_name()));
                    lemma_name_lt_irreflexive(s[0].spec_name());
                    assert(false);
                }
                assert(t.drop_first()[k - 1] == n);
                assert(t.drop_first().contains(n));
            }
            if t.drop_first().contains(n) {
                let m = choose|m: int| 0 <= m < t.drop_first().len() && t.drop_first()[m] == n;
                assert(t[m + 1] == n);
                assert(t.contains(n));
                assert(s.contains(n));
                let k = choose|k: int| 0 <= k < s.len() && s[k] == n;
                if k == 0 {
                    assert(name_lt(t[0].spec_name(), t[m + 1].spec_name()));
                    lemma_name_lt_irreflexive(t[0].spec_name());
                    assert(false);
                }
                assert(s.drop_first()[k - 1] == n);
                assert(s.drop_first().contains(n));
            }
        }
        assert(sorted_children(s.drop_first())) by {
            assert forall|p: int, q: int|
                0 <= p < q < s.drop_first().len() implies name_lt(
                (#[trigger] s.drop_first()[p]).spec_name(),
                (#[trigger] s.drop_first()[q]).spec_name(),
            ) by {
                assert(s.drop_first()[p] == s[p + 1]);
                assert(s.drop_first()[q] == s[q + 1]);
            }
        }
        assert(sorted_children(t.drop_first())) by {
            assert forall|p: int, q: int|
                0 <= p < q < t.drop_first().len() implies name_lt(
                (#[trigger] t.drop_first()[p]).spec_name(),
                (#[trigger] t.drop_first()[q]).spec_name(),
            ) by {
                assert(t.drop_first()[p] == t[p + 1]);
                assert(t.drop_first()[q] == t[q + 1]);
            }
        }
        lemma_sorted_unique(s.drop_first(), t.drop_first());
        assert forall|k: int| 0 <= k < s.len() implies s[k] == t[k] by {
            if k > 0 {
                assert(s[k] == s.drop_first()[k - 1]);
                assert(t[k] == t.drop_first()[k - 1]);
            }
        }
        assert(s =~= t);
    }
}

/// Builds a copy of the directory with its stored parent path set to
/// `path` and all descendant paths rebuilt.
pub(crate) fn restored_dir(d: &DirectoryNode, path: Option<String>) -> (r: DirectoryNode)
    ensures
        crate::node::dir_path_restored(*d, r, spec_opt_path(path)),
    decreases *d,
{
    let mut out = DirectoryNode { path, name: d.name.clone(), children: Vec::new() };
    let full = out.get_path();
    let mut i: usize = 0;
    while i < d.children.len()
        invariant
            i <= d.children@.len(),
            out.children@.len() == i,
            out.path == path,
            out.name@ == d.name@,
            forall|k: int|
                0 <= k < i ==> node_restored_opt(
                    d.children@[k],
                    #[trigger] out.children@[k],
                    Some(out.spec_path()),
                ),
            full@ == out.spec_path(),
        decreases d.children@.len() - i,
    {
        let c = restored_node(&d.children[i], Some(full.clone()));
        out.children.push(c);
        i = i + 1;
    }
    out
}

/// Builds a copy of the entry with its stored parent path set to `path`
/// and, below a directory, all descendant paths rebuilt.
pub(crate) fn restored_node(n: &Node, path: Option<String>) -> (r: Node)
    requires
        *n is File ==> path is Some,
    ensures
        node_restored_opt(*n, r, spec_opt_path(path)),
    decreases *n,
{
    match n {
        Node::File(f) => Node::File(
            crate::node::file::FileNode {
                path,
                name: f.name.clone(),
                last_modified: f.last_modified,
                hash: clone_opt_string(&f.hash),
            },
        ),
        Node::Directory(d) => Node::Directory(restored_dir(d, path)),
    }
}

/// Clones an optional string.
fn clone_opt_string(s: &Option<String>) -> (r: Option<String>)
    ensures
        r == *s,
{
    match s {
        None => None,
        Some(x) => Some(x.clone()),
    }
}

} // verus!
