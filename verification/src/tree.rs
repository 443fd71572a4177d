//! The two structures that the solver reads: the dependency graph of the
//! targets and the tree of the directories that hold them.
//!
//! Directory names are kept in one pool. A path is the list of the pool's
//! numbers of its segments, from the root on.

use crate::graph::BetterGraph;
use crate::paths::find_position;
use crate::paths::same_path;
use vstd::prelude::*;

verus! {

/// The name of a target. No two targets have the same name.
#[derive(Debug, Clone, PartialEq, Eq, Hash, Default)]
pub struct TargetName(pub String);

/// The name of one segment of a directory path. That a target has the same
/// name means nothing.
#[derive(Debug, Clone, PartialEq, Eq, Hash)]
pub struct DirName(pub String);

impl TargetName {
    /// The name as text.
    pub fn to_text(&self) -> (r: String)
        ensures
            r@ == self.0@,
    {
        self.0.clone()
    }
}

impl DirName {
    /// The name as text.
    pub fn to_text(&self) -> (r: String)
        ensures
            r@ == self.0@,
    {
        self.0.clone()
    }
}

/// A target: what it provides, and the directory in which it stands.
#[derive(Debug, Clone)]
pub struct Node {
    pub provides: TargetName,
    pub path: Vec<usize>,
}

/// The dependency graph: an edge from `a` to `b` says that target `a` depends
/// directly on target `b`.
pub type DepGraph = BetterGraph<Node>;

/// Says that `target` will not be built in its ideal directory, but in the
/// directory `chosen_path` above it.
#[derive(Debug, Clone, PartialEq, Eq)]
pub struct Hoist {
    pub target: usize,
    pub chosen_path: Vec<usize>,
}

/// One directory of the tree: its path from the root, the directories directly
/// below it, and the targets that stand in it.
#[derive(Debug, Clone)]
pub struct Directory {
    pub path: Vec<usize>,
    pub subdirs: Vec<usize>,
    pub targets: Vec<usize>,
}

/// The tree of directories. Directory 0 is the root; `subdirs` holds numbers of
/// directories of the same tree.
#[derive(Debug, Clone)]
pub struct Tree {
    pub dirs: Vec<Directory>,
}

/// The paths of the targets of a dependency graph.
pub open spec fn target_paths(deps: &DepGraph) -> Seq<Seq<usize>> {
    Seq::new(deps.nodes@.len(), |t: int| deps.nodes@[t].path@)
}

/// The names of the targets of a dependency graph.
pub open spec fn target_names(deps: &DepGraph) -> Seq<Seq<char>> {
    Seq::new(deps.nodes@.len(), |t: int| deps.nodes@[t].provides.0@)
}

/// What hoists are, without the vectors that hold them: the target and the
/// path of each.
pub open spec fn hoists_of(hoists: Seq<Hoist>) -> Seq<(usize, Seq<usize>)> {
    Seq::new(hoists.len(), |i: int| (hoists[i].target, hoists[i].chosen_path@))
}

/// The number of the target with the name `key`, if the graph has it.
pub fn get_node_index(deps: &DepGraph, key: &TargetName) -> (r: Option<usize>)
    ensures
        match r {
            Some(t) => crate::paths::position(target_names(deps), key.0@) == Some(t as int) && t
                < deps.nodes@.len(),
            None => crate::paths::position(target_names(deps), key.0@) is None,
        },
{
    let ghost names = target_names(deps);
    let mut t: usize = 0;
    while t < deps.nodes.len()
        invariant
            t <= deps.nodes@.len(),
            names == target_names(deps),
            forall|j: int| 0 <= j < t ==> #[trigger] names[j] != key.0@,
        decreases deps.nodes@.len() - t,
    {
        if deps.nodes[t].provides.0 == key.0 {
            proof {
                assert(names[t as int] == key.0@);
                crate::paths::lemma_position_is(names, key.0@, t as int);
            }
            return Some(t);
        }
        t = t + 1;
    }
    proof {
        crate::paths::lemma_position_of_absent(names, key.0@);
    }
    None
}

impl Tree {
    /// Whether directory `c` stands directly below directory `i`: it comes later
    /// in the list, and its path is that of `i` and one segment more.
    pub open spec fn is_child(&self, i: int, c: int) -> bool {
        &&& i < c < self.dirs@.len()
        &&& self.dirs@[c].path@.len() == self.dirs@[i].path@.len() + 1
        &&& self.dirs@[c].path@.drop_last() == self.dirs@[i].path@
    }

    /// Whether some directory lists directory `c` among those below it.
    pub open spec fn has_parent(&self, c: int) -> bool {
        exists|i: int|
            0 <= i < self.dirs@.len() && (#[trigger] self.dirs@[i]).subdirs@.contains(c as usize)
    }

    /// The tree is well formed: the first directory is the root, no two
    /// directories have the same path, what a directory lists stands directly
    /// below it, and every directory but the root is listed.
    pub open spec fn wf(&self) -> bool {
        &&& self.dirs@.len() >= 1
        &&& self.dirs@[0].path@.len() == 0
        &&& forall|i: int, j: int|
            0 <= i < j < self.dirs@.len() ==> (#[trigger] self.dirs@[i]).path@
                != (#[trigger] self.dirs@[j]).path@
        &&& forall|i: int, k: int|
            0 <= i < self.dirs@.len() && 0 <= k < self.dirs@[i].subdirs@.len() ==> self.is_child(
                i,
                #[trigger] self.dirs@[i].subdirs@[k] as int,
            )
        &&& forall|c: int| 0 < c < self.dirs@.len() ==> #[trigger] self.has_parent(c)
    }

    /// Whether the tree has a directory with this path.
    pub open spec fn has_dir(&self, path: Seq<usize>) -> bool {
        exists|d: int| 0 <= d < self.dirs@.len() && (#[trigger] self.dirs@[d]).path@ == path
    }

    /// The number of the directory with this path.
    pub open spec fn dir_at(&self, path: Seq<usize>) -> int {
        choose|d: int| 0 <= d < self.dirs@.len() && (#[trigger] self.dirs@[d]).path@ == path
    }

    /// The directory with a given path is the only one with that path.
    pub proof fn lemma_dir_at(&self, d: int)
        requires
            self.wf(),
            0 <= d < self.dirs@.len(),
        ensures
            self.has_dir(self.dirs@[d].path@),
            self.dir_at(self.dirs@[d].path@) == d,
    {
        let path = self.dirs@[d].path@;
        let other = self.dir_at(path);
        assert(self.dirs@[other].path@ == path);
    }

    /// A tree that holds the root alone.
    pub fn new() -> (tree: Tree)
        ensures
            tree.wf(),
            tree.dirs@.len() == 1,
            tree.dirs@[0].subdirs@.len() == 0,
            tree.dirs@[0].targets@.len() == 0,
    {
        let mut dirs: Vec<Directory> = Vec::new();
        dirs.push(Directory { path: Vec::new(), subdirs: Vec::new(), targets: Vec::new() });
        let tree = Tree { dirs };
        assert forall|c: int| 0 < c < tree.dirs@.len() implies #[trigger] tree.has_parent(c) by {}
        tree
    }

    /// Whether the tree is well formed, see `wf`.
    pub fn check_wf(&self) -> (r: bool)
        ensures
            r == self.wf(),
    {
        let n = self.dirs.len();
        if n == 0 || self.dirs[0].path.len() != 0 {
            return false;
        }
        // No two directories have the same path.
        let mut b: usize = 0;
        while b < n
            invariant
                b <= n,
                n == self.dirs@.len(),
                forall|i: int, j: int|
                    0 <= i < j < b ==> (#[trigger] self.dirs@[i]).path@
                        != (#[trigger] self.dirs@[j]).path@,
            decreases n - b,
        {
            let mut a: usize = 0;
            while a < b
                invariant
                    a <= b < n,
                    n == self.dirs@.len(),
                    forall|i: int|
                        0 <= i < a ==> (#[trigger] self.dirs@[i]).path@
                            != self.dirs@[b as int].path@,
                decreases b - a,
            {
                if same_path(&self.dirs[a].path, &self.dirs[b].path) {
                    return false;
                }
                a = a + 1;
            }
            b = b + 1;
        }
        // What a directory lists stands directly below it.
        let mut i: usize = 0;
        while i < n
            invariant
                i <= n,
                n == self.dirs@.len(),
                forall|d: int, k: int|
                    0 <= d < i && 0 <= k < self.dirs@[d].subdirs@.len() ==> self.is_child(
                        d,
                        #[trigger] self.dirs@[d].subdirs@[k] as int,
                    ),
            decreases n - i,
        {
            let mut k: usize = 0;
            while k < self.dirs[i].subdirs.len()
                invariant
                    k <= self.dirs@[i as int].subdirs@.len(),
                    i < n,
                    n == self.dirs@.len(),
                    forall|j: int|
                        0 <= j < k ==> self.is_child(
                            i as int,
                            #[trigger] self.dirs@[i as int].subdirs@[j] as int,
                        ),
                decreases self.dirs@[i as int].subdirs@.len() - k,
            {
                let c = self.dirs[i].subdirs[k];
                if c <= i || c >= n {
                    assert(!self.is_child(i as int, self.dirs@[i as int].subdirs@[k as int] as int));
                    return false;
                }
                let below = &self.dirs[c].path;
                let here = &self.dirs[i].path;
                if below.len() == 0 || below.len() - 1 != here.len()
                    || !crate::paths::path_begins_with(below, here) {
                    proof {
                        if below@.len() == here@.len() + 1 && below@.drop_last() == here@ {
                            assert forall|j: int| 0 <= j < here@.len() implies below@[j]
                                == #[trigger] here@[j] by {
                                assert(below@.drop_last()[j] == below@[j]);
                            }
                        }
                    }
                    assert(!self.is_child(i as int, self.dirs@[i as int].subdirs@[k as int] as int));
                    return false;
                }
                assert(below@.drop_last() =~= here@);
                k = k + 1;
            }
            i = i + 1;
        }
        // Every directory but the root is listed.
        let mut c: usize = 1;
        while c < n
            invariant
                1 <= c <= n,
                n == self.dirs@.len(),
                forall|d: int| 0 < d < c ==> #[trigger] self.has_parent(d),
            decreases n - c,
        {
            let mut listed = false;
            let mut i: usize = 0;
            while i < n && !listed
                invariant
                    i <= n,
                    c < n,
                    n == self.dirs@.len(),
                    listed ==> self.has_parent(c as int),
                    !listed ==> forall|d: int|
                        0 <= d < i ==> !(#[trigger] self.dirs@[d]).subdirs@.contains(c),
                decreases n - i,
            {
                proof {
                    crate::paths::lemma_position_of_present(self.dirs@[i as int].subdirs@, c);
                }
                if find_position(&self.dirs[i].subdirs, c).is_some() {
                    assert(self.dirs@[i as int].subdirs@.contains(c as int as usize));
                    listed = true;
                }
                i = i + 1;
            }
            if !listed {
                assert(!self.has_parent(c as int));
                return false;
            }
            c = c + 1;
        }
        true
    }

    /// The number of the directory with the path `prefix`, if there is one.
    pub fn get_subtree_from_prefix(&self, prefix: &Vec<usize>) -> (r: Option<usize>)
        ensures
            match r {
                Some(d) => d < self.dirs@.len() && self.dirs@[d as int].path@ == prefix@,
                None => !self.has_dir(prefix@),
            },
    {
        let mut d: usize = 0;
        while d < self.dirs.len()
            invariant
                d <= self.dirs@.len(),
                forall|j: int| 0 <= j < d ==> (#[trigger] self.dirs@[j]).path@ != prefix@,
            decreases self.dirs@.len() - d,
        {
            if same_path(&self.dirs[d].path, prefix) {
                return Some(d);
            }
            d = d + 1;
        }
        None
    }
}

/// The two structures agree: every target is listed in the directory whose
/// path is the target's, a directory lists only targets that stand in it, and
/// none twice.
pub open spec fn consistent(deps: &DepGraph, tree: &Tree) -> bool {
    &&& forall|t: int| 0 <= t < deps.nodes@.len() ==> #[trigger] is_located(deps, tree, t)
    &&& forall|d: int, k: int|
        0 <= d < tree.dirs@.len() && 0 <= k < tree.dirs@[d].targets@.len() ==> is_at_home(
            deps,
            tree,
            d,
            #[trigger] tree.dirs@[d].targets@[k],
        )
    &&& forall|d: int|
        0 <= d < tree.dirs@.len() ==> (#[trigger] tree.dirs@[d]).targets@.no_duplicates()
}

/// Whether some directory has the path of target `t` and lists the target.
pub open spec fn is_located(deps: &DepGraph, tree: &Tree, t: int) -> bool {
    exists|d: int|
        0 <= d < tree.dirs@.len() && (#[trigger] tree.dirs@[d]).path@ == deps.nodes@[t].path@
            && tree.dirs@[d].targets@.contains(t as usize)
}

/// Whether `t` is a target whose path is that of directory `d`.
pub open spec fn is_at_home(deps: &DepGraph, tree: &Tree, d: int, t: usize) -> bool {
    t < deps.nodes@.len() && deps.nodes@[t as int].path@ == tree.dirs@[d].path@
}

/// Whether the two structures agree, see `consistent`.
pub fn verify_tree_graph(deps: &DepGraph, tree: &Tree) -> (r: bool)
    ensures
        r == consistent(deps, tree),
{
    let mut t: usize = 0;
    while t < deps.nodes.len()
        invariant
            t <= deps.nodes@.len(),
            forall|j: int| 0 <= j < t ==> #[trigger] is_located(deps, tree, j),
        decreases deps.nodes@.len() - t,
    {
        let mut found = false;
        let mut d: usize = 0;
        while d < tree.dirs.len() && !found
            invariant
                d <= tree.dirs@.len(),
                t < deps.nodes@.len(),
                found ==> is_located(deps, tree, t as int),
                !found ==> forall|j: int|
                    0 <= j < d ==> !((#[trigger] tree.dirs@[j]).path@ == deps.nodes@[t as int].path@
                        && tree.dirs@[j].targets@.contains(t)),
            decreases tree.dirs@.len() - d,
        {
            if same_path(&tree.dirs[d].path, &deps.nodes[t].path) {
                let at = find_position(&tree.dirs[d].targets, t);
                proof {
                    crate::paths::lemma_position_of_present(tree.dirs@[d as int].targets@, t);
                }
                if at.is_some() {
                    assert(tree.dirs@[d as int].targets@.contains(t));
                    found = true;
                }
            }
            d = d + 1;
        }
        if !found {
            assert(!is_located(deps, tree, t as int));
            return false;
        }
        t = t + 1;
    }
    let mut d: usize = 0;
    while d < tree.dirs.len()
        invariant
            d <= tree.dirs@.len(),
            forall|i: int, k: int|
                0 <= i < d && 0 <= k < tree.dirs@[i].targets@.len() ==> is_at_home(
                    deps,
                    tree,
                    i,
                    #[trigger] tree.dirs@[i].targets@[k],
                ),
            forall|i: int| 0 <= i < d ==> (#[trigger] tree.dirs@[i]).targets@.no_duplicates(),
        decreases tree.dirs@.len() - d,
    {
        let mut k: usize = 0;
        while k < tree.dirs[d].targets.len()
            invariant
                k <= tree.dirs@[d as int].targets@.len(),
                d < tree.dirs@.len(),
                forall|j: int|
                    0 <= j < k ==> is_at_home(
                        deps,
                        tree,
                        d as int,
                        #[trigger] tree.dirs@[d as int].targets@[j],
                    ),
                forall|i: int, j: int|
                    0 <= i < j < k ==> tree.dirs@[d as int].targets@[i]
                        != tree.dirs@[d as int].targets@[j],
            decreases tree.dirs@[d as int].targets@.len() - k,
        {
            let target = tree.dirs[d].targets[k];
            if target >= deps.nodes.len() || !same_path(
                &deps.nodes[target].path,
                &tree.dirs[d].path,
            ) {
                assert(!is_at_home(deps, tree, d as int, tree.dirs@[d as int].targets@[k as int]));
                return false;
            }
            let mut i: usize = 0;
            while i < k
                invariant
                    i <= k,
                    k < tree.dirs@[d as int].targets@.len(),
                    d < tree.dirs@.len(),
                    target == tree.dirs@[d as int].targets@[k as int],
                    forall|j: int| 0 <= j < i ==> tree.dirs@[d as int].targets@[j] != target,
                decreases k - i,
            {
                if tree.dirs[d].targets[i] == target {
                    assert(!tree.dirs@[d as int].targets@.no_duplicates());
                    return false;
                }
                i = i + 1;
            }
            k = k + 1;
        }
        d = d + 1;
    }
    true
}

} // verus!
