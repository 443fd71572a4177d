//! The sibling graph of a directory: one node for each directory directly
//! below it and one for each target that stands in it, joined wherever a target
//! of the one depends on a target of the other.

use crate::graph::acyclic;
use crate::graph::toposort_exists;
use crate::graph::BetterGraph;
use crate::paths::find_position;
use crate::paths::is_prefix;
use crate::paths::lemma_position_of_present;
use crate::paths::path_begins_with;
use crate::paths::position;
use crate::tree::target_paths;
use crate::tree::DepGraph;
use crate::tree::Tree;
use vstd::prelude::*;

verus! {

/// A node of a sibling graph: the directory with the given name directly below
/// the graph's own, or the target with the given number that stands in it.
#[derive(Debug, Clone, Copy, PartialEq, Eq, Hash, Structural)]
pub enum DirOrSingle {
    Dir(usize),
    Single(usize),
}

/// The sibling graph of one directory.
pub type DirGraph = BetterGraph<DirOrSingle>;

/// The names of the directories directly below directory `d`: of each the last
/// segment of its path.
pub open spec fn subdir_names(tree: &Tree, d: int) -> Seq<usize> {
    Seq::new(
        tree.dirs@[d].subdirs@.len(),
        |k: int| tree.dirs@[tree.dirs@[d].subdirs@[k] as int].path@.last(),
    )
}

/// The nodes of the sibling graph of directory `d`: first the directories
/// directly below it, then the targets in it.
pub open spec fn sibling_nodes(tree: &Tree, d: int) -> Seq<DirOrSingle> {
    let names = subdir_names(tree, d);
    let targets = tree.dirs@[d].targets@;
    Seq::new(
        names.len() + targets.len(),
        |k: int|
            if k < names.len() {
                DirOrSingle::Dir(names[k])
            } else {
                DirOrSingle::Single(targets[k - names.len()])
            },
    )
}

/// The node of a sibling graph that the target `t` with the path `path` falls
/// under, where the graph's directory has the path `prefix`, the directories
/// below it the names `names`, and the targets in it are `targets`: the target's
/// own node where it stands in the directory itself, the node of the directory
/// that the next segment of its path names where it stands further below, and
/// none where it stands elsewhere.
pub open spec fn projection(
    names: Seq<usize>,
    targets: Seq<usize>,
    prefix: Seq<usize>,
    path: Seq<usize>,
    t: usize,
) -> Option<int> {
    if !is_prefix(prefix, path) {
        None
    } else if path.len() == prefix.len() {
        match position(targets, t) {
            Some(k) => Some(names.len() + k),
            None => None,
        }
    } else {
        position(names, path[prefix.len() as int])
    }
}

/// The edges of a sibling graph that the first `k` edges of the dependency
/// graph give: one from the node of the edge's start to the node of its end,
/// where both have a node and the two nodes differ.
pub open spec fn projected_edges(
    names: Seq<usize>,
    targets: Seq<usize>,
    prefix: Seq<usize>,
    paths: Seq<Seq<usize>>,
    edges: Seq<(usize, usize)>,
    k: int,
) -> Seq<(usize, usize)>
    decreases k,
{
    if k <= 0 {
        Seq::empty()
    } else {
        let before = projected_edges(names, targets, prefix, paths, edges, k - 1);
        let e = edges[k - 1];
        let source = projection(names, targets, prefix, paths[e.0 as int], e.0);
        let target = projection(names, targets, prefix, paths[e.1 as int], e.1);
        if source is Some && target is Some && source != target {
            before.push((source->0 as usize, target->0 as usize))
        } else {
            before
        }
    }
}

/// The edges of the sibling graph of directory `d`.
pub open spec fn sibling_edges(deps: &DepGraph, tree: &Tree, d: int) -> Seq<(usize, usize)> {
    projected_edges(
        subdir_names(tree, d),
        tree.dirs@[d].targets@,
        tree.dirs@[d].path@,
        target_paths(deps),
        deps.edges@,
        deps.edges@.len() as int,
    )
}

/// Whether a topological order exists at every directory of the tree: no
/// sibling graph has a cycle.
pub open spec fn toposortable(deps: &DepGraph, tree: &Tree) -> bool {
    forall|d: int|
        0 <= d < tree.dirs@.len() ==> acyclic(#[trigger] sibling_edges(deps, tree, d).to_set())
}

/// The node of a sibling graph that a target falls under, see `projection`.
pub(crate) fn project(
    names: &Vec<usize>,
    targets: &Vec<usize>,
    prefix: &Vec<usize>,
    path: &Vec<usize>,
    t: usize,
) -> (r: Option<usize>)
    requires
        names@.len() + targets@.len() <= usize::MAX,
    ensures
        match r {
            Some(k) => projection(names@, targets@, prefix@, path@, t) == Some(k as int) && k
                < names@.len() + targets@.len(),
            None => projection(names@, targets@, prefix@, path@, t) is None,
        },
{
    if !path_begins_with(path, prefix) {
        None
    } else if path.len() == prefix.len() {
        proof {
            lemma_position_of_present(targets@, t);
        }
        match find_position(targets, t) {
            Some(k) => Some(names.len() + k),
            None => None,
        }
    } else {
        proof {
            lemma_position_of_present(names@, path@[prefix@.len() as int]);
        }
        find_position(names, path[prefix.len()])
    }
}

/// The names of the directories directly below directory `dir`.
pub(crate) fn subdir_name_list(tree: &Tree, dir: usize) -> (names: Vec<usize>)
    requires
        tree.wf(),
        dir < tree.dirs@.len(),
    ensures
        names@ == subdir_names(tree, dir as int),
{
    let here = &tree.dirs[dir];
    let mut names: Vec<usize> = Vec::new();
    let mut k: usize = 0;
    while k < here.subdirs.len()
        invariant
            k <= here.subdirs@.len(),
            tree.wf(),
            dir < tree.dirs@.len(),
            *here == tree.dirs@[dir as int],
            names@ == subdir_names(tree, dir as int).take(k as int),
        decreases here.subdirs@.len() - k,
    {
        let child = here.subdirs[k];
        assert(tree.is_child(dir as int, tree.dirs@[dir as int].subdirs@[k as int] as int));
        names.push(tree.dirs[child].path[tree.dirs[child].path.len() - 1]);
        assert(names@ =~= subdir_names(tree, dir as int).take(k + 1));
        k = k + 1;
    }
    assert(names@ =~= subdir_names(tree, dir as int));
    names
}

/// The sibling graph of directory `dir` of the tree. It has an edge from the
/// node of a directory `a` to the node of a directory `b` exactly if a target
/// at or below `a` depends directly on a target at or below `b`; a target that
/// stands in `dir` itself has a node of its own. No node has an edge to itself.
pub fn gen_dir_graph(deps: &DepGraph, tree: &Tree, dir: usize) -> (local: DirGraph)
    requires
        deps.wf(),
        tree.wf(),
        dir < tree.dirs@.len(),
    ensures
        local.wf(),
        local.nodes@ == sibling_nodes(tree, dir as int),
        local.edges@ == sibling_edges(deps, tree, dir as int),
{
    let here = &tree.dirs[dir];
    let names = subdir_name_list(tree, dir);
    let mut local: DirGraph = BetterGraph::new();
    let mut k: usize = 0;
    while k < names.len()
        invariant
            k <= names@.len(),
            dir < tree.dirs@.len(),
            names@ == subdir_names(tree, dir as int),
            local.edges@.len() == 0,
            local.nodes@ == sibling_nodes(tree, dir as int).take(k as int),
        decreases names@.len() - k,
    {
        local.nodes.push(DirOrSingle::Dir(names[k]));
        assert(local.nodes@ =~= sibling_nodes(tree, dir as int).take(k + 1));
        k = k + 1;
    }
    let mut k: usize = 0;
    while k < here.targets.len()
        invariant
            k <= here.targets@.len(),
            dir < tree.dirs@.len(),
            *here == tree.dirs@[dir as int],
            names@ == subdir_names(tree, dir as int),
            local.edges@.len() == 0,
            local.nodes@ == sibling_nodes(tree, dir as int).take(names@.len() + k),
        decreases here.targets@.len() - k,
    {
        local.nodes.push(DirOrSingle::Single(here.targets[k]));
        assert(local.nodes@ =~= sibling_nodes(tree, dir as int).take(names@.len() + k + 1));
        k = k + 1;
    }
    assert(local.nodes@ =~= sibling_nodes(tree, dir as int));
    let ghost paths = target_paths(deps);
    let count = local.nodes.len();
    let mut k: usize = 0;
    while k < deps.edges.len()
        invariant
            k <= deps.edges@.len(),
            count == names@.len() + here.targets@.len(),
            deps.wf(),
            dir < tree.dirs@.len(),
            *here == tree.dirs@[dir as int],
            paths == target_paths(deps),
            names@ == subdir_names(tree, dir as int),
            local.nodes@ == sibling_nodes(tree, dir as int),
            local.nodes@.len() == names@.len() + here.targets@.len(),
            local.wf(),
            local.edges@ == projected_edges(
                names@,
                here.targets@,
                here.path@,
                paths,
                deps.edges@,
                k as int,
            ),
        decreases deps.edges@.len() - k,
    {
        let e = deps.edges[k];
        let source = project(&names, &here.targets, &here.path, &deps.nodes[e.0].path, e.0);
        let target = project(&names, &here.targets, &here.path, &deps.nodes[e.1].path, e.1);
        if let Some(s) = source {
            if let Some(t) = target {
                if s != t {
                    local.edges.push((s, t));
                }
            }
        }
        k = k + 1;
    }
    local
}

/// Whether target `node` stands at or below the directory with the path `path`.
pub fn is_in_group(deps: &DepGraph, node: usize, path: &Vec<usize>) -> (r: bool)
    requires
        node < deps.nodes@.len(),
    ensures
        r == is_prefix(path@, deps.nodes@[node as int].path@),
{
    path_begins_with(&deps.nodes[node].path, path)
}

/// Whether target `start` depends, directly or through other targets, on a
/// target at or below the directory with the path `path`, or stands there
/// itself.
pub open spec fn depends_on_folder(
    deps: &DepGraph,
    start: usize,
    path: Seq<usize>,
    k: int,
) -> bool {
    exists|x: int|
        0 <= x < k && crate::graph::reachable(deps.edges@.to_set(), start, x as usize)
            && is_prefix(path, (#[trigger] deps.nodes@[x]).path@)
}

/// Whether there is any indirect dependency of target `start` on the folder
/// with the path `path`.
pub fn itaid_from_node_to_folder(deps: &DepGraph, start: usize, path: &Vec<usize>) -> (r: bool)
    requires
        deps.wf(),
        start < deps.nodes@.len(),
    ensures
        r == depends_on_folder(deps, start, path@, deps.nodes@.len() as int),
{
    let n = deps.nodes.len();
    let mut x: usize = 0;
    while x < n
        invariant
            x <= n,
            n == deps.nodes@.len(),
            deps.wf(),
            start < n,
            !depends_on_folder(deps, start, path@, x as int),
        decreases n - x,
    {
        if is_in_group(deps, x, path) && crate::graph::has_path_connecting(
            n,
            &deps.edges,
            start,
            x,
        ) {
            assert(is_prefix(path@, deps.nodes@[x as int].path@));
            return true;
        }
        x = x + 1;
    }
    false
}

/// Whether some target at or below the folder `start` depends on the folder
/// `dest`, see `depends_on_folder`.
pub open spec fn folder_depends_on_folder(
    deps: &DepGraph,
    start: Seq<usize>,
    dest: Seq<usize>,
    k: int,
) -> bool {
    exists|t: int|
        0 <= t < k && is_prefix(start, (#[trigger] deps.nodes@[t]).path@) && depends_on_folder(
            deps,
            t as usize,
            dest,
            deps.nodes@.len() as int,
        )
}

/// Whether there is any indirect dependency of a target at or below the folder
/// with the path `start` on the folder with the path `dest`.
pub fn itaid_from_folder_to_folder(deps: &DepGraph, start: &Vec<usize>, dest: &Vec<usize>) -> (r:
    bool)
    requires
        deps.wf(),
    ensures
        r == folder_depends_on_folder(deps, start@, dest@, deps.nodes@.len() as int),
{
    let n = deps.nodes.len();
    let mut t: usize = 0;
    while t < n
        invariant
            t <= n,
            n == deps.nodes@.len(),
            deps.wf(),
            !folder_depends_on_folder(deps, start@, dest@, t as int),
        decreases n - t,
    {
        if is_in_group(deps, t, start) && itaid_from_node_to_folder(deps, t, dest) {
            assert(is_prefix(start@, deps.nodes@[t as int].path@));
            return true;
        }
        t = t + 1;
    }
    false
}

/// Checks that a topological order exists at every directory. `Err` names the
/// first directory of the tree's list whose sibling graph has a cycle.
pub fn assert_toposort_possible(deps: &DepGraph, tree: &Tree) -> (r: Result<(), usize>)
    requires
        deps.wf(),
        tree.wf(),
    ensures
        r is Ok <==> toposortable(deps, tree),
        r matches Err(d) ==> {
            &&& d < tree.dirs@.len()
            &&& !acyclic(sibling_edges(deps, tree, d as int).to_set())
            &&& forall|j: int|
                0 <= j < d ==> acyclic(#[trigger] sibling_edges(deps, tree, j).to_set())
        },
{
    let mut d: usize = 0;
    while d < tree.dirs.len()
        invariant
            d <= tree.dirs@.len(),
            deps.wf(),
            tree.wf(),
            forall|j: int|
                0 <= j < d ==> acyclic(#[trigger] sibling_edges(deps, tree, j).to_set()),
        decreases tree.dirs@.len() - d,
    {
        let local = gen_dir_graph(deps, tree, d);
        if !toposort_exists(local.nodes.len(), &local.edges) {
            return Err(d);
        }
        d = d + 1;
    }
    Ok(())
}

} // verus!
