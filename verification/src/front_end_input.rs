//! The input of the solver: a list of targets, each with the targets that it
//! depends on and the directory that it would like to stand in, and how the
//! dependency graph and the tree of directories are made from it.

use crate::executor::dir_paths;
use crate::executor::lemma_push_no_duplicates;
use crate::graph::acyclic;
use crate::graph::toposort_exists;
use crate::graph::BetterGraph;
use crate::paths::copy_range;
use crate::paths::lemma_position_is;
use crate::paths::lemma_position_of_absent;
use crate::paths::position;
use crate::simplifier::has_edge;
use crate::simplifier::lemma_push_contains;
use crate::simplifier::with_edge;
use crate::tree::consistent;
use crate::tree::is_at_home;
use crate::tree::is_located;
use crate::tree::target_names;
use crate::tree::target_paths;
use crate::tree::DepGraph;
use crate::tree::DirName;
use crate::tree::Directory;
use crate::tree::Node;
use crate::tree::TargetName;
use crate::tree::Tree;
use vstd::prelude::*;

verus! {

/// A target as random input describes it: the numbers of the targets that it
/// depends on and of the segments of its path.
#[derive(Debug, Clone)]
pub struct FuzzInput {
    pub ddeps: Vec<u8>,
    pub ideal_path: Vec<u8>,
}

/// A target as the input names it.
#[derive(Debug, Clone)]
pub struct ImportedTarget {
    pub provides: String,
    pub ddeps: Vec<String>,
    pub ideal_path: Vec<String>,
}

/// The whole input: a list of targets.
pub type ImportedData = Vec<ImportedTarget>;

/// Why an input was rejected.
#[derive(Debug, Clone, PartialEq, Eq)]
pub enum ParseError {
    /// The input is no list of targets.
    InvalidJson,
    /// The targets depend on each other in a cycle.
    DepgraphCycle,
    /// The first target depends on the second, which no target provides.
    DependencyDoesNotExist(String, String),
}

/// What the strings of a list hold.
pub open spec fn views_of(v: Seq<String>) -> Seq<Seq<char>> {
    Seq::new(v.len(), |j: int| v[j]@)
}

/// The names that the targets provide.
pub open spec fn provided(dat: Seq<ImportedTarget>) -> Seq<Seq<char>> {
    Seq::new(dat.len(), |i: int| dat[i].provides@)
}

/// The names of a pool of directory names.
pub open spec fn pool_names(owner: Seq<DirName>) -> Seq<Seq<char>> {
    Seq::new(owner.len(), |i: int| owner[i].0@)
}

/// The names that the numbers of a path stand for.
pub open spec fn path_names(pool: Seq<Seq<char>>, path: Seq<usize>) -> Seq<Seq<char>> {
    Seq::new(path.len(), |j: int| pool[path[j] as int])
}

/// The pool with the name `x` in it: added at the end unless it is there.
pub open spec fn interned(pool: Seq<Seq<char>>, x: Seq<char>) -> Seq<Seq<char>> {
    if pool.contains(x) {
        pool
    } else {
        pool.push(x)
    }
}

/// The pool after the first `k` of the names have been put in.
pub open spec fn pool_with(pool: Seq<Seq<char>>, names: Seq<Seq<char>>, k: int) -> Seq<Seq<char>>
    decreases k,
{
    if k <= 0 {
        pool
    } else {
        interned(pool_with(pool, names, k - 1), names[k - 1])
    }
}

/// The pool after the paths of the first `i` targets have been put in.
pub open spec fn pooled(pool: Seq<Seq<char>>, dat: Seq<ImportedTarget>, i: int) -> Seq<Seq<char>>
    decreases i,
{
    if i <= 0 {
        pool
    } else {
        let names = views_of(dat[i - 1].ideal_path@);
        pool_with(pooled(pool, dat, i - 1), names, names.len() as int)
    }
}

/// Whether some target provides what target `i` names as its dependency `j`.
pub open spec fn is_known(dat: Seq<ImportedTarget>, i: int, j: int) -> bool {
    position(provided(dat), dat[i].ddeps@[j]@) is Some
}

/// Whether every dependency of every target is provided by some target.
pub open spec fn all_known(dat: Seq<ImportedTarget>) -> bool {
    forall|i: int, j: int|
        0 <= i < dat.len() && 0 <= j < dat[i].ddeps@.len() ==> #[trigger] is_known(dat, i, j)
}

/// Whether dependency `j` of target `i` is the first that no target provides.
pub open spec fn is_first_unknown(dat: Seq<ImportedTarget>, i: int, j: int) -> bool {
    &&& 0 <= i < dat.len()
    &&& 0 <= j < dat[i].ddeps@.len()
    &&& !is_known(dat, i, j)
    &&& forall|a: int, b: int|
        0 <= a < dat.len() && 0 <= b < dat[a].ddeps@.len() && (a < i || (a == i && b < j))
            ==> #[trigger] is_known(dat, a, b)
}

/// The edges after the first `k` dependencies of target `i` have been added
/// to `edges`: one edge to each target that provides the dependency, none twice.
pub open spec fn edges_with(
    names: Seq<Seq<char>>,
    wanted: Seq<Seq<char>>,
    i: usize,
    edges: Seq<(usize, usize)>,
    k: int,
) -> Seq<(usize, usize)>
    decreases k,
{
    if k <= 0 {
        edges
    } else {
        let before = edges_with(names, wanted, i, edges, k - 1);
        match position(names, wanted[k - 1]) {
            Some(t) => with_edge(before, (i, t as usize)),
            None => before,
        }
    }
}

/// The edges that the dependencies of the first `i` targets give.
pub open spec fn parsed_edges(dat: Seq<ImportedTarget>, i: int) -> Seq<(usize, usize)>
    decreases i,
{
    if i <= 0 {
        Seq::empty()
    } else {
        let wanted = views_of(dat[i - 1].ddeps@);
        edges_with(
            provided(dat),
            wanted,
            (i - 1) as usize,
            parsed_edges(dat, i - 1),
            wanted.len() as int,
        )
    }
}

/// The paths `dirs` with the first `j` prefixes of `path` among them, the
/// shorter first, each added at the end unless it is there.
pub open spec fn grown(dirs: Seq<Seq<usize>>, path: Seq<usize>, j: int) -> Seq<Seq<usize>>
    decreases j,
{
    if j <= 0 {
        dirs
    } else {
        let before = grown(dirs, path, j - 1);
        if before.contains(path.take(j)) {
            before
        } else {
            before.push(path.take(j))
        }
    }
}

/// The paths of the directories of the tree that the first `i` of the given
/// paths of targets need, in the order in which they are first needed. The
/// root comes first.
pub open spec fn tree_paths(paths: Seq<Seq<usize>>, i: int) -> Seq<Seq<usize>>
    decreases i,
{
    if i <= 0 {
        seq![Seq::empty()]
    } else {
        grown(tree_paths(paths, i - 1), paths[i - 1], paths[i - 1].len() as int)
    }
}

/// Whether the numbers of the list grow from each entry to the next.
pub open spec fn is_increasing(s: Seq<usize>) -> bool {
    forall|a: int, b: int| 0 <= a < b < s.len() ==> s[a] < s[b]
}

/// Whether every directory lists the directories below it and its targets in
/// the order of their numbers.
pub open spec fn lists_increasing(tree: &Tree) -> bool {
    forall|d: int|
        0 <= d < tree.dirs@.len() ==> is_increasing((#[trigger] tree.dirs@[d]).subdirs@)
            && is_increasing(tree.dirs@[d].targets@)
}

/// The number of the name `name` in the pool; a name that is new to the pool
/// is added at its end.
fn intern(owner: &mut Vec<DirName>, name: &String) -> (id: usize)
    requires
        pool_names(old(owner)@).no_duplicates(),
    ensures
        pool_names(final(owner)@).no_duplicates(),
        pool_names(final(owner)@) == interned(pool_names(old(owner)@), name@),
        id < final(owner)@.len(),
        pool_names(final(owner)@)[id as int] == name@,
{
    let ghost pool = pool_names(owner@);
    let mut k: usize = 0;
    while k < owner.len()
        invariant
            k <= owner@.len(),
            *owner == *old(owner),
            pool == pool_names(owner@),
            pool.no_duplicates(),
            forall|j: int| 0 <= j < k ==> #[trigger] pool[j] != name@,
        decreases owner@.len() - k,
    {
        if owner[k].0 == *name {
            assert(pool[k as int] == name@);
            assert(pool.contains(name@));
            return k;
        }
        k = k + 1;
    }
    owner.push(DirName(name.clone()));
    proof {
        assert(!pool.contains(name@));
        assert(pool_names(owner@) =~= pool.push(name@));
        assert forall|a: int, b: int|
            0 <= a < pool.push(name@).len() && 0 <= b < pool.push(name@).len() && a
                != b implies #[trigger] pool.push(name@)[a] != #[trigger] pool.push(name@)[b] by {
            if a < pool.len() && b < pool.len() {
            } else if a < pool.len() {
                assert(pool.contains(pool[a]));
            } else {
                assert(pool.contains(pool[b]));
            }
        }
    }
    k
}

/// Putting a name into a pool keeps the names that are there in their places.
proof fn lemma_interned_extends(pool: Seq<Seq<char>>, x: Seq<char>)
    ensures
        interned(pool, x).len() >= pool.len(),
        interned(pool, x).take(pool.len() as int) == pool,
{
    assert(interned(pool, x).take(pool.len() as int) =~= pool);
}

/// Putting names into a pool keeps the names that are there in their places.
proof fn lemma_pool_with_extends(pool: Seq<Seq<char>>, names: Seq<Seq<char>>, k: int)
    ensures
        pool_with(pool, names, k).len() >= pool.len(),
        pool_with(pool, names, k).take(pool.len() as int) == pool,
    decreases k,
{
    if k > 0 {
        lemma_pool_with_extends(pool, names, k - 1);
        let before = pool_with(pool, names, k - 1);
        lemma_interned_extends(before, names[k - 1]);
        assert(pool_with(pool, names, k).take(pool.len() as int) =~= before.take(
            pool.len() as int,
        ));
    } else {
        assert(pool.take(pool.len() as int) =~= pool);
    }
}

/// The numbers of the names of a path, every new name added to the pool.
fn intern_path(owner: &mut Vec<DirName>, names: &Vec<String>) -> (path: Vec<usize>)
    requires
        pool_names(old(owner)@).no_duplicates(),
    ensures
        pool_names(final(owner)@).no_duplicates(),
        pool_names(final(owner)@) == pool_with(
            pool_names(old(owner)@),
            views_of(names@),
            names@.len() as int,
        ),
        path@.len() == names@.len(),
        forall|j: int| 0 <= j < path@.len() ==> (#[trigger] path@[j]) < final(owner)@.len(),
        path_names(pool_names(final(owner)@), path@) == views_of(names@),
{
    let ghost start = pool_names(owner@);
    let ghost wanted = views_of(names@);
    let mut path: Vec<usize> = Vec::new();
    let mut k: usize = 0;
    while k < names.len()
        invariant
            k <= names@.len(),
            wanted == views_of(names@),
            pool_names(owner@).no_duplicates(),
            pool_names(owner@) == pool_with(start, wanted, k as int),
            path@.len() == k,
            forall|j: int| 0 <= j < k ==> (#[trigger] path@[j]) < owner@.len(),
            forall|j: int|
                0 <= j < k ==> pool_names(owner@)[(#[trigger] path@[j]) as int] == wanted[j],
        decreases names@.len() - k,
    {
        let ghost before = pool_names(owner@);
        let id = intern(owner, &names[k]);
        proof {
            lemma_interned_extends(before, wanted[k as int]);
            assert forall|j: int| 0 <= j < k implies pool_names(owner@)[(#[trigger] path@[j]) as int]
                == wanted[j] by {
                assert(pool_names(owner@).take(before.len() as int)[path@[j] as int] == before[path@[j] as int]);
            }
        }
        path.push(id);
        k = k + 1;
    }
    assert(path_names(pool_names(owner@), path@) =~= wanted);
    path
}

/// The directory with the path `path`; it and the directories above it are
/// made where the tree does not have them yet.
fn descend_or_create(tree: &mut Tree, path: &Vec<usize>) -> (dir: usize)
    requires
        old(tree).wf(),
        lists_increasing(old(tree)),
    ensures
        final(tree).wf(),
        lists_increasing(final(tree)),
        dir_paths(final(tree)) == grown(dir_paths(old(tree)), path@, path@.len() as int),
        dir < final(tree).dirs@.len(),
        final(tree).dirs@[dir as int].path@ == path@,
        final(tree).dirs@.len() >= old(tree).dirs@.len(),
        forall|d: int|
            0 <= d < old(tree).dirs@.len() ==> (#[trigger] final(tree).dirs@[d]).path@
                == old(tree).dirs@[d].path@ && final(tree).dirs@[d].targets@
                == old(tree).dirs@[d].targets@,
        forall|d: int|
            old(tree).dirs@.len() <= d < final(tree).dirs@.len() ==> (#[trigger] final(tree).dirs@[d]).targets@.len()
                == 0,
{
    let ghost given = *tree;
    let mut cur: usize = 0;
    let mut j: usize = 0;
    assert(path@.take(0) =~= Seq::<usize>::empty());
    assert(tree.dirs@[0].path@ =~= path@.take(0));
    while j < path.len()
        invariant
            j <= path@.len(),
            tree.wf(),
            lists_increasing(tree),
            dir_paths(tree) == grown(dir_paths(&given), path@, j as int),
            cur < tree.dirs@.len(),
            tree.dirs@[cur as int].path@ == path@.take(j as int),
            tree.dirs@.len() >= given.dirs@.len(),
            forall|d: int|
                0 <= d < given.dirs@.len() ==> (#[trigger] tree.dirs@[d]).path@
                    == given.dirs@[d].path@ && tree.dirs@[d].targets@ == given.dirs@[d].targets@,
            forall|d: int|
                given.dirs@.len() <= d < tree.dirs@.len() ==> (#[trigger] tree.dirs@[d]).targets@.len()
                    == 0,
        decreases path@.len() - j,
    {
        let seg = path[j];
        let ghost next = path@.take(j + 1);
        assert(next =~= path@.take(j as int).push(seg));
        let mut found: Option<usize> = None;
        let mut k: usize = 0;
        while k < tree.dirs[cur].subdirs.len() && found.is_none()
            invariant
                k <= tree.dirs@[cur as int].subdirs@.len(),
                tree.wf(),
                cur < tree.dirs@.len(),
                j < path@.len(),
                seg == path@[j as int],
                next == path@.take(j as int).push(seg),
                tree.dirs@[cur as int].path@ == path@.take(j as int),
                found matches Some(c) ==> c < tree.dirs@.len() && tree.dirs@[c as int].path@ == next,
                found is None ==> forall|i: int|
                    0 <= i < k ==> tree.dirs@[(#[trigger] tree.dirs@[cur as int].subdirs@[i]) as int].path@.last()
                        != seg,
            decreases tree.dirs@[cur as int].subdirs@.len() - k,
        {
            let c = tree.dirs[cur].subdirs[k];
            assert(tree.is_child(cur as int, tree.dirs@[cur as int].subdirs@[k as int] as int));
            let last = tree.dirs[c].path.len() - 1;
            if tree.dirs[c].path[last] == seg {
                found = Some(c);
                assert(tree.dirs@[c as int].path@ =~= tree.dirs@[c as int].path@.drop_last().push(
                    seg,
                ));
            }
            k = k + 1;
        }
        match found {
            Some(c) => {
                assert(dir_paths(tree)[c as int] == next);
                cur = c;
            },
            None => {
                let fresh = tree.dirs.len();
                let ghost before = *tree;
                let fresh_path = copy_range(path, 0, j + 1);
                tree.dirs.push(
                    Directory { path: fresh_path, subdirs: Vec::new(), targets: Vec::new() },
                );
                tree.dirs[cur].subdirs.push(fresh);
                proof {
                    assert(path@.subrange(0, j + 1) == next);
                    assert(tree.dirs@.len() == before.dirs@.len() + 1);
                    assert(tree.dirs@[fresh as int].path@ == next);
                    assert forall|d: int| 0 <= d < before.dirs@.len() implies (#[trigger] tree.dirs@[d]).path@
                        == before.dirs@[d].path@ && tree.dirs@[d].targets@
                        == before.dirs@[d].targets@ && (d != cur ==> tree.dirs@[d].subdirs@
                        == before.dirs@[d].subdirs@) by {}
                    assert(tree.dirs@[cur as int].subdirs@ == before.dirs@[cur as int].subdirs@.push(
                        fresh,
                    ));
                    // No directory had the new path.
                    assert forall|a: int| 0 <= a < before.dirs@.len() implies (#[trigger] before.dirs@[a]).path@
                        != next by {
                        if before.dirs@[a].path@ == next {
                            assert(a != 0);
                            assert(before.has_parent(a));
                            let i = choose|i: int|
                                0 <= i < before.dirs@.len() && (#[trigger] before.dirs@[i]).subdirs@.contains(
                                    a as usize,
                                );
                            let at = choose|at: int|
                                0 <= at < before.dirs@[i].subdirs@.len()
                                    && before.dirs@[i].subdirs@[at] == a as usize;
                            assert(before.is_child(i, before.dirs@[i].subdirs@[at] as int));
                            assert(next.drop_last() =~= path@.take(j as int));
                            assert(before.dirs@[i].path@ == before.dirs@[cur as int].path@);
                            assert(i == cur);
                            assert(before.dirs@[before.dirs@[cur as int].subdirs@[at] as int].path@.last()
                                != seg);
                        }
                    }
                    assert(!dir_paths(&before).contains(next)) by {
                        if dir_paths(&before).contains(next) {
                            let a = choose|a: int|
                                0 <= a < dir_paths(&before).len() && dir_paths(&before)[a] == next;
                            assert(before.dirs@[a].path@ == next);
                        }
                    }
                    assert(dir_paths(tree) =~= dir_paths(&before).push(next));
                    assert forall|d: int| 0 <= d < tree.dirs@.len() implies is_increasing(
                        (#[trigger] tree.dirs@[d]).subdirs@,
                    ) && is_increasing(tree.dirs@[d].targets@) by {
                        if d < before.dirs@.len() {
                            assert(is_increasing(before.dirs@[d].subdirs@));
                            assert(is_increasing(before.dirs@[d].targets@));
                            if d == cur {
                                let list = before.dirs@[cur as int].subdirs@;
                                assert forall|a: int, b: int|
                                    0 <= a < b < list.push(fresh).len() implies list.push(fresh)[a]
                                    < list.push(fresh)[b] by {
                                    assert(before.is_child(cur as int, list[a] as int));
                                }
                            }
                        }
                    }
                    assert forall|a: int, b: int|
                        0 <= a < b < tree.dirs@.len() implies (#[trigger] tree.dirs@[a]).path@
                        != (#[trigger] tree.dirs@[b]).path@ by {
                        if b < before.dirs@.len() {
                            assert(before.dirs@[a].path@ != before.dirs@[b].path@);
                        } else {
                            assert(before.dirs@[a].path@ != next);
                        }
                    }
                    assert forall|i: int, k: int|
                        0 <= i < tree.dirs@.len() && 0 <= k
                            < tree.dirs@[i].subdirs@.len() implies tree.is_child(
                        i,
                        #[trigger] tree.dirs@[i].subdirs@[k] as int,
                    ) by {
                        if i == cur && k == before.dirs@[cur as int].subdirs@.len() {
                            assert(next.drop_last() =~= path@.take(j as int));
                        } else if i < before.dirs@.len() {
                            assert(before.is_child(i, before.dirs@[i].subdirs@[k] as int));
                        }
                    }
                    assert forall|c: int| 0 < c < tree.dirs@.len() implies #[trigger] tree.has_parent(
                        c,
                    ) by {
                        if c < before.dirs@.len() {
                            assert(before.has_parent(c));
                            let i = choose|i: int|
                                0 <= i < before.dirs@.len() && (#[trigger] before.dirs@[i]).subdirs@.contains(
                                    c as usize,
                                );
                            if i == cur {
                                lemma_push_contains(
                                    before.dirs@[cur as int].subdirs@,
                                    fresh,
                                    c as usize,
                                );
                            }
                            assert(tree.dirs@[i].subdirs@.contains(c as usize));
                        } else {
                            lemma_push_contains(before.dirs@[cur as int].subdirs@, fresh, fresh);
                            assert(tree.dirs@[cur as int].subdirs@.contains(c as usize));
                        }
                    }
                }
                cur = fresh;
            },
        }
        j = j + 1;
    }
    assert(path@.take(path@.len() as int) =~= path@);
    cur
}

/// The directories that the first `i` targets need depend on their paths alone.
proof fn lemma_tree_paths_ignore_later(a: Seq<Seq<usize>>, b: Seq<Seq<usize>>, i: int)
    requires
        0 <= i <= a.len(),
        i <= b.len(),
        forall|t: int| 0 <= t < i ==> a[t] == b[t],
    ensures
        tree_paths(a, i) == tree_paths(b, i),
    decreases i,
{
    if i > 0 {
        lemma_tree_paths_ignore_later(a, b, i - 1);
    }
}

/// Whether the two structures agree does not depend on the edges of the graph.
proof fn lemma_consistent_whatever_edges(a: &DepGraph, b: &DepGraph, tree: &Tree)
    requires
        a.nodes == b.nodes,
        consistent(a, tree),
    ensures
        consistent(b, tree),
{
    assert forall|t: int| 0 <= t < b.nodes@.len() implies #[trigger] is_located(b, tree, t) by {
        assert(is_located(a, tree, t));
    }
    assert forall|d: int, k: int|
        0 <= d < tree.dirs@.len() && 0 <= k < tree.dirs@[d].targets@.len() implies is_at_home(
        b,
        tree,
        d,
        #[trigger] tree.dirs@[d].targets@[k],
    ) by {
        assert(is_at_home(a, tree, d, tree.dirs@[d].targets@[k]));
    }
}

/// The number of the target that provides `name`.
fn find_provider(dat: &Vec<ImportedTarget>, name: &String) -> (r: Option<usize>)
    ensures
        match r {
            Some(k) => position(provided(dat@), name@) == Some(k as int) && k < dat@.len(),
            None => position(provided(dat@), name@) is None,
        },
{
    let ghost names = provided(dat@);
    let mut k: usize = 0;
    while k < dat.len()
        invariant
            k <= dat@.len(),
            names == provided(dat@),
            forall|j: int| 0 <= j < k ==> #[trigger] names[j] != name@,
        decreases dat@.len() - k,
    {
        if dat[k].provides == *name {
            proof {
                assert(names[k as int] == name@);
                lemma_position_is(names, name@, k as int);
            }
            return Some(k);
        }
        k = k + 1;
    }
    proof {
        lemma_position_of_absent(names, name@);
    }
    None
}

/// Whether no two targets provide the same name.
pub fn provides_are_distinct(dat: &Vec<ImportedTarget>) -> (r: bool)
    ensures
        r == provided(dat@).no_duplicates(),
{
    let ghost names = provided(dat@);
    let mut b: usize = 0;
    while b < dat.len()
        invariant
            b <= dat@.len(),
            names == provided(dat@),
            forall|i: int, j: int| 0 <= i < j < b ==> names[i] != names[j],
        decreases dat@.len() - b,
    {
        let mut a: usize = 0;
        while a < b
            invariant
                a <= b < dat@.len(),
                names == provided(dat@),
                forall|i: int| 0 <= i < a ==> names[i] != names[b as int],
            decreases b - a,
        {
            if dat[a].provides == dat[b].provides {
                assert(names[a as int] == names[b as int]);
                return false;
            }
            a = a + 1;
        }
        b = b + 1;
    }
    true
}

/// Whether `deps` and `tree` are the dependency graph and the tree of
/// directories of the targets `dat`, with the names of the directories numbered
/// as in `pool`.
pub open spec fn is_parse_of(
    dat: Seq<ImportedTarget>,
    pool: Seq<Seq<char>>,
    deps: &DepGraph,
    tree: &Tree,
) -> bool {
    &&& deps.wf()
    &&& tree.wf()
    &&& consistent(deps, tree)
    &&& target_names(deps) == provided(dat)
    &&& deps.edges@ == parsed_edges(dat, dat.len() as int)
    &&& dir_paths(tree) == tree_paths(target_paths(deps), dat.len() as int)
    &&& lists_increasing(tree)
    &&& forall|t: int, j: int|
        0 <= t < dat.len() && 0 <= j < deps.nodes@[t].path@.len() ==> (#[trigger] deps.nodes@[t].path@[j])
            < pool.len()
    &&& forall|t: int|
        0 <= t < dat.len() ==> path_names(pool, (#[trigger] deps.nodes@[t]).path@) == views_of(
            dat[t].ideal_path@,
        )
}

/// Makes the dependency graph and the tree of directories from the list of
/// targets. A dependency that no target provides and a cycle of dependencies
/// are refused, the first before the second. The names of the directories go
/// to the pool `owner`; the paths of the targets and of the directories hold
/// their numbers in the pool.
pub fn inner_parse(owner: &mut Vec<DirName>, dat: Vec<ImportedTarget>) -> (r: Result<
    (DepGraph, Tree),
    ParseError,
>)
    requires
        provided(dat@).no_duplicates(),
        pool_names(old(owner)@).no_duplicates(),
    ensures
        pool_names(final(owner)@).no_duplicates(),
        pool_names(final(owner)@) == pooled(pool_names(old(owner)@), dat@, dat@.len() as int),
        match r {
            Ok((deps, tree)) => {
                &&& all_known(dat@)
                &&& acyclic(deps.edges@.to_set())
                &&& is_parse_of(dat@, pool_names(final(owner)@), &deps, &tree)
            },
            Err(ParseError::DependencyDoesNotExist(from, to)) => exists|i: int, j: int|
                #[trigger] is_first_unknown(dat@, i, j) && from@ == dat@[i].provides@ && to@
                    == dat@[i].ddeps@[j]@,
            Err(ParseError::DepgraphCycle) => all_known(dat@) && !acyclic(
                parsed_edges(dat@, dat@.len() as int).to_set(),
            ),
            Err(ParseError::InvalidJson) => false,
        },
{
    let ghost pool0 = pool_names(owner@);
    let mut deps: DepGraph = BetterGraph::new();
    let mut tree = Tree::new();
    let n = dat.len();
    let mut i: usize = 0;
    assert(tree.dirs@[0].path@ =~= Seq::<usize>::empty());
    assert(dir_paths(&tree) =~= seq![Seq::<usize>::empty()]);
    while i < n
        invariant
            i <= n,
            n == dat@.len(),
            pool0 == pool_names(old(owner)@),
            deps.nodes@.len() == i,
            deps.edges@.len() == 0,
            tree.wf(),
            lists_increasing(&tree),
            dir_paths(&tree) == tree_paths(target_paths(&deps), i as int),
            consistent(&deps, &tree),
            pool_names(owner@).no_duplicates(),
            pool_names(owner@) == pooled(pool0, dat@, i as int),
            forall|t: int|
                0 <= t < i ==> (#[trigger] deps.nodes@[t]).provides.0@ == dat@[t].provides@,
            forall|t: int, j: int|
                0 <= t < i && 0 <= j < deps.nodes@[t].path@.len() ==> (#[trigger] deps.nodes@[t].path@[j])
                    < owner@.len(),
            forall|t: int|
                0 <= t < i ==> path_names(pool_names(owner@), (#[trigger] deps.nodes@[t]).path@)
                    == views_of(dat@[t].ideal_path@),
        decreases n - i,
    {
        let ghost pool_before = pool_names(owner@);
        let ghost deps_before = deps;
        let ghost tree_before = tree;
        let path = intern_path(owner, &dat[i].ideal_path);
        proof {
            lemma_pool_with_extends(
                pool_before,
                views_of(dat@[i as int].ideal_path@),
                dat@[i as int].ideal_path@.len() as int,
            );
            assert forall|t: int| 0 <= t < i implies path_names(
                pool_names(owner@),
                (#[trigger] deps.nodes@[t]).path@,
            ) == views_of(dat@[t].ideal_path@) by {
                let p = deps.nodes@[t].path@;
                assert forall|j: int| 0 <= j < p.len() implies pool_names(owner@)[p[j] as int]
                    == pool_before[p[j] as int] by {
                    assert(deps.nodes@[t].path@[j] < pool_before.len());
                    assert(pool_names(owner@).take(pool_before.len() as int)[p[j] as int]
                        == pool_names(owner@)[p[j] as int]);
                }
                assert(path_names(pool_names(owner@), p) =~= path_names(pool_before, p));
            }
        }
        let dir = descend_or_create(&mut tree, &path);
        let ghost tree_middle = tree;
        tree.dirs[dir].targets.push(i);
        let node = Node { provides: TargetName(dat[i].provides.clone()), path };
        deps.nodes.push(node);
        proof {
            let list = tree_middle.dirs@[dir as int].targets@;
            // Every target listed so far has a number below `i`.
            assert forall|d: int, k: int|
                0 <= d < tree_middle.dirs@.len() && 0 <= k
                    < tree_middle.dirs@[d].targets@.len() implies (#[trigger] tree_middle.dirs@[d].targets@[k])
                < i && deps_before.nodes@[tree_middle.dirs@[d].targets@[k] as int].path@
                == tree_middle.dirs@[d].path@ by {
                if d < tree_before.dirs@.len() {
                    assert(tree_middle.dirs@[d].targets@ == tree_before.dirs@[d].targets@);
                    assert(is_at_home(
                        &deps_before,
                        &tree_before,
                        d,
                        tree_before.dirs@[d].targets@[k],
                    ));
                }
            }
            assert(!list.contains(i)) by {
                if list.contains(i) {
                    let k = choose|k: int| 0 <= k < list.len() && list[k] == i;
                    assert(tree_middle.dirs@[dir as int].targets@[k] < i);
                }
            }
            lemma_push_no_duplicates(list, i);
            assert forall|t: int| 0 <= t < deps.nodes@.len() implies #[trigger] is_located(
                &deps,
                &tree,
                t,
            ) by {
                if t == i {
                    lemma_push_contains(list, i, i);
                    assert(tree.dirs@[dir as int].path@ == deps.nodes@[t].path@);
                    assert(tree.dirs@[dir as int].targets@.contains(t as usize));
                } else {
                    assert(is_located(&deps_before, &tree_before, t));
                    let d = choose|d: int|
                        0 <= d < tree_before.dirs@.len() && (#[trigger] tree_before.dirs@[d]).path@
                            == deps_before.nodes@[t].path@ && tree_before.dirs@[d].targets@.contains(
                            t as usize,
                        );
                    assert(tree_middle.dirs@[d].targets@ == tree_before.dirs@[d].targets@);
                    if d == dir {
                        lemma_push_contains(list, i, t as usize);
                    }
                    assert(tree.dirs@[d].path@ == deps.nodes@[t].path@);
                    assert(tree.dirs@[d].targets@.contains(t as usize));
                }
            }
            assert forall|d: int, k: int|
                0 <= d < tree.dirs@.len() && 0 <= k < tree.dirs@[d].targets@.len() implies is_at_home(
                &deps,
                &tree,
                d,
                #[trigger] tree.dirs@[d].targets@[k],
            ) by {
                if d == dir && k == list.len() {
                } else {
                    assert(tree.dirs@[d].targets@[k] == tree_middle.dirs@[d].targets@[k]);
                }
            }
            assert forall|d: int| 0 <= d < tree.dirs@.len() implies (#[trigger] tree.dirs@[d]).targets@.no_duplicates() by {
                if d != dir {
                    if d < tree_before.dirs@.len() {
                        assert(tree_before.dirs@[d].targets@.no_duplicates());
                        assert(tree_middle.dirs@[d].targets@ == tree_before.dirs@[d].targets@);
                    } else {
                        assert(tree_middle.dirs@[d].targets@.len() == 0);
                    }
                }
            }
            assert forall|d: int| 0 <= d < tree.dirs@.len() implies is_increasing(
                (#[trigger] tree.dirs@[d]).subdirs@,
            ) && is_increasing(tree.dirs@[d].targets@) by {
                assert(is_increasing(tree_middle.dirs@[d].subdirs@));
                assert(is_increasing(tree_middle.dirs@[d].targets@));
                if d == dir {
                    assert forall|a: int, b: int| 0 <= a < b < list.push(i).len() implies list.push(
                        i,
                    )[a] < list.push(i)[b] by {
                        assert(tree_middle.dirs@[dir as int].targets@[a] < i);
                    }
                }
            }
            assert(dir_paths(&tree) =~= dir_paths(&tree_middle));
            lemma_tree_paths_ignore_later(
                target_paths(&deps_before),
                target_paths(&deps),
                i as int,
            );
            assert(target_paths(&deps)[i as int] == deps.nodes@[i as int].path@);
            // The tree keeps its shape when a target is listed.
            assert forall|a: int| 0 <= a < tree.dirs@.len() implies (#[trigger] tree.dirs@[a]).path@
                == tree_middle.dirs@[a].path@ && tree.dirs@[a].subdirs@
                == tree_middle.dirs@[a].subdirs@ by {}
            assert forall|a: int, k: int|
                0 <= a < tree.dirs@.len() && 0 <= k < tree.dirs@[a].subdirs@.len() implies tree.is_child(
                a,
                #[trigger] tree.dirs@[a].subdirs@[k] as int,
            ) by {
                assert(tree_middle.is_child(a, tree_middle.dirs@[a].subdirs@[k] as int));
            }
            assert forall|c: int| 0 < c < tree.dirs@.len() implies #[trigger] tree.has_parent(c) by {
                assert(tree_middle.has_parent(c));
                let a = choose|a: int|
                    0 <= a < tree_middle.dirs@.len() && (#[trigger] tree_middle.dirs@[a]).subdirs@.contains(
                        c as usize,
                    );
                assert(tree.dirs@[a].subdirs@.contains(c as usize));
            }
        }
        i = i + 1;
    }
    assert(target_names(&deps) =~= provided(dat@));
    let ghost names = provided(dat@);
    let mut i: usize = 0;
    while i < n
        invariant
            i <= n,
            n == dat@.len(),
            pool0 == pool_names(old(owner)@),
            deps.nodes@.len() == n,
            names == provided(dat@),
            deps.wf(),
            deps.edges@ == parsed_edges(dat@, i as int),
            tree.wf(),
            lists_increasing(&tree),
            dir_paths(&tree) == tree_paths(target_paths(&deps), n as int),
            consistent(&deps, &tree),
            target_names(&deps) == provided(dat@),
            pool_names(owner@).no_duplicates(),
            pool_names(owner@) == pooled(pool0, dat@, n as int),
            forall|t: int, j: int|
                0 <= t < n && 0 <= j < deps.nodes@[t].path@.len() ==> (#[trigger] deps.nodes@[t].path@[j])
                    < owner@.len(),
            forall|t: int|
                0 <= t < n ==> path_names(pool_names(owner@), (#[trigger] deps.nodes@[t]).path@)
                    == views_of(dat@[t].ideal_path@),
            forall|a: int, b: int|
                0 <= a < i && 0 <= b < dat@[a].ddeps@.len() ==> #[trigger] is_known(dat@, a, b),
        decreases n - i,
    {
        let ghost wanted = views_of(dat@[i as int].ddeps@);
        let ghost edges_then = deps.edges@;
        let ghost nodes_then = deps.nodes;
        let mut j: usize = 0;
        while j < dat[i].ddeps.len()
            invariant
                j <= dat@[i as int].ddeps@.len(),
                i < n,
                n == dat@.len(),
                pool0 == pool_names(old(owner)@),
                pool_names(owner@).no_duplicates(),
                pool_names(owner@) == pooled(pool0, dat@, n as int),
                tree.wf(),
                lists_increasing(&tree),
                dir_paths(&tree) == tree_paths(target_paths(&deps), n as int),
                consistent(&deps, &tree),
                target_names(&deps) == provided(dat@),
                forall|t: int, j: int|
                    0 <= t < n && 0 <= j < deps.nodes@[t].path@.len() ==> (#[trigger] deps.nodes@[t].path@[j])
                        < owner@.len(),
                forall|t: int|
                    0 <= t < n ==> path_names(pool_names(owner@), (#[trigger] deps.nodes@[t]).path@)
                        == views_of(dat@[t].ideal_path@),
                deps.nodes == nodes_then,
                deps.nodes@.len() == n,
                names == provided(dat@),
                wanted == views_of(dat@[i as int].ddeps@),
                deps.wf(),
                deps.edges@ == edges_with(names, wanted, i, edges_then, j as int),
                forall|a: int, b: int|
                    0 <= a < i && 0 <= b < dat@[a].ddeps@.len() ==> #[trigger] is_known(dat@, a, b),
                forall|b: int| 0 <= b < j ==> #[trigger] is_known(dat@, i as int, b),
            decreases dat@[i as int].ddeps@.len() - j,
        {
            assert(wanted[j as int] == dat@[i as int].ddeps@[j as int]@);
            match find_provider(&dat, &dat[i].ddeps[j]) {
                None => {
                    assert(is_first_unknown(dat@, i as int, j as int));
                    return Err(
                        ParseError::DependencyDoesNotExist(
                            dat[i].provides.clone(),
                            dat[i].ddeps[j].clone(),
                        ),
                    );
                },
                Some(t) => {
                    let ghost before = deps;
                    if !has_edge(&deps.edges, i, t) {
                        deps.edges.push((i, t));
                    }
                    proof {
                        lemma_consistent_whatever_edges(&before, &deps, &tree);
                        assert(target_names(&deps) =~= target_names(&before));
                        assert(target_paths(&deps) =~= target_paths(&before));
                    }
                },
            }
            j = j + 1;
        }
        i = i + 1;
    }
    assert(all_known(dat@));
    if !toposort_exists(n, &deps.edges) {
        return Err(ParseError::DepgraphCycle);
    }
    Ok((deps, tree))
}

// ---------------------------------------------------------------------------
// Random input.
// ---------------------------------------------------------------------------
/// The character of the digit `d`.
pub open spec fn digit(d: nat) -> char {
    if d == 0 {
        '0'
    } else if d == 1 {
        '1'
    } else if d == 2 {
        '2'
    } else if d == 3 {
        '3'
    } else if d == 4 {
        '4'
    } else if d == 5 {
        '5'
    } else if d == 6 {
        '6'
    } else if d == 7 {
        '7'
    } else if d == 8 {
        '8'
    } else {
        '9'
    }
}

/// The number `n` written in decimal digits, without leading zeros.
pub open spec fn decimal_text(n: nat) -> Seq<char>
    decreases n,
{
    if n < 10 {
        seq![digit(n)]
    } else {
        decimal_text(n / 10).push(digit(n % 10))
    }
}

/// Formats a number with `format!`. The claim: the result holds the decimal
/// digits of the number and nothing else.
#[verifier::external_body]
fn decimal(n: usize) -> (r: String)
    ensures
        r@ == decimal_text(n as nat),
{
    format!("{}", n)
}

/// What a target holds: the name that it provides, the names that it depends
/// on, and the names of the segments of its path.
pub open spec fn target_view(x: ImportedTarget) -> (Seq<char>, Seq<Seq<char>>, Seq<Seq<char>>) {
    (x.provides@, views_of(x.ddeps@), views_of(x.ideal_path@))
}

/// What the targets of a list hold.
pub open spec fn targets_view(dat: Seq<ImportedTarget>) -> Seq<
    (Seq<char>, Seq<Seq<char>>, Seq<Seq<char>>),
> {
    Seq::new(dat.len(), |i: int| target_view(dat[i]))
}

/// The numbers of a list, each written in decimal digits.
pub open spec fn decimal_texts(numbers: Seq<u8>) -> Seq<Seq<char>> {
    Seq::new(numbers.len(), |j: int| decimal_text(numbers[j] as nat))
}

/// The numbers of a list, each written in decimal digits.
fn decimals(numbers: &Vec<u8>) -> (r: Vec<String>)
    ensures
        views_of(r@) == decimal_texts(numbers@),
{
    let mut r: Vec<String> = Vec::new();
    let mut j: usize = 0;
    while j < numbers.len()
        invariant
            j <= numbers@.len(),
            r@.len() == j,
            forall|t: int| 0 <= t < j ==> (#[trigger] r@[t])@ == decimal_text(numbers@[t] as nat),
        decreases numbers@.len() - j,
    {
        r.push(decimal(numbers[j] as usize));
        j = j + 1;
    }
    assert(views_of(r@) =~= decimal_texts(numbers@));
    r
}

/// The targets that random input describes. Target `i` provides the name that
/// is the number `i`; its dependencies and the segments of its path are named
/// by their numbers too.
pub fn from_fuzz_input(input: &Vec<FuzzInput>) -> (data: ImportedData)
    ensures
        data@.len() == input@.len(),
        forall|i: int|
            0 <= i < data@.len() ==> target_view(#[trigger] data@[i]) == (
                decimal_text(i as nat),
                decimal_texts(input@[i].ddeps@),
                decimal_texts(input@[i].ideal_path@),
            ),
{
    let mut data: Vec<ImportedTarget> = Vec::new();
    let mut i: usize = 0;
    while i < input.len()
        invariant
            i <= input@.len(),
            data@.len() == i,
            forall|t: int|
                0 <= t < i ==> target_view(#[trigger] data@[t]) == (
                    decimal_text(t as nat),
                    decimal_texts(input@[t].ddeps@),
                    decimal_texts(input@[t].ideal_path@),
                ),
        decreases input@.len() - i,
    {
        data.push(
            ImportedTarget {
                provides: decimal(i),
                ddeps: decimals(&input[i].ddeps),
                ideal_path: decimals(&input[i].ideal_path),
            },
        );
        i = i + 1;
    }
    data
}

/// Whether some target names `name` as a dependency.
pub open spec fn is_used(dat: Seq<ImportedTarget>, name: Seq<char>) -> bool {
    exists|i: int, j: int|
        0 <= i < dat.len() && 0 <= j < dat[i].ddeps@.len() && (#[trigger] dat[i].ddeps@[j])@
            == name
}

/// The first `k` names without those that repeat the name just before them.
pub open spec fn deduped(names: Seq<Seq<char>>, k: int) -> Seq<Seq<char>>
    decreases k,
{
    if k <= 0 {
        Seq::empty()
    } else if k >= 2 && names[k - 1] == names[k - 2] {
        deduped(names, k - 1)
    } else {
        deduped(names, k - 1).push(names[k - 1])
    }
}

/// What is left of the first `k` targets: those that depend on something or
/// that something depends on, each without repeated dependencies.
pub open spec fn simplified(dat: Seq<ImportedTarget>, k: int) -> Seq<
    (Seq<char>, Seq<Seq<char>>, Seq<Seq<char>>),
>
    decreases k,
{
    if k <= 0 {
        Seq::empty()
    } else {
        let x = dat[k - 1];
        if x.ddeps@.len() != 0 || is_used(dat, x.provides@) {
            let wanted = views_of(x.ddeps@);
            simplified(dat, k - 1).push(
                (x.provides@, deduped(wanted, wanted.len() as int), views_of(x.ideal_path@)),
            )
        } else {
            simplified(dat, k - 1)
        }
    }
}

/// Whether some target names `name` as a dependency.
fn is_dependency(data: &Vec<ImportedTarget>, name: &String) -> (r: bool)
    ensures
        r == is_used(data@, name@),
{
    let mut i: usize = 0;
    while i < data.len()
        invariant
            i <= data@.len(),
            forall|a: int, b: int|
                0 <= a < i && 0 <= b < data@[a].ddeps@.len() ==> (#[trigger] data@[a].ddeps@[b])@
                    != name@,
        decreases data@.len() - i,
    {
        let mut j: usize = 0;
        while j < data[i].ddeps.len()
            invariant
                j <= data@[i as int].ddeps@.len(),
                i < data@.len(),
                forall|a: int, b: int|
                    0 <= a < i && 0 <= b < data@[a].ddeps@.len() ==> (#[trigger] data@[a].ddeps@[b])@
                        != name@,
                forall|b: int| 0 <= b < j ==> (#[trigger] data@[i as int].ddeps@[b])@ != name@,
            decreases data@[i as int].ddeps@.len() - j,
        {
            if data[i].ddeps[j] == *name {
                assert(data@[i as int].ddeps@[j as int]@ == name@);
                return true;
            }
            j = j + 1;
        }
        i = i + 1;
    }
    false
}

/// A copy of the names.
fn copy_names(names: &Vec<String>) -> (r: Vec<String>)
    ensures
        views_of(r@) == views_of(names@),
{
    let mut r: Vec<String> = Vec::new();
    let mut j: usize = 0;
    while j < names.len()
        invariant
            j <= names@.len(),
            r@.len() == j,
            forall|t: int| 0 <= t < j ==> (#[trigger] r@[t])@ == names@[t]@,
        decreases names@.len() - j,
    {
        r.push(names[j].clone());
        j = j + 1;
    }
    assert(views_of(r@) =~= views_of(names@));
    r
}

/// The names without those that repeat the name just before them.
fn dedup_names(names: &Vec<String>) -> (r: Vec<String>)
    ensures
        views_of(r@) == deduped(views_of(names@), names@.len() as int),
{
    let ghost wanted = views_of(names@);
    let mut r: Vec<String> = Vec::new();
    let mut j: usize = 0;
    assert(views_of(r@) =~= deduped(wanted, 0));
    while j < names.len()
        invariant
            j <= names@.len(),
            wanted == views_of(names@),
            views_of(r@) == deduped(wanted, j as int),
        decreases names@.len() - j,
    {
        let ghost before = views_of(r@);
        let repeats = j >= 1 && names[j] == names[j - 1];
        if !repeats {
            r.push(names[j].clone());
            assert(views_of(r@) =~= before.push(wanted[j as int]));
        }
        j = j + 1;
    }
    r
}

/// Drops the targets that neither depend on anything nor are depended on, and
/// from each list of dependencies the entries that repeat the one before.
pub fn simplify(data: ImportedData) -> (r: ImportedData)
    ensures
        targets_view(r@) == simplified(data@, data@.len() as int),
{
    let mut r: Vec<ImportedTarget> = Vec::new();
    let mut k: usize = 0;
    assert(targets_view(r@) =~= simplified(data@, 0));
    while k < data.len()
        invariant
            k <= data@.len(),
            targets_view(r@) == simplified(data@, k as int),
        decreases data@.len() - k,
    {
        let ghost before = targets_view(r@);
        if data[k].ddeps.len() != 0 || is_dependency(&data, &data[k].provides) {
            let x = ImportedTarget {
                provides: data[k].provides.clone(),
                ddeps: dedup_names(&data[k].ddeps),
                ideal_path: copy_names(&data[k].ideal_path),
            };
            r.push(x);
            assert(targets_view(r@) =~= before.push(target_view(x)));
        }
        k = k + 1;
    }
    r
}

} // verus!
