//! Carrying out hoists: each moves one target to a directory above it, in the
//! dependency graph and in the tree at once.

use crate::paths::copy_range;
use crate::simplifier::lemma_push_contains;
use crate::tree::consistent;
use crate::tree::hoists_of;
use crate::tree::is_at_home;
use crate::tree::is_located;
use crate::tree::target_names;
use crate::tree::target_paths;
use crate::tree::DepGraph;
use crate::tree::Hoist;
use crate::tree::Tree;
use vstd::prelude::*;

verus! {

/// The paths of the directories of a tree.
pub open spec fn dir_paths(tree: &Tree) -> Seq<Seq<usize>> {
    Seq::new(tree.dirs@.len(), |d: int| tree.dirs@[d].path@)
}

/// For each directory of a tree, the directories that it lists.
pub open spec fn dir_subdirs(tree: &Tree) -> Seq<Seq<usize>> {
    Seq::new(tree.dirs@.len(), |d: int| tree.dirs@[d].subdirs@)
}

/// For each directory of a tree, the targets that it lists.
pub open spec fn dir_targets(tree: &Tree) -> Seq<Seq<usize>> {
    Seq::new(tree.dirs@.len(), |d: int| tree.dirs@[d].targets@)
}

/// The first `k` entries of `s` without those that are `t`.
pub open spec fn without(s: Seq<usize>, t: usize, k: int) -> Seq<usize>
    decreases k,
{
    if k <= 0 {
        Seq::empty()
    } else if s[k - 1] != t {
        without(s, t, k - 1).push(s[k - 1])
    } else {
        without(s, t, k - 1)
    }
}

/// The number of the directory with the path `path` among the paths `dirs`.
pub open spec fn index_of_path(dirs: Seq<Seq<usize>>, path: Seq<usize>) -> int {
    choose|d: int| 0 <= d < dirs.len() && #[trigger] dirs[d] == path
}

/// The lists of targets after target `t` has left the directory with the path
/// `old_path` and has been added, at the end, to the one with the path
/// `new_path`.
pub open spec fn moved_lists(
    dirs: Seq<Seq<usize>>,
    lists: Seq<Seq<usize>>,
    old_path: Seq<usize>,
    new_path: Seq<usize>,
    t: usize,
) -> Seq<Seq<usize>> {
    let from = index_of_path(dirs, old_path);
    let to = index_of_path(dirs, new_path);
    let taken = lists.update(from, without(lists[from], t, lists[from].len() as int));
    taken.update(to, taken[to].push(t))
}

/// The paths of the targets and the lists of the directories after the first
/// `k` hoists have been carried out, one after the other.
pub open spec fn executed(
    dirs: Seq<Seq<usize>>,
    paths: Seq<Seq<usize>>,
    lists: Seq<Seq<usize>>,
    hoists: Seq<(usize, Seq<usize>)>,
    k: int,
) -> (Seq<Seq<usize>>, Seq<Seq<usize>>)
    decreases k,
{
    if k <= 0 {
        (paths, lists)
    } else {
        let (p, l) = executed(dirs, paths, lists, hoists, k - 1);
        let (t, to) = hoists[k - 1];
        (p.update(t as int, to), moved_lists(dirs, l, p[t as int], to, t))
    }
}

/// What is left of a list without `t` is what was there and is not `t`.
pub proof fn lemma_without_contains(s: Seq<usize>, t: usize, k: int, x: usize)
    requires
        0 <= k <= s.len(),
    ensures
        without(s, t, k).contains(x) <==> x != t && s.take(k).contains(x),
    decreases k,
{
    if k > 0 {
        lemma_without_contains(s, t, k - 1, x);
        assert(s.take(k) =~= s.take(k - 1).push(s[k - 1]));
        lemma_push_contains(s.take(k - 1), s[k - 1], x);
        if s[k - 1] != t {
            lemma_push_contains(without(s, t, k - 1), s[k - 1], x);
        }
    } else {
        assert(s.take(0) =~= Seq::<usize>::empty());
    }
}

/// A list in which nothing occurs twice stays so when something new is added.
pub proof fn lemma_push_no_duplicates(s: Seq<usize>, x: usize)
    requires
        s.no_duplicates(),
        !s.contains(x),
    ensures
        s.push(x).no_duplicates(),
{
    let longer = s.push(x);
    assert forall|i: int, j: int|
        0 <= i < longer.len() && 0 <= j < longer.len() && i != j implies #[trigger] longer[i]
        != #[trigger] longer[j] by {
        if i < s.len() && j < s.len() {
        } else if i < s.len() {
            assert(s.contains(s[i]));
        } else {
            assert(s.contains(s[j]));
        }
    }
}

/// A list in which nothing occurs twice stays so when entries leave.
pub proof fn lemma_without_no_duplicates(s: Seq<usize>, t: usize, k: int)
    requires
        0 <= k <= s.len(),
        s.no_duplicates(),
    ensures
        without(s, t, k).no_duplicates(),
    decreases k,
{
    if k > 0 {
        lemma_without_no_duplicates(s, t, k - 1);
        if s[k - 1] != t {
            let before = without(s, t, k - 1);
            lemma_without_contains(s, t, k - 1, s[k - 1]);
            if s.take(k - 1).contains(s[k - 1]) {
                let head = s.take(k - 1);
                let j = choose|j: int| 0 <= j < head.len() && #[trigger] head[j] == s[k - 1];
                assert(s[j] == s[k - 1]);
            }
            assert(!before.contains(s[k - 1]));
            lemma_push_no_duplicates(before, s[k - 1]);
        }
    }
}

/// The list without the target `t`.
fn remove_target(list: &Vec<usize>, t: usize) -> (r: Vec<usize>)
    ensures
        r@ == without(list@, t, list@.len() as int),
{
    let mut r: Vec<usize> = Vec::new();
    let mut k: usize = 0;
    while k < list.len()
        invariant
            k <= list@.len(),
            r@ == without(list@, t, k as int),
        decreases list@.len() - k,
    {
        if list[k] != t {
            r.push(list[k]);
        }
        k = k + 1;
    }
    r
}

/// Carries out one hoist: the target leaves the directory that it stands in
/// and is added to the one that the hoist names.
pub fn execute_hoist(deps: &mut DepGraph, tree: &mut Tree, hoist: &Hoist)
    requires
        old(deps).wf(),
        old(tree).wf(),
        consistent(old(deps), old(tree)),
        hoist.target < old(deps).nodes@.len(),
        old(tree).has_dir(hoist.chosen_path@),
    ensures
        final(deps).wf(),
        final(tree).wf(),
        consistent(final(deps), final(tree)),
        final(deps).edges == old(deps).edges,
        target_names(final(deps)) == target_names(old(deps)),
        dir_paths(final(tree)) == dir_paths(old(tree)),
        dir_subdirs(final(tree)) == dir_subdirs(old(tree)),
        target_paths(final(deps)) == target_paths(old(deps)).update(
            hoist.target as int,
            hoist.chosen_path@,
        ),
        dir_targets(final(tree)) == moved_lists(
            dir_paths(old(tree)),
            dir_targets(old(tree)),
            old(deps).nodes@[hoist.target as int].path@,
            hoist.chosen_path@,
            hoist.target,
        ),
{
    let t = hoist.target;
    let count = deps.nodes.len();
    let ghost old_deps = *deps;
    let ghost old_tree = *tree;
    let ghost old_path = deps.nodes@[t as int].path@;
    let ghost new_path = hoist.chosen_path@;
    assert(is_located(deps, tree, t as int));
    let from = match tree.get_subtree_from_prefix(&deps.nodes[t].path) {
        Some(d) => d,
        None => {
            assert(false);
            0
        },
    };
    let to = match tree.get_subtree_from_prefix(&hoist.chosen_path) {
        Some(d) => d,
        None => {
            assert(false);
            0
        },
    };
    proof {
        tree.lemma_dir_at(from as int);
        tree.lemma_dir_at(to as int);
        assert(dir_paths(tree)[from as int] == old_path);
        assert(dir_paths(tree)[to as int] == new_path);
        assert(index_of_path(dir_paths(tree), old_path) == from);
        assert(index_of_path(dir_paths(tree), new_path) == to);
        // The target is listed where it stands, and nowhere else.
        let home = choose|d: int|
            0 <= d < tree.dirs@.len() && (#[trigger] tree.dirs@[d]).path@ == old_path
                && tree.dirs@[d].targets@.contains(t);
        assert(home == from);
    }
    let ghost list_from = tree.dirs@[from as int].targets@;
    let left = remove_target(&tree.dirs[from].targets, t);
    tree.dirs[from].targets = left;
    let ghost middle_tree = *tree;
    tree.dirs[to].targets.push(t);
    deps.nodes[t].path = copy_range(&hoist.chosen_path, 0, hoist.chosen_path.len());
    proof {
        assert(new_path.subrange(0, new_path.len() as int) == new_path);
        assert(deps.nodes@[t as int].path@ == new_path);
        assert(dir_paths(tree) =~= dir_paths(&old_tree));
        assert(dir_subdirs(tree) =~= dir_subdirs(&old_tree));
        assert(target_names(deps) =~= target_names(&old_deps));
        assert(target_paths(deps) =~= target_paths(&old_deps).update(t as int, new_path));
        assert(dir_targets(tree) =~= moved_lists(
            dir_paths(&old_tree),
            dir_targets(&old_tree),
            old_path,
            new_path,
            t,
        ));
        // The tree keeps its shape.
        assert forall|i: int| 0 <= i < tree.dirs@.len() implies (#[trigger] tree.dirs@[i]).path@
            == old_tree.dirs@[i].path@ && tree.dirs@[i].subdirs@ == old_tree.dirs@[i].subdirs@ by {
            assert(dir_paths(tree)[i] == dir_paths(&old_tree)[i]);
            assert(dir_subdirs(tree)[i] == dir_subdirs(&old_tree)[i]);
        }
        assert forall|i: int, k: int|
            0 <= i < tree.dirs@.len() && 0 <= k < tree.dirs@[i].subdirs@.len() implies tree.is_child(
            i,
            #[trigger] tree.dirs@[i].subdirs@[k] as int,
        ) by {
            assert(old_tree.is_child(i, old_tree.dirs@[i].subdirs@[k] as int));
        }
        assert forall|c: int| 0 < c < tree.dirs@.len() implies #[trigger] tree.has_parent(c) by {
            assert(old_tree.has_parent(c));
            let i = choose|i: int|
                0 <= i < old_tree.dirs@.len() && (#[trigger] old_tree.dirs@[i]).subdirs@.contains(
                    c as usize,
                );
            assert(tree.dirs@[i].subdirs@.contains(c as usize));
        }
        assert(tree.wf());
        // The two structures still agree.
        let after_from = without(list_from, t, list_from.len() as int);
        assert(list_from.take(list_from.len() as int) =~= list_from);
        assert forall|x: usize| after_from.contains(x) <==> x != t && list_from.contains(x) by {
            lemma_without_contains(list_from, t, list_from.len() as int, x);
        }
        lemma_without_no_duplicates(list_from, t, list_from.len() as int);
        assert forall|d: int| 0 <= d < tree.dirs@.len() implies !(#[trigger] middle_tree.dirs@[d]).targets@.contains(
            t,
        ) by {
            if d != from && old_tree.dirs@[d].targets@.contains(t) {
                let k = choose|k: int|
                    0 <= k < old_tree.dirs@[d].targets@.len() && old_tree.dirs@[d].targets@[k]
                        == t;
                assert(is_at_home(&old_deps, &old_tree, d, old_tree.dirs@[d].targets@[k]));
                assert(old_tree.dirs@[d].path@ == old_tree.dirs@[from as int].path@);
            }
        }
        assert forall|u: int| 0 <= u < deps.nodes@.len() implies #[trigger] is_located(
            deps,
            tree,
            u,
        ) by {
            if u == t {
                lemma_push_contains(middle_tree.dirs@[to as int].targets@, t, t);
                assert(tree.dirs@[to as int].path@ == deps.nodes@[u].path@);
            } else {
                assert(is_located(&old_deps, &old_tree, u));
                let d = choose|d: int|
                    0 <= d < old_tree.dirs@.len() && (#[trigger] old_tree.dirs@[d]).path@
                        == old_deps.nodes@[u].path@ && old_tree.dirs@[d].targets@.contains(
                        u as usize,
                    );
                assert(u < count);
                if d == from {
                    lemma_without_contains(list_from, t, list_from.len() as int, u as usize);
                }
                assert(middle_tree.dirs@[d].targets@.contains(u as usize));
                if d == to {
                    lemma_push_contains(middle_tree.dirs@[to as int].targets@, t, u as usize);
                }
                assert(tree.dirs@[d].path@ == deps.nodes@[u].path@);
                assert(tree.dirs@[d].targets@.contains(u as usize));
            }
        }
        assert forall|d: int, k: int|
            0 <= d < tree.dirs@.len() && 0 <= k < tree.dirs@[d].targets@.len() implies is_at_home(
            deps,
            tree,
            d,
            #[trigger] tree.dirs@[d].targets@[k],
        ) by {
            let x = tree.dirs@[d].targets@[k];
            if d == to && k == tree.dirs@[d].targets@.len() - 1 {
            } else {
                assert(middle_tree.dirs@[d].targets@[k] == x);
                assert(middle_tree.dirs@[d].targets@.contains(x));
                assert(old_tree.dirs@[d].targets@.contains(x));
                let j = choose|j: int|
                    0 <= j < old_tree.dirs@[d].targets@.len() && old_tree.dirs@[d].targets@[j]
                        == x;
                assert(is_at_home(&old_deps, &old_tree, d, old_tree.dirs@[d].targets@[j]));
            }
        }
        assert forall|d: int| 0 <= d < tree.dirs@.len() implies (#[trigger] tree.dirs@[d]).targets@.no_duplicates() by {
            assert(old_tree.dirs@[d].targets@.no_duplicates());
            assert(middle_tree.dirs@[d].targets@.no_duplicates());
            if d == to {
                let list = middle_tree.dirs@[d].targets@;
                assert(!list.contains(t));
                lemma_push_no_duplicates(list, t);
            }
        }
    }
}

/// Whether every hoist names a target of the graph and a directory of the tree.
pub open spec fn can_be_executed(deps: &DepGraph, tree: &Tree, hoists: Seq<Hoist>) -> bool {
    forall|i: int|
        0 <= i < hoists.len() ==> (#[trigger] hoists[i]).target < deps.nodes@.len() && tree.has_dir(
            hoists[i].chosen_path@,
        )
}

/// Whether the hoists can be carried out, see `can_be_executed`.
pub fn check_hoists(deps: &DepGraph, tree: &Tree, hoists: &Vec<Hoist>) -> (r: bool)
    ensures
        r == can_be_executed(deps, tree, hoists@),
{
    let mut i: usize = 0;
    while i < hoists.len()
        invariant
            i <= hoists@.len(),
            can_be_executed(deps, tree, hoists@.take(i as int)),
        decreases hoists@.len() - i,
    {
        if hoists[i].target >= deps.nodes.len() || tree.get_subtree_from_prefix(
            &hoists[i].chosen_path,
        ).is_none() {
            return false;
        }
        assert forall|k: int| 0 <= k < i + 1 implies (#[trigger] hoists@.take(i + 1)[k]).target
            < deps.nodes@.len() && tree.has_dir(hoists@.take(i + 1)[k].chosen_path@) by {
            if k < i {
                assert(hoists@.take(i as int)[k] == hoists@.take(i + 1)[k]);
            }
        }
        i = i + 1;
    }
    assert(hoists@.take(hoists@.len() as int) == hoists@);
    true
}

/// Carries out the hoists, one after the other. Targets, their names and their
/// dependencies stay as they are; only paths change, in both structures alike.
pub fn execute_hoists(deps: &mut DepGraph, tree: &mut Tree, hoists: &Vec<Hoist>)
    requires
        old(deps).wf(),
        old(tree).wf(),
        consistent(old(deps), old(tree)),
        can_be_executed(old(deps), old(tree), hoists@),
    ensures
        final(deps).wf(),
        final(tree).wf(),
        consistent(final(deps), final(tree)),
        final(deps).edges == old(deps).edges,
        target_names(final(deps)) == target_names(old(deps)),
        dir_paths(final(tree)) == dir_paths(old(tree)),
        dir_subdirs(final(tree)) == dir_subdirs(old(tree)),
        (target_paths(final(deps)), dir_targets(final(tree))) == executed(
            dir_paths(old(tree)),
            target_paths(old(deps)),
            dir_targets(old(tree)),
            hoists_of(hoists@),
            hoists@.len() as int,
        ),
{
    let ghost dirs = dir_paths(tree);
    let ghost paths = target_paths(deps);
    let ghost lists = dir_targets(tree);
    let mut k: usize = 0;
    while k < hoists.len()
        invariant
            k <= hoists@.len(),
            deps.wf(),
            tree.wf(),
            consistent(deps, tree),
            deps.edges == old(deps).edges,
            deps.nodes@.len() == old(deps).nodes@.len(),
            target_names(deps) == target_names(old(deps)),
            dir_paths(tree) == dirs,
            dirs == dir_paths(old(tree)),
            dir_subdirs(tree) == dir_subdirs(old(tree)),
            forall|i: int|
                0 <= i < hoists@.len() ==> (#[trigger] hoists@[i]).target < deps.nodes@.len()
                    && old(tree).has_dir(hoists@[i].chosen_path@),
            (target_paths(deps), dir_targets(tree)) == executed(
                dirs,
                paths,
                lists,
                hoists_of(hoists@),
                k as int,
            ),
        decreases hoists@.len() - k,
    {
        proof {
            let want = hoists@[k as int].chosen_path@;
            assert(old(tree).has_dir(want));
            let d = choose|d: int|
                0 <= d < old(tree).dirs@.len() && (#[trigger] old(tree).dirs@[d]).path@ == want;
            assert(dirs[d] == want);
            assert(tree.dirs@[d].path@ == dir_paths(tree)[d]);
            assert(target_paths(deps)[hoists@[k as int].target as int]
                == deps.nodes@[hoists@[k as int].target as int].path@);
        }
        execute_hoist(deps, tree, &hoists[k]);
        assert(target_names(deps).len() == deps.nodes@.len());
        k = k + 1;
    }
}

} // verus!
