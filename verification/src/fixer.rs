//! The solver. It walks the tree of directories, and wherever the directories
//! and targets of one level depend on each other in a cycle it chooses targets
//! to hoist to that level so that the cycle breaks.
//!
//! Two parts are approximations. The chooser is greedy, so a smaller set of
//! hoists may exist. And every level is fixed on its own, the levels below
//! first: what a hoist at one level does to the levels above is not looked at.

use crate::dir_graph::gen_dir_graph;
use crate::dir_graph::project;
use crate::dir_graph::projection;
use crate::dir_graph::sibling_edges;
use crate::dir_graph::sibling_nodes;
use crate::dir_graph::subdir_name_list;
use crate::dir_graph::subdir_names;
use crate::dir_graph::toposortable;
use crate::graph::acyclic;
use crate::graph::edges_in_range;
use crate::graph::is_scc_partition;
use crate::graph::lemma_acyclic_components_are_single;
use crate::graph::lists_of;
use crate::graph::tarjan_components;
use crate::graph::tarjan_scc;
use crate::hoists::clauses_in_dirs;
use crate::hoists::clauses_in_range;
use crate::hoists::FastHN;
use crate::hoists::HoistsNeeded;
use crate::paths::copy_range;
use crate::paths::find_position;
use crate::paths::is_prefix;
use crate::paths::lemma_position_of_present;
use crate::paths::position;
use crate::search::all_pair_costs;
use crate::search::cheapest_cost;
use crate::search::cheapest_order;
use crate::search::cost_table;
use crate::search::heap_permutations;
use crate::search::permutations_of;
use crate::search::search_steps;
use crate::search::time_complexity_steps;
use crate::simplifier::elided;
use crate::simplifier::enumerate_dirs;
use crate::simplifier::kept_edges;
use crate::simplifier::local_dirs;
use crate::simplifier::pair_clauses;
use crate::simplifier::remove_always_happy;
use crate::simplifier::remove_top_elements;
use crate::simplifier::settled_paths;
use crate::simplifier::simple_simplifications;
use crate::simplifier::stripped_paths;
use crate::simplifier::unhappy;
use crate::simplifier::Subproblem;
use crate::tree::hoists_of;
use crate::tree::target_paths;
use crate::tree::DepGraph;
use crate::tree::Hoist;
use crate::tree::Tree;
use vstd::prelude::*;

verus! {

broadcast use vstd::std_specs::hash::group_hash_axioms;

/// The search over the orders of a group of directories was not started: the
/// group has `dirs` directories, and the number of steps that the search is
/// said to take is beyond what a `usize` holds.
#[derive(Debug, Clone, Copy, PartialEq, Eq)]
pub struct SearchTooLarge {
    pub dirs: usize,
}

// ---------------------------------------------------------------------------
// One group of directories.
// ---------------------------------------------------------------------------
/// The paths of a sub-problem after the two simple reductions.
pub open spec fn reduced_paths(paths: Seq<Seq<usize>>) -> Seq<Seq<usize>> {
    stripped_paths(settled_paths(paths))
}

/// The flags, the edges and the forced pairs of a sub-problem after all
/// reductions.
pub open spec fn reduced(
    paths: Seq<Seq<usize>>,
    alive: Seq<bool>,
    edges: Seq<(usize, usize)>,
) -> (Seq<bool>, Seq<(usize, usize)>, Seq<(usize, usize)>) {
    let p = reduced_paths(paths);
    let top = elided(p, alive, edges, p.len() as int);
    let flags = unhappy(p, top.0, top.1);
    (flags, kept_edges(top.1, flags, top.1.len() as int), top.2)
}

/// The directories of a sub-problem that are left after all reductions.
pub open spec fn remaining_dirs(
    paths: Seq<Seq<usize>>,
    alive: Seq<bool>,
    edges: Seq<(usize, usize)>,
) -> Seq<usize> {
    let p = reduced_paths(paths);
    local_dirs(p, reduced(paths, alive, edges).0, p.len() as int)
}

/// The nodes of a sub-problem that the solver hoists: those of the cheapest
/// order of the directories that are left after all reductions.
pub open spec fn subproblem_choice(
    paths: Seq<Seq<usize>>,
    alive: Seq<bool>,
    edges: Seq<(usize, usize)>,
) -> Set<usize> {
    let p = reduced_paths(paths);
    let r = reduced(paths, alive, edges);
    let dirs = remaining_dirs(paths, alive, edges);
    cheapest_cost(
        p.len(),
        cost_table(p, r.0, r.1, dirs),
        heap_permutations(dirs.len()),
        pair_clauses(r.2),
    )
}

/// The hoists to the directory `prefix` of those among the first `k` nodes
/// that are in `chosen`, in the order of the nodes.
pub open spec fn emitted(
    targets: Seq<usize>,
    chosen: Set<usize>,
    prefix: Seq<usize>,
    k: int,
) -> Seq<(usize, Seq<usize>)>
    decreases k,
{
    if k <= 0 {
        Seq::empty()
    } else if chosen.contains((k - 1) as usize) {
        emitted(targets, chosen, prefix, k - 1).push((targets[k - 1], prefix))
    } else {
        emitted(targets, chosen, prefix, k - 1)
    }
}

/// The hoists that the solver gives for a sub-problem, or `None` where the
/// search over the orders of its directories would be too large.
pub open spec fn subproblem_hoists(
    targets: Seq<usize>,
    paths: Seq<Seq<usize>>,
    alive: Seq<bool>,
    edges: Seq<(usize, usize)>,
    prefix: Seq<usize>,
) -> Option<Seq<(usize, Seq<usize>)>> {
    if search_steps(remaining_dirs(paths, alive, edges).len()) <= usize::MAX {
        Some(emitted(targets, subproblem_choice(paths, alive, edges), prefix, paths.len() as int))
    } else {
        None
    }
}

/// A node that lies in a directory after the two simple reductions lay in one
/// before them.
pub proof fn lemma_reduced_path_was_longer(paths: Seq<Seq<usize>>, x: int)
    requires
        0 <= x < paths.len(),
        reduced_paths(paths)[x].len() > 0,
    ensures
        paths[x].len() > 0,
{
    let settled = settled_paths(paths);
    crate::simplifier::lemma_settled_paths_are_settled(paths, x);
    crate::simplifier::lemma_stripped_paths_keep_ends(settled, x);
}

/// Whether `target` is one of the targets, and one that lies in a directory.
pub open spec fn stands_below(targets: Seq<usize>, paths: Seq<Seq<usize>>, target: usize) -> bool {
    exists|x: int|
        0 <= x < targets.len() && x < paths.len() && #[trigger] targets[x] == target
            && paths[x].len() > 0
}

/// Tries the orders `orders` of the directories `dirs` of a sub-problem that
/// has been reduced, and adds to `all_hoists` a hoist to `prefix` for every node
/// that the cheapest order asks for, in the order of the nodes. `forced` holds
/// what has to be hoisted whatever the order.
pub fn hoists_for_orders(
    all_hoists: &mut Vec<Hoist>,
    prefix: &Vec<usize>,
    part: &Subproblem,
    dirs: &Vec<usize>,
    forced: HoistsNeeded,
    orders: &Vec<Vec<usize>>,
)
    requires
        part.wf(),
        forced.is_flat(),
        clauses_in_range(forced.clauses(), part.paths@.len()),
        orders@.len() >= 1,
    ensures
        final(all_hoists)@.len() >= old(all_hoists)@.len(),
        final(all_hoists)@.take(old(all_hoists)@.len() as int) == old(all_hoists)@,
        hoists_of(final(all_hoists)@).skip(old(all_hoists)@.len() as int) == emitted(
            part.targets@,
            cheapest_cost(
                part.paths@.len(),
                cost_table(lists_of(part.paths), part.alive@, part.edges@, dirs@),
                lists_of(*orders),
                forced.clauses(),
            ),
            prefix@,
            part.paths@.len() as int,
        ),
        forall|i: int|
            old(all_hoists)@.len() <= i < final(all_hoists)@.len() ==> {
                &&& part.targets@.contains((#[trigger] final(all_hoists)@[i]).target)
                &&& final(all_hoists)@[i].chosen_path@ == prefix@
            },
        clauses_in_dirs(forced.clauses(), lists_of(part.paths)) ==> forall|i: int|
            old(all_hoists)@.len() <= i < final(all_hoists)@.len() ==> stands_below(
                part.targets@,
                lists_of(part.paths),
                (#[trigger] final(all_hoists)@[i]).target,
            ),
{
    let ghost given = all_hoists@;
    let ghost targets = part.targets@;
    let ghost paths = lists_of(part.paths);
    let ghost in_dirs = clauses_in_dirs(forced.clauses(), paths);
    let hoists_always_needed = FastHN::from_hn(forced);
    let cost_of_a_before_b = all_pair_costs(part, dirs);
    let hoists_needed = cheapest_order(
        part.paths.len(),
        &cost_of_a_before_b,
        orders,
        &hoists_always_needed,
    );
    let ghost chosen = hoists_needed@;
    proof {
        let table = crate::search::table_clauses(cost_of_a_before_b@);
        if in_dirs {
            assert forall|x: usize| chosen.contains(x) implies x < paths.len() && (
            #[trigger] paths[x as int]).len() > 0 by {
                if crate::search::is_mentioned_in_table(table, x) {
                    let (i, j) = choose|i: int, j: int|
                        0 <= i < table.len() && 0 <= j < table[i].len()
                            && crate::hoists::is_mentioned(#[trigger] table[i][j], x);
                    crate::hoists::lemma_mentioned_lies_in_dir(table[i][j], paths, x);
                } else {
                    crate::hoists::lemma_mentioned_lies_in_dir(
                        hoists_always_needed.clauses(),
                        paths,
                        x,
                    );
                }
            }
        }
    }
    let n = part.targets.len();
    let mut x: usize = 0;
    assert(hoists_of(all_hoists@).skip(given.len() as int) =~= emitted(
        targets,
        chosen,
        prefix@,
        0,
    ));
    assert(all_hoists@.take(given.len() as int) =~= given);
    while x < n
        invariant
            x <= n,
            n == part.targets@.len(),
            part.wf(),
            part.targets@ == targets,
            paths == lists_of(part.paths),
            chosen == hoists_needed@,
            all_hoists@.len() >= given.len(),
            all_hoists@.take(given.len() as int) == given,
            hoists_of(all_hoists@).skip(given.len() as int) == emitted(
                targets,
                chosen,
                prefix@,
                x as int,
            ),
            in_dirs ==> forall|y: usize|
                chosen.contains(y) ==> (#[trigger] paths[y as int]).len() > 0,
            forall|i: int|
                given.len() <= i < all_hoists@.len() ==> targets.contains(
                    (#[trigger] all_hoists@[i]).target,
                ) && all_hoists@[i].chosen_path@ == prefix@,
            in_dirs ==> forall|i: int|
                given.len() <= i < all_hoists@.len() ==> stands_below(
                    targets,
                    paths,
                    (#[trigger] all_hoists@[i]).target,
                ),
        decreases n - x,
    {
        if hoists_needed.contains(&x) {
            let ghost before = all_hoists@;
            all_hoists.push(
                Hoist { target: part.targets[x], chosen_path: copy_range(prefix, 0, prefix.len()) },
            );
            proof {
                assert(prefix@.subrange(0, prefix@.len() as int) == prefix@);
                assert(targets.contains(targets[x as int]));
                assert forall|i: int| given.len() <= i < all_hoists@.len() implies targets.contains(
                    (#[trigger] all_hoists@[i]).target,
                ) && all_hoists@[i].chosen_path@ == prefix@ by {
                    if i < before.len() {
                        assert(all_hoists@[i] == before[i]);
                    }
                }
                if in_dirs {
                    assert(paths[x as int].len() > 0);
                    assert(stands_below(targets, paths, targets[x as int]));
                    assert forall|i: int| given.len() <= i < all_hoists@.len() implies stands_below(
                        targets,
                        paths,
                        (#[trigger] all_hoists@[i]).target,
                    ) by {
                        if i < before.len() {
                            assert(all_hoists@[i] == before[i]);
                        }
                    }
                }
                assert(all_hoists@.take(given.len() as int) =~= before.take(given.len() as int));
                assert(hoists_of(all_hoists@).skip(given.len() as int) =~= hoists_of(before).skip(
                    given.len() as int,
                ).push((targets[x as int], prefix@)));
            }
        }
        x = x + 1;
    }
}

/// Finds the hoists that a group of directories needs, and adds them to
/// `all_hoists`. `part` holds the targets at and below the group's directories,
/// each with its path below `prefix`; every hoist found moves a target to
/// `prefix`. With `Err` nothing was added.
pub fn find_hoists_needed_for_subgraph(
    all_hoists: &mut Vec<Hoist>,
    prefix: &Vec<usize>,
    part: Subproblem,
) -> (r: Result<(), SearchTooLarge>)
    requires
        part.wf(),
    ensures
        final(all_hoists)@.len() >= old(all_hoists)@.len(),
        final(all_hoists)@.take(old(all_hoists)@.len() as int) == old(all_hoists)@,
        match r {
            Ok(()) => Some(hoists_of(final(all_hoists)@).skip(old(all_hoists)@.len() as int))
                == subproblem_hoists(
                part.targets@,
                lists_of(part.paths),
                part.alive@,
                part.edges@,
                prefix@,
            ),
            Err(e) => {
                &&& subproblem_hoists(
                    part.targets@,
                    lists_of(part.paths),
                    part.alive@,
                    part.edges@,
                    prefix@,
                ) is None
                &&& final(all_hoists)@ == old(all_hoists)@
                &&& e.dirs == remaining_dirs(
                    lists_of(part.paths),
                    part.alive@,
                    part.edges@,
                ).len()
            },
        },
        forall|i: int|
            old(all_hoists)@.len() <= i < final(all_hoists)@.len() ==> {
                &&& stands_below(
                    part.targets@,
                    lists_of(part.paths),
                    (#[trigger] final(all_hoists)@[i]).target,
                )
                &&& final(all_hoists)@[i].chosen_path@ == prefix@
            },
{
    let ghost paths0 = lists_of(part.paths);
    let ghost alive0 = part.alive@;
    let ghost edges0 = part.edges@;
    let ghost targets = part.targets@;
    let ghost given = all_hoists@;
    let mut part = part;
    simple_simplifications(&mut part);
    assert(lists_of(part.paths).len() == part.paths@.len());
    let forced = remove_top_elements(&mut part);
    remove_always_happy(&mut part);
    let dirs = enumerate_dirs(&part);
    assert(dirs@ == remaining_dirs(paths0, alive0, edges0));
    if time_complexity_steps(dirs.len()).is_none() {
        return Err(SearchTooLarge { dirs: dirs.len() });
    }
    let orders = permutations_of(dirs.len());
    hoists_for_orders(all_hoists, prefix, &part, &dirs, forced, &orders);
    proof {
        let reduced = lists_of(part.paths);
        assert(reduced == reduced_paths(paths0));
        assert forall|i: int| given.len() <= i < all_hoists@.len() implies stands_below(
            targets,
            paths0,
            (#[trigger] all_hoists@[i]).target,
        ) by {
            let t = all_hoists@[i].target;
            assert(stands_below(targets, reduced, t));
            let x = choose|x: int|
                0 <= x < targets.len() && x < reduced.len() && #[trigger] targets[x] == t
                    && reduced[x].len() > 0;
            lemma_reduced_path_was_longer(paths0, x);
        }
    }
    Ok(())
}

// ---------------------------------------------------------------------------
// The group that a cycle of the sibling graph makes.
// ---------------------------------------------------------------------------
/// Whether the target `t` with the path `path` falls under one of the nodes
/// `group` of the sibling graph.
pub open spec fn is_member(
    names: Seq<usize>,
    here: Seq<usize>,
    prefix: Seq<usize>,
    path: Seq<usize>,
    t: usize,
    group: Seq<usize>,
) -> bool {
    projection(names, here, prefix, path, t) matches Some(k) && group.contains(k as usize)
}

/// Those among the first `k` targets that fall under one of the nodes `group`
/// of the sibling graph of directory `d`.
pub open spec fn members(deps: &DepGraph, tree: &Tree, d: int, group: Seq<usize>, k: int) -> Seq<
    usize,
>
    decreases k,
{
    if k <= 0 {
        Seq::empty()
    } else {
        let before = members(deps, tree, d, group, k - 1);
        if is_member(
            subdir_names(tree, d),
            tree.dirs@[d].targets@,
            tree.dirs@[d].path@,
            deps.nodes@[k - 1].path@,
            (k - 1) as usize,
            group,
        ) {
            before.push((k - 1) as usize)
        } else {
            before
        }
    }
}

/// Those among the first `k` edges that join two of the targets `chosen`, each
/// end given by its place in `chosen`.
pub open spec fn induced_edges(edges: Seq<(usize, usize)>, chosen: Seq<usize>, k: int) -> Seq<
    (usize, usize),
>
    decreases k,
{
    if k <= 0 {
        Seq::empty()
    } else {
        let before = induced_edges(edges, chosen, k - 1);
        let a = position(chosen, edges[k - 1].0);
        let b = position(chosen, edges[k - 1].1);
        if a is Some && b is Some {
            before.push((a->0 as usize, b->0 as usize))
        } else {
            before
        }
    }
}

/// The paths of the targets `chosen` below the first `skip` segments.
pub open spec fn residual_paths(paths: Seq<Seq<usize>>, chosen: Seq<usize>, skip: int) -> Seq<
    Seq<usize>,
> {
    Seq::new(chosen.len(), |i: int| paths[chosen[i] as int].skip(skip))
}

/// The hoists that the group `group` of nodes of the sibling graph of
/// directory `d` gives.
pub open spec fn group_hoists(deps: &DepGraph, tree: &Tree, d: int, group: Seq<usize>) -> Option<
    Seq<(usize, Seq<usize>)>,
> {
    let chosen = members(deps, tree, d, group, deps.nodes@.len() as int);
    let prefix = tree.dirs@[d].path@;
    subproblem_hoists(
        chosen,
        residual_paths(target_paths(deps), chosen, prefix.len() as int),
        Seq::new(chosen.len(), |i: int| true),
        induced_edges(deps.edges@, chosen, deps.edges@.len() as int),
        prefix,
    )
}

/// The part of the dependency graph that stands at and below the nodes `group`
/// of the sibling graph of directory `dir`.
fn induced_part(deps: &DepGraph, tree: &Tree, dir: usize, group: &Vec<usize>) -> (part: Subproblem)
    requires
        deps.wf(),
        tree.wf(),
        dir < tree.dirs@.len(),
        sibling_nodes(tree, dir as int).len() <= usize::MAX,
    ensures
        part.wf(),
        part.targets@ == members(deps, tree, dir as int, group@, deps.nodes@.len() as int),
        lists_of(part.paths) == residual_paths(
            target_paths(deps),
            part.targets@,
            tree.dirs@[dir as int].path@.len() as int,
        ),
        part.alive@ == Seq::new(part.targets@.len(), |i: int| true),
        part.edges@ == induced_edges(deps.edges@, part.targets@, deps.edges@.len() as int),
        forall|i: int|
            0 <= i < part.targets@.len() ==> (#[trigger] part.targets@[i]) < deps.nodes@.len()
                && is_prefix(
                tree.dirs@[dir as int].path@,
                deps.nodes@[part.targets@[i] as int].path@,
            ),
{
    let here = &tree.dirs[dir];
    let names = subdir_name_list(tree, dir);
    let mut part = Subproblem {
        targets: Vec::new(),
        paths: Vec::new(),
        alive: Vec::new(),
        edges: Vec::new(),
    };
    let ghost prefix = here.path@;
    let mut t: usize = 0;
    while t < deps.nodes.len()
        invariant
            t <= deps.nodes@.len(),
            deps.wf(),
            tree.wf(),
            dir < tree.dirs@.len(),
            *here == tree.dirs@[dir as int],
            prefix == here.path@,
            names@ == subdir_names(tree, dir as int),
            names@.len() + here.targets@.len() <= usize::MAX,
            part.edges@.len() == 0,
            part.targets@ == members(deps, tree, dir as int, group@, t as int),
            part.targets@.len() == part.paths@.len(),
            part.targets@.len() == part.alive@.len(),
            forall|i: int| 0 <= i < part.alive@.len() ==> #[trigger] part.alive@[i],
            forall|i: int|
                0 <= i < part.targets@.len() ==> (#[trigger] part.targets@[i]) < t && is_prefix(
                    prefix,
                    deps.nodes@[part.targets@[i] as int].path@,
                ),
            forall|i: int|
                0 <= i < part.paths@.len() ==> (#[trigger] part.paths@[i])@ == deps.nodes@[part.targets@[i] as int].path@.skip(
                    prefix.len() as int,
                ),
        decreases deps.nodes@.len() - t,
    {
        let at = project(&names, &here.targets, &here.path, &deps.nodes[t].path, t);
        let inside = match at {
            Some(k) => {
                proof {
                    lemma_position_of_present(group@, k);
                }
                find_position(group, k).is_some()
            },
            None => false,
        };
        if inside {
            let path = &deps.nodes[t].path;
            let rest = copy_range(path, here.path.len(), path.len());
            part.targets.push(t);
            part.paths.push(rest);
            part.alive.push(true);
        }
        t = t + 1;
    }
    assert(lists_of(part.paths) =~= residual_paths(
        target_paths(deps),
        part.targets@,
        prefix.len() as int,
    ));
    assert(part.alive@ =~= Seq::new(part.targets@.len(), |i: int| true));
    let mut k: usize = 0;
    while k < deps.edges.len()
        invariant
            k <= deps.edges@.len(),
            deps.wf(),
            part.targets@.len() == part.paths@.len(),
            part.targets@.len() == part.alive@.len(),
            part.targets@ == members(deps, tree, dir as int, group@, deps.nodes@.len() as int),
            lists_of(part.paths) == residual_paths(
                target_paths(deps),
                part.targets@,
                prefix.len() as int,
            ),
            part.alive@ == Seq::new(part.targets@.len(), |i: int| true),
            part.edges@ == induced_edges(deps.edges@, part.targets@, k as int),
            edges_in_range(part.edges@, part.targets@.len()),
            forall|i: int|
                0 <= i < part.targets@.len() ==> (#[trigger] part.targets@[i]) < deps.nodes@.len()
                    && is_prefix(prefix, deps.nodes@[part.targets@[i] as int].path@),
        decreases deps.edges@.len() - k,
    {
        let e = deps.edges[k];
        let a = find_position(&part.targets, e.0);
        let b = find_position(&part.targets, e.1);
        proof {
            lemma_position_of_present(part.targets@, e.0);
            lemma_position_of_present(part.targets@, e.1);
        }
        if let Some(from) = a {
            if let Some(to) = b {
                part.edges.push((from, to));
            }
        }
        k = k + 1;
    }
    part
}

// ---------------------------------------------------------------------------
// The walk over the tree.
// ---------------------------------------------------------------------------
/// The hoists that the first `k` of the strongly connected components `comps`
/// of the sibling graph of directory `d` give. A component of one node gives
/// none. `None` where a search would be too large.
pub open spec fn components_hoists(
    deps: &DepGraph,
    tree: &Tree,
    d: int,
    comps: Seq<Seq<usize>>,
    k: int,
) -> Option<Seq<(usize, Seq<usize>)>>
    decreases k,
{
    if k <= 0 {
        Some(Seq::empty())
    } else {
        match components_hoists(deps, tree, d, comps, k - 1) {
            None => None,
            Some(before) => if comps[k - 1].len() == 1 {
                Some(before)
            } else {
                match group_hoists(deps, tree, d, comps[k - 1]) {
                    None => None,
                    Some(found) => Some(before + found),
                }
            },
        }
    }
}

/// The hoists to directory `d` itself: none where its sibling graph has no
/// cycle, else those of the strongly connected components of that graph.
pub open spec fn level_hoists(deps: &DepGraph, tree: &Tree, d: int) -> Option<
    Seq<(usize, Seq<usize>)>,
> {
    let edges = sibling_edges(deps, tree, d);
    if acyclic(edges.to_set()) {
        Some(Seq::empty())
    } else {
        let comps = tarjan_components(sibling_nodes(tree, d).len(), edges);
        components_hoists(deps, tree, d, comps, comps.len() as int)
    }
}

/// The hoists that the solver finds at and below the first `k` directories
/// directly below directory `d`.
pub open spec fn below_hoists(deps: &DepGraph, tree: &Tree, d: int, k: int) -> Option<
    Seq<(usize, Seq<usize>)>,
>
    decreases tree.dirs@.len() - d, 0int, k,
{
    if k <= 0 {
        Some(Seq::empty())
    } else {
        match below_hoists(deps, tree, d, k - 1) {
            None => None,
            Some(before) => {
                let c = tree.dirs@[d].subdirs@[k - 1] as int;
                if d < c < tree.dirs@.len() {
                    match dir_hoists(deps, tree, c) {
                        None => None,
                        Some(found) => Some(before + found),
                    }
                } else {
                    Some(before)
                }
            },
        }
    }
}

/// The hoists that the solver finds at and below directory `d`: first those of
/// the directories below it, in their order, then those to `d` itself. `None`
/// where a search would be too large.
pub open spec fn dir_hoists(deps: &DepGraph, tree: &Tree, d: int) -> Option<
    Seq<(usize, Seq<usize>)>,
>
    decreases tree.dirs@.len() - d, 1int, 0int,
{
    match below_hoists(deps, tree, d, tree.dirs@[d].subdirs@.len() as int) {
        None => None,
        Some(below) => match level_hoists(deps, tree, d) {
            None => None,
            Some(here) => Some(below + here),
        },
    }
}

/// Where a topological order exists at every directory, the solver finds no
/// hoists, at and below whatever directory it starts.
pub proof fn lemma_legal_needs_no_hoists(deps: &DepGraph, tree: &Tree, d: int)
    requires
        toposortable(deps, tree),
        0 <= d < tree.dirs@.len(),
    ensures
        dir_hoists(deps, tree, d) == Some(Seq::<(usize, Seq<usize>)>::empty()),
    decreases tree.dirs@.len() - d, 1int, 0int,
{
    lemma_legal_needs_none_below(deps, tree, d, tree.dirs@[d].subdirs@.len() as int);
    assert(acyclic(sibling_edges(deps, tree, d).to_set()));
    assert(Seq::<(usize, Seq<usize>)>::empty() + Seq::<(usize, Seq<usize>)>::empty()
        =~= Seq::<(usize, Seq<usize>)>::empty());
}

/// Where a topological order exists at every directory, the solver finds no
/// hoists below the first `k` directories under `d`.
proof fn lemma_legal_needs_none_below(deps: &DepGraph, tree: &Tree, d: int, k: int)
    requires
        toposortable(deps, tree),
        0 <= d < tree.dirs@.len(),
        0 <= k,
    ensures
        below_hoists(deps, tree, d, k) == Some(Seq::<(usize, Seq<usize>)>::empty()),
    decreases tree.dirs@.len() - d, 0int, k,
{
    if k > 0 {
        lemma_legal_needs_none_below(deps, tree, d, k - 1);
        let c = tree.dirs@[d].subdirs@[k - 1] as int;
        if d < c < tree.dirs@.len() {
            lemma_legal_needs_no_hoists(deps, tree, c);
            assert(Seq::<(usize, Seq<usize>)>::empty() + Seq::<(usize, Seq<usize>)>::empty()
                =~= Seq::<(usize, Seq<usize>)>::empty());
        }
    }
}

/// Whether the hoist moves a target of the graph to a directory of the tree
/// that lies above the target's own on the target's path.
pub open spec fn is_valid_hoist(deps: &DepGraph, tree: &Tree, hoist: Hoist) -> bool {
    &&& hoist.target < deps.nodes@.len()
    &&& tree.has_dir(hoist.chosen_path@)
    &&& is_prefix(hoist.chosen_path@, deps.nodes@[hoist.target as int].path@)
    &&& hoist.chosen_path@.len() < deps.nodes@[hoist.target as int].path@.len()
}

/// Once a search was too large, the hoists of more components are none too.
proof fn lemma_components_stay_none(
    deps: &DepGraph,
    tree: &Tree,
    d: int,
    comps: Seq<Seq<usize>>,
    k: int,
    m: int,
)
    requires
        0 <= k <= m,
        components_hoists(deps, tree, d, comps, k) is None,
    ensures
        components_hoists(deps, tree, d, comps, m) is None,
    decreases m,
{
    if k < m {
        lemma_components_stay_none(deps, tree, d, comps, k, m - 1);
    }
}

/// Once a search was too large, the hoists below more directories are none too.
proof fn lemma_below_stays_none(deps: &DepGraph, tree: &Tree, d: int, k: int, m: int)
    requires
        0 <= k <= m,
        below_hoists(deps, tree, d, k) is None,
    ensures
        below_hoists(deps, tree, d, m) is None,
    decreases m,
{
    if k < m {
        lemma_below_stays_none(deps, tree, d, k, m - 1);
    }
}

/// What was added after the first `from` hoists splits at every point between.
proof fn lemma_added_splits(before: Seq<Hoist>, now: Seq<Hoist>, from: int)
    requires
        0 <= from <= before.len() <= now.len(),
        now.take(before.len() as int) == before,
    ensures
        hoists_of(now).skip(from) == hoists_of(before).skip(from) + hoists_of(now).skip(
            before.len() as int,
        ),
        now.take(from) == before.take(from),
{
    assert forall|i: int| 0 <= i < before.len() implies now[i] == before[i] by {
        assert(now.take(before.len() as int)[i] == now[i]);
    }
    assert(hoists_of(now).skip(from) =~= hoists_of(before).skip(from) + hoists_of(now).skip(
        before.len() as int,
    ));
    assert(now.take(from) =~= before.take(from));
}

/// Fixes the directories below directory `dir`, then `dir` itself.
fn fix_directory(hoists: &mut Vec<Hoist>, deps: &DepGraph, tree: &Tree, dir: usize) -> (r: Result<
    (),
    SearchTooLarge,
>)
    requires
        deps.wf(),
        tree.wf(),
        dir < tree.dirs@.len(),
        forall|i: int|
            0 <= i < old(hoists)@.len() ==> is_valid_hoist(deps, tree, #[trigger] old(hoists)@[i]),
    ensures
        final(hoists)@.len() >= old(hoists)@.len(),
        final(hoists)@.take(old(hoists)@.len() as int) == old(hoists)@,
        match r {
            Ok(()) => dir_hoists(deps, tree, dir as int) == Some(
                hoists_of(final(hoists)@).skip(old(hoists)@.len() as int),
            ),
            Err(_) => dir_hoists(deps, tree, dir as int) is None,
        },
        forall|i: int|
            0 <= i < final(hoists)@.len() ==> is_valid_hoist(
                deps,
                tree,
                #[trigger] final(hoists)@[i],
            ),
        toposortable(deps, tree) ==> r is Ok && final(hoists)@ == old(hoists)@,
    decreases tree.dirs@.len() - dir,
{
    let ghost given = hoists@;
    let ghost start = given.len() as int;
    let here = &tree.dirs[dir];
    // The levels below are fixed first, each on its own.
    let mut k: usize = 0;
    assert(hoists_of(hoists@).skip(start) =~= Seq::empty());
    while k < here.subdirs.len()
        invariant
            k <= here.subdirs@.len(),
            deps.wf(),
            tree.wf(),
            dir < tree.dirs@.len(),
            *here == tree.dirs@[dir as int],
            given == old(hoists)@,
            start == given.len(),
            hoists@.len() >= start,
            hoists@.take(start) == given,
            below_hoists(deps, tree, dir as int, k as int) == Some(hoists_of(hoists@).skip(start)),
            forall|i: int|
                0 <= i < hoists@.len() ==> is_valid_hoist(deps, tree, #[trigger] hoists@[i]),
            toposortable(deps, tree) ==> hoists@ == given,
        decreases here.subdirs@.len() - k,
    {
        let child = here.subdirs[k];
        assert(tree.is_child(dir as int, tree.dirs@[dir as int].subdirs@[k as int] as int));
        let ghost before = hoists@;
        let below = fix_directory(hoists, deps, tree, child);
        proof {
            lemma_added_splits(before, hoists@, start);
        }
        match below {
            Err(e) => {
                proof {
                    lemma_below_stays_none(
                        deps,
                        tree,
                        dir as int,
                        k + 1,
                        here.subdirs@.len() as int,
                    );
                }
                return Err(e);
            },
            Ok(()) => {},
        }
        k = k + 1;
    }
    let ghost middle = hoists@;
    let local = gen_dir_graph(deps, tree, dir);
    let count = local.nodes.len();
    let groups = tarjan_scc(count, &local.edges);
    let found = fix_groups(hoists, deps, tree, dir, &groups);
    proof {
        let edges = sibling_edges(deps, tree, dir as int);
        if acyclic(edges.to_set()) {
            assert forall|c: int| 0 <= c < groups@.len() implies (#[trigger] groups@[c])@.len()
                == 1 by {
                lemma_acyclic_components_are_single(
                    lists_of(groups),
                    count as nat,
                    edges.to_set(),
                    c,
                );
                assert(lists_of(groups)[c] == groups@[c]@);
            }
        }
        lemma_added_splits(middle, hoists@, start);
    }
    found
}

/// Fixes directory `dir` itself, given the groups of nodes of its sibling graph
/// that depend on each other in a cycle: every group of more than one node goes
/// to the inner solver, which chooses hoists to `dir` that break the cycle.
pub fn fix_groups(
    hoists: &mut Vec<Hoist>,
    deps: &DepGraph,
    tree: &Tree,
    dir: usize,
    groups: &Vec<Vec<usize>>,
) -> (r: Result<(), SearchTooLarge>)
    requires
        deps.wf(),
        tree.wf(),
        dir < tree.dirs@.len(),
        sibling_nodes(tree, dir as int).len() <= usize::MAX,
        forall|i: int|
            0 <= i < old(hoists)@.len() ==> is_valid_hoist(deps, tree, #[trigger] old(hoists)@[i]),
    ensures
        final(hoists)@.len() >= old(hoists)@.len(),
        final(hoists)@.take(old(hoists)@.len() as int) == old(hoists)@,
        match r {
            Ok(()) => components_hoists(
                deps,
                tree,
                dir as int,
                lists_of(*groups),
                groups@.len() as int,
            ) == Some(hoists_of(final(hoists)@).skip(old(hoists)@.len() as int)),
            Err(_) => components_hoists(
                deps,
                tree,
                dir as int,
                lists_of(*groups),
                groups@.len() as int,
            ) is None,
        },
        forall|i: int|
            0 <= i < final(hoists)@.len() ==> is_valid_hoist(
                deps,
                tree,
                #[trigger] final(hoists)@[i],
            ),
        (forall|c: int| 0 <= c < groups@.len() ==> (#[trigger] groups@[c])@.len() == 1) ==> r is Ok
            && final(hoists)@ == old(hoists)@,
{
    let ghost middle = hoists@;
    let ghost comps = lists_of(*groups);
    let ghost all_single = forall|c: int|
        0 <= c < groups@.len() ==> (#[trigger] groups@[c])@.len() == 1;
    let here = &tree.dirs[dir];
    assert(hoists_of(hoists@).skip(middle.len() as int) =~= Seq::empty());
    assert(hoists@.take(middle.len() as int) =~= middle);
    let mut c: usize = 0;
    while c < groups.len()
        invariant
            c <= groups@.len(),
            deps.wf(),
            tree.wf(),
            dir < tree.dirs@.len(),
            sibling_nodes(tree, dir as int).len() <= usize::MAX,
            *here == tree.dirs@[dir as int],
            comps == lists_of(*groups),
            middle == old(hoists)@,
            middle.len() <= hoists@.len(),
            hoists@.take(middle.len() as int) == middle,
            components_hoists(deps, tree, dir as int, comps, c as int) == Some(
                hoists_of(hoists@).skip(middle.len() as int),
            ),
            forall|i: int|
                0 <= i < hoists@.len() ==> is_valid_hoist(deps, tree, #[trigger] hoists@[i]),
            all_single == (forall|c: int|
                0 <= c < groups@.len() ==> (#[trigger] groups@[c])@.len() == 1),
            all_single ==> hoists@ == middle,
        decreases groups@.len() - c,
    {
        assert(comps[c as int] == groups@[c as int]@);
        if groups[c].len() != 1 {
            let part = induced_part(deps, tree, dir, &groups[c]);
            let ghost before = hoists@;
            let found = find_hoists_needed_for_subgraph(hoists, &here.path, part);
            proof {
                lemma_added_splits(before, hoists@, middle.len() as int);
                tree.lemma_dir_at(dir as int);
                assert forall|i: int| 0 <= i < hoists@.len() implies is_valid_hoist(
                    deps,
                    tree,
                    #[trigger] hoists@[i],
                ) by {
                    if i < before.len() {
                        assert(hoists@.take(before.len() as int)[i] == hoists@[i]);
                    } else {
                        let t = hoists@[i].target;
                        assert(stands_below(part.targets@, lists_of(part.paths), t));
                        let at = choose|at: int|
                            0 <= at < part.targets@.len() && at < lists_of(part.paths).len()
                                && #[trigger] part.targets@[at] == t && lists_of(
                                part.paths,
                            )[at].len() > 0;
                        assert(part.targets@[at] < deps.nodes@.len());
                        assert(lists_of(part.paths)[at] == target_paths(deps)[t as int].skip(
                            tree.dirs@[dir as int].path@.len() as int,
                        ));
                    }
                }
            }
            match found {
                Err(e) => {
                    proof {
                        lemma_components_stay_none(
                            deps,
                            tree,
                            dir as int,
                            comps,
                            c + 1,
                            comps.len() as int,
                        );
                    }
                    return Err(e);
                },
                Ok(()) => {},
            }
        }
        c = c + 1;
    }
    Ok(())
}

/// Finds the hoists that the directory with the path `prefix` and all
/// directories below it need, and adds them to `hoists`, those of a directory
/// after those of the directories below it. Every hoist moves a target to a
/// directory above its own on the target's own path. Where a topological order
/// exists at every directory as things stand, nothing is added. With `Err`
/// nothing was added either: the search for one group of directories would be
/// too large.
pub fn find_all_hoists_needed(
    hoists: &mut Vec<Hoist>,
    deps: &DepGraph,
    tree: &Tree,
    prefix: Vec<usize>,
) -> (r: Result<(), SearchTooLarge>)
    requires
        deps.wf(),
        tree.wf(),
        tree.has_dir(prefix@),
    ensures
        final(hoists)@.len() >= old(hoists)@.len(),
        final(hoists)@.take(old(hoists)@.len() as int) == old(hoists)@,
        match r {
            Ok(()) => dir_hoists(deps, tree, tree.dir_at(prefix@)) == Some(
                hoists_of(final(hoists)@).skip(old(hoists)@.len() as int),
            ),
            Err(_) => dir_hoists(deps, tree, tree.dir_at(prefix@)) is None && final(hoists)@
                == old(hoists)@,
        },
        forall|i: int|
            old(hoists)@.len() <= i < final(hoists)@.len() ==> is_valid_hoist(
                deps,
                tree,
                #[trigger] final(hoists)@[i],
            ),
        toposortable(deps, tree) ==> r is Ok && final(hoists)@ == old(hoists)@,
{
    let dir = match tree.get_subtree_from_prefix(&prefix) {
        Some(d) => d,
        None => {
            assert(false);
            0
        },
    };
    proof {
        tree.lemma_dir_at(dir as int);
    }
    let mut found: Vec<Hoist> = Vec::new();
    let r = fix_directory(&mut found, deps, tree, dir);
    if r.is_ok() {
        let ghost before = hoists@;
        let ghost added = found@;
        hoists.append(&mut found);
        proof {
            assert(hoists@.take(before.len() as int) =~= before);
            assert(hoists_of(hoists@).skip(before.len() as int) =~= hoists_of(added).skip(0));
        }
    }
    r
}

} // verus!
