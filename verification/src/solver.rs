//! The whole run: find the hoists, carry them out, and check that every
//! directory can now be put in order.

use crate::dir_graph::assert_toposort_possible;
use crate::dir_graph::sibling_edges;
use crate::dir_graph::toposortable;
use crate::executor::dir_paths;
use crate::executor::dir_subdirs;
use crate::executor::dir_targets;
use crate::executor::execute_hoists;
use crate::executor::executed;
use crate::fixer::dir_hoists;
use crate::fixer::find_all_hoists_needed;
use crate::fixer::is_valid_hoist;
use crate::fixer::lemma_legal_needs_no_hoists;
use crate::fixer::SearchTooLarge;
use crate::front_end_input::all_known;
use crate::front_end_input::inner_parse;
use crate::front_end_input::is_first_unknown;
use crate::front_end_input::is_parse_of;
use crate::front_end_input::parsed_edges;
use crate::front_end_input::path_names;
use crate::front_end_input::pool_names;
use crate::front_end_input::pooled;
use crate::front_end_input::provided;
use crate::front_end_input::ImportedTarget;
use crate::front_end_input::ParseError;
use crate::graph::acyclic;
use crate::tree::consistent;
use crate::tree::hoists_of;
use crate::tree::target_names;
use crate::tree::target_paths;
use crate::tree::DepGraph;
use crate::tree::DirName;
use crate::tree::Hoist;
use crate::tree::TargetName;
use crate::tree::Tree;
use vstd::prelude::*;

verus! {

/// Why a run gave no usable list of hoists.
#[derive(Debug, Clone, Copy, PartialEq, Eq)]
pub enum HoistError {
    /// A search was too large to start; nothing was changed.
    SearchTooLarge(SearchTooLarge),
    /// The hoists were carried out, and the sibling graph of the directory with
    /// this number still has a cycle.
    CycleRemains(usize),
}

/// Finds the hoists for the whole tree, carries them out, and checks that a
/// topological order now exists at every directory. The solver fixes each
/// level on its own, so the check can fail: then the hoists are not a solution,
/// and `CycleRemains` names a directory that is still out of order.
pub fn hoist_and_verify(deps: &mut DepGraph, tree: &mut Tree) -> (r: Result<Vec<Hoist>, HoistError>)
    requires
        old(deps).wf(),
        old(tree).wf(),
        consistent(old(deps), old(tree)),
    ensures
        final(deps).wf(),
        final(tree).wf(),
        consistent(final(deps), final(tree)),
        final(deps).edges == old(deps).edges,
        target_names(final(deps)) == target_names(old(deps)),
        dir_paths(final(tree)) == dir_paths(old(tree)),
        dir_subdirs(final(tree)) == dir_subdirs(old(tree)),
        match r {
            Ok(hoists) => {
                &&& dir_hoists(old(deps), old(tree), 0) == Some(hoists_of(hoists@))
                &&& forall|i: int|
                    0 <= i < hoists@.len() ==> is_valid_hoist(
                        old(deps),
                        old(tree),
                        #[trigger] hoists@[i],
                    )
                &&& (target_paths(final(deps)), dir_targets(final(tree))) == executed(
                    dir_paths(old(tree)),
                    target_paths(old(deps)),
                    dir_targets(old(tree)),
                    hoists_of(hoists@),
                    hoists@.len() as int,
                )
                &&& toposortable(final(deps), final(tree))
            },
            Err(HoistError::SearchTooLarge(_)) => {
                &&& dir_hoists(old(deps), old(tree), 0) is None
                &&& *final(deps) == *old(deps)
                &&& *final(tree) == *old(tree)
            },
            Err(HoistError::CycleRemains(d)) => {
                &&& dir_hoists(old(deps), old(tree), 0) matches Some(found)
                &&& (target_paths(final(deps)), dir_targets(final(tree))) == executed(
                    dir_paths(old(tree)),
                    target_paths(old(deps)),
                    dir_targets(old(tree)),
                    found,
                    found.len() as int,
                )
                &&& d < final(tree).dirs@.len()
                &&& !acyclic(sibling_edges(final(deps), final(tree), d as int).to_set())
            },
        },
{
    let mut hoists: Vec<Hoist> = Vec::new();
    proof {
        tree.lemma_dir_at(0);
        assert(tree.dirs@[0].path@ =~= Seq::<usize>::empty());
    }
    let prefix: Vec<usize> = Vec::new();
    assert(prefix@ =~= tree.dirs@[0].path@);
    match find_all_hoists_needed(&mut hoists, deps, tree, prefix) {
        Err(e) => {
            return Err(HoistError::SearchTooLarge(e));
        },
        Ok(()) => {},
    }
    assert(hoists_of(hoists@).skip(0) =~= hoists_of(hoists@));
    execute_hoists(deps, tree, &hoists);
    match assert_toposort_possible(deps, tree) {
        Err(d) => Err(HoistError::CycleRemains(d)),
        Ok(()) => Ok(hoists),
    }
}

/// Running the solver again on what its hoists have made finds nothing more,
/// where a topological order exists at every directory after the hoists.
pub proof fn lemma_second_run_finds_nothing(
    deps: &DepGraph,
    tree: &Tree,
    deps_after: &DepGraph,
    tree_after: &Tree,
)
    requires
        dir_hoists(deps, tree, 0) is Some,
        deps_after.edges@ == deps.edges@,
        dir_paths(tree_after) == dir_paths(tree),
        dir_subdirs(tree_after) == dir_subdirs(tree),
        tree.dirs@.len() >= 1,
        (target_paths(deps_after), dir_targets(tree_after)) == executed(
            dir_paths(tree),
            target_paths(deps),
            dir_targets(tree),
            dir_hoists(deps, tree, 0)->0,
            dir_hoists(deps, tree, 0)->0.len() as int,
        ),
        toposortable(deps_after, tree_after),
    ensures
        dir_hoists(deps_after, tree_after, 0) == Some(Seq::<(usize, Seq<usize>)>::empty()),
{
    assert(dir_paths(tree_after).len() == tree_after.dirs@.len());
    assert(dir_paths(tree).len() == tree.dirs@.len());
    lemma_legal_needs_no_hoists(deps_after, tree_after, 0);
}

/// Whether the numbers of the path are numbers of names of the pool.
pub open spec fn in_pool(path: Seq<usize>, pool_len: nat) -> bool {
    forall|j: int| 0 <= j < path.len() ==> (#[trigger] path[j]) < pool_len
}

/// The hoists with names in place of numbers: of each the name of the target
/// and the names of the segments of the path that it is moved to.
pub fn name_hoists(hoists: &Vec<Hoist>, deps: &DepGraph, owner: &Vec<DirName>) -> (r: Vec<
    (TargetName, Vec<DirName>),
>)
    requires
        forall|i: int|
            0 <= i < hoists@.len() ==> (#[trigger] hoists@[i]).target < deps.nodes@.len()
                && in_pool(hoists@[i].chosen_path@, owner@.len()),
    ensures
        r@.len() == hoists@.len(),
        forall|i: int|
            0 <= i < r@.len() ==> (#[trigger] r@[i]).0.0@
                == deps.nodes@[hoists@[i].target as int].provides.0@ && pool_names(r@[i].1@)
                == path_names(pool_names(owner@), hoists@[i].chosen_path@),
{
    let mut r: Vec<(TargetName, Vec<DirName>)> = Vec::new();
    let mut i: usize = 0;
    while i < hoists.len()
        invariant
            i <= hoists@.len(),
            r@.len() == i,
            forall|t: int|
                0 <= t < hoists@.len() ==> (#[trigger] hoists@[t]).target < deps.nodes@.len()
                    && in_pool(hoists@[t].chosen_path@, owner@.len()),
            forall|t: int|
                0 <= t < i ==> (#[trigger] r@[t]).0.0@
                    == deps.nodes@[hoists@[t].target as int].provides.0@ && pool_names(r@[t].1@)
                    == path_names(pool_names(owner@), hoists@[t].chosen_path@),
        decreases hoists@.len() - i,
    {
        let hoist = &hoists[i];
        let mut names: Vec<DirName> = Vec::new();
        let mut j: usize = 0;
        while j < hoist.chosen_path.len()
            invariant
                j <= hoist.chosen_path@.len(),
                in_pool(hoist.chosen_path@, owner@.len()),
                names@.len() == j,
                forall|t: int|
                    0 <= t < j ==> (#[trigger] names@[t]).0@
                        == owner@[hoist.chosen_path@[t] as int].0@,
            decreases hoist.chosen_path@.len() - j,
        {
            let id = hoist.chosen_path[j];
            names.push(DirName(owner[id].0.clone()));
            j = j + 1;
        }
        assert(pool_names(names@) =~= path_names(pool_names(owner@), hoist.chosen_path@));
        r.push((TargetName(deps.nodes[hoist.target].provides.0.clone()), names));
        i = i + 1;
    }
    r
}

/// Why no hoists were found for an input.
#[derive(Debug, Clone, PartialEq, Eq)]
pub enum SolveError {
    /// The input was refused.
    Parse(ParseError),
    /// A search was too large to start.
    Search(SearchTooLarge),
}

/// The names of hoists: of each the name of its target and the names of the
/// segments of its path.
pub open spec fn names_of(
    hoists: Seq<(usize, Seq<usize>)>,
    targets: Seq<Seq<char>>,
    pool: Seq<Seq<char>>,
) -> Seq<(Seq<char>, Seq<Seq<char>>)> {
    Seq::new(hoists.len(), |i: int| (targets[hoists[i].0 as int], path_names(pool, hoists[i].1)))
}

/// What named hoists hold.
pub open spec fn named_view(named: Seq<(TargetName, Vec<DirName>)>) -> Seq<
    (Seq<char>, Seq<Seq<char>>),
> {
    Seq::new(named.len(), |i: int| (named[i].0.0@, pool_names(named[i].1@)))
}

/// The hoists for a list of targets, by name: the graph and the tree are made
/// from the list, and the solver is run on the whole tree. The hoists are not
/// carried out.
pub fn solve(dat: Vec<ImportedTarget>) -> (r: Result<Vec<(TargetName, Vec<DirName>)>, SolveError>)
    requires
        provided(dat@).no_duplicates(),
    ensures
        match r {
            Ok(named) => all_known(dat@) && acyclic(
                parsed_edges(dat@, dat@.len() as int).to_set(),
            ) && exists|deps: DepGraph, tree: Tree|
                {
                    &&& #[trigger] is_parse_of(
                        dat@,
                        pooled(Seq::empty(), dat@, dat@.len() as int),
                        &deps,
                        &tree,
                    )
                    &&& dir_hoists(&deps, &tree, 0) matches Some(found)
                    &&& named_view(named@) == names_of(
                        found,
                        provided(dat@),
                        pooled(Seq::empty(), dat@, dat@.len() as int),
                    )
                },
            Err(SolveError::Search(_)) => all_known(dat@) && acyclic(
                parsed_edges(dat@, dat@.len() as int).to_set(),
            ) && exists|deps: DepGraph, tree: Tree|
                {
                    &&& #[trigger] is_parse_of(
                        dat@,
                        pooled(Seq::empty(), dat@, dat@.len() as int),
                        &deps,
                        &tree,
                    )
                    &&& dir_hoists(&deps, &tree, 0) is None
                },
            Err(SolveError::Parse(ParseError::DependencyDoesNotExist(from, to))) => exists|
                i: int,
                j: int,
            |
                #[trigger] is_first_unknown(dat@, i, j) && from@ == dat@[i].provides@ && to@
                    == dat@[i].ddeps@[j]@,
            Err(SolveError::Parse(ParseError::DepgraphCycle)) => all_known(dat@) && !acyclic(
                parsed_edges(dat@, dat@.len() as int).to_set(),
            ),
            Err(SolveError::Parse(ParseError::InvalidJson)) => false,
        },
{
    let mut owner: Vec<DirName> = Vec::new();
    assert(pool_names(owner@) =~= Seq::<Seq<char>>::empty());
    let (deps, tree) = match inner_parse(&mut owner, dat) {
        Ok(made) => made,
        Err(e) => {
            return Err(SolveError::Parse(e));
        },
    };
    let ghost pool = pool_names(owner@);
    let mut hoists: Vec<Hoist> = Vec::new();
    proof {
        tree.lemma_dir_at(0);
        assert(tree.dirs@[0].path@ =~= Seq::<usize>::empty());
    }
    let prefix: Vec<usize> = Vec::new();
    assert(prefix@ =~= tree.dirs@[0].path@);
    match find_all_hoists_needed(&mut hoists, &deps, &tree, prefix) {
        Err(e) => {
            assert(is_parse_of(dat@, pool, &deps, &tree));
            return Err(SolveError::Search(e));
        },
        Ok(()) => {},
    }
    let ghost found = hoists_of(hoists@);
    assert(hoists_of(hoists@).skip(0) =~= found);
    proof {
        assert forall|i: int| 0 <= i < hoists@.len() implies (#[trigger] hoists@[i]).target
            < deps.nodes@.len() && in_pool(hoists@[i].chosen_path@, owner@.len()) by {
            let h = hoists@[i];
            assert(is_valid_hoist(&deps, &tree, h));
            let path = deps.nodes@[h.target as int].path@;
            assert forall|j: int| 0 <= j < h.chosen_path@.len() implies (
            #[trigger] h.chosen_path@[j]) < owner@.len() by {
                assert(crate::tree::target_names(&deps).len() == provided(dat@).len());
                assert(h.target < dat@.len());
                assert(j < path.len());
                assert(deps.nodes@[h.target as int].path@[j] < pool.len());
                assert(h.chosen_path@[j] == path[j]);
            }
        }
    }
    let named = name_hoists(&hoists, &deps, &owner);
    proof {
        assert(named_view(named@) =~= names_of(found, provided(dat@), pool)) by {
            assert forall|i: int| 0 <= i < named@.len() implies named_view(named@)[i] == names_of(
                found,
                provided(dat@),
                pool,
            )[i] by {
                assert(crate::tree::target_names(&deps)[hoists@[i].target as int]
                    == deps.nodes@[hoists@[i].target as int].provides.0@);
            }
        }
        assert(is_parse_of(dat@, pool, &deps, &tree));
    }
    Ok(named)
}

} // verus!
