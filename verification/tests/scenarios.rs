use grouped_topo_sort::dir_graph::assert_toposort_possible;
use grouped_topo_sort::executor::execute_hoists;
use grouped_topo_sort::fixer::find_all_hoists_needed;
use grouped_topo_sort::front_end_input::inner_parse;
use grouped_topo_sort::front_end_input::ImportedTarget;
use grouped_topo_sort::front_end_input::ParseError;
use grouped_topo_sort::tree::verify_tree_graph;
use grouped_topo_sort::tree::DepGraph;
use grouped_topo_sort::tree::DirName;
use grouped_topo_sort::tree::Hoist;
use grouped_topo_sort::tree::Tree;

fn target(provides: &str, ddeps: &[&str], ideal_path: &[&str]) -> ImportedTarget {
    ImportedTarget {
        provides: provides.to_string(),
        ddeps: ddeps.iter().map(|x| x.to_string()).collect(),
        ideal_path: ideal_path.iter().map(|x| x.to_string()).collect(),
    }
}

fn solve(dat: Vec<ImportedTarget>) -> (DepGraph, Tree, Vec<DirName>, Vec<Hoist>) {
    let mut owner = Vec::new();
    let (deps, tree) = inner_parse(&mut owner, dat).unwrap();
    assert!(verify_tree_graph(&deps, &tree));
    let mut hoists = Vec::new();
    find_all_hoists_needed(&mut hoists, &deps, &tree, vec![]).unwrap();
    (deps, tree, owner, hoists)
}

fn named(hoists: &Vec<Hoist>, deps: &DepGraph, owner: &Vec<DirName>) -> Vec<(String, Vec<String>)> {
    hoists
        .iter()
        .map(|h| {
            (
                deps.nodes[h.target].provides.0.clone(),
                h.chosen_path.iter().map(|&id| owner[id].0.clone()).collect(),
            )
        })
        .collect()
}

#[test]
fn classic_conflict_hoists_foo_to_top() {
    let (deps, _tree, owner, hoists) = solve(vec![
        target("foo", &["bar", "other"], &["top", "midShared", "bottom"]),
        target("bar", &[], &["top", "midShared"]),
        target("other", &["bar"], &["top", "midOther"]),
    ]);
    assert_eq!(
        named(&hoists, &deps, &owner),
        vec![("foo".to_string(), vec!["top".to_string()])]
    );
}

#[test]
fn already_legal_input_needs_no_hoists() {
    let (mut deps, mut tree, _owner, hoists) =
        solve(vec![target("a", &[], &["x"]), target("b", &[], &["y"])]);
    assert!(hoists.is_empty());
    execute_hoists(&mut deps, &mut tree, &hoists);
    assert!(assert_toposort_possible(&deps, &tree).is_ok());
}

#[test]
fn self_loop_is_a_cycle() {
    let mut owner = Vec::new();
    let r = inner_parse(&mut owner, vec![target("a", &["a"], &[])]);
    assert!(matches!(r, Err(ParseError::DepgraphCycle)));
}

#[test]
fn missing_dependency_is_named() {
    let mut owner = Vec::new();
    let r = inner_parse(&mut owner, vec![target("a", &["nope"], &[])]);
    match r {
        Err(e) => assert_eq!(
            e,
            ParseError::DependencyDoesNotExist("a".to_string(), "nope".to_string())
        ),
        Ok(_) => panic!("accepted"),
    }
}

#[test]
fn dependencies_inside_one_directory_need_no_hoists() {
    let (_deps, _tree, _owner, hoists) = solve(vec![
        target("a", &["b"], &["x"]),
        target("b", &["c"], &["x"]),
        target("c", &[], &["x"]),
    ]);
    assert!(hoists.is_empty());
}

#[test]
fn nested_cycle_needs_one_hoist() {
    let (mut deps, mut tree, _owner, hoists) = solve(vec![
        target("p", &["r"], &["A", "X"]),
        target("q", &[], &["A", "Y"]),
        target("r", &["q"], &["B"]),
    ]);
    assert_eq!(hoists.len(), 1);
    execute_hoists(&mut deps, &mut tree, &hoists);
    assert!(verify_tree_graph(&deps, &tree));
    assert!(assert_toposort_possible(&deps, &tree).is_ok());
}

#[test]
fn hoists_stay_on_the_path_of_their_target() {
    let (deps, tree, _owner, hoists) = solve(vec![
        target("p", &["r"], &["A", "X"]),
        target("q", &[], &["A", "Y"]),
        target("r", &["q"], &["B"]),
    ]);
    for hoist in &hoists {
        let path = &deps.nodes[hoist.target].path;
        assert!(hoist.chosen_path.len() <= path.len());
        assert_eq!(hoist.chosen_path[..], path[..hoist.chosen_path.len()]);
        assert!(tree.get_subtree_from_prefix(&hoist.chosen_path).is_some());
    }
}

#[test]
fn hoisting_keeps_targets_and_dependencies() {
    let (mut deps, mut tree, _owner, hoists) = solve(vec![
        target("foo", &["bar", "other"], &["top", "midShared", "bottom"]),
        target("bar", &[], &["top", "midShared"]),
        target("other", &["bar"], &["top", "midOther"]),
    ]);
    let names: Vec<String> = deps.nodes.iter().map(|n| n.provides.0.clone()).collect();
    let edges = deps.edges.clone();
    execute_hoists(&mut deps, &mut tree, &hoists);
    assert_eq!(names, deps.nodes.iter().map(|n| n.provides.0.clone()).collect::<Vec<_>>());
    assert_eq!(edges, deps.edges);
    assert_eq!(deps.nodes[0].path, hoists[0].chosen_path);
    assert!(verify_tree_graph(&deps, &tree));
}

#[test]
fn a_second_run_finds_nothing_more() {
    let (mut deps, mut tree, _owner, hoists) = solve(vec![
        target("foo", &["bar", "other"], &["top", "midShared", "bottom"]),
        target("bar", &[], &["top", "midShared"]),
        target("other", &["bar"], &["top", "midOther"]),
    ]);
    execute_hoists(&mut deps, &mut tree, &hoists);
    assert!(assert_toposort_possible(&deps, &tree).is_ok());
    let mut again = Vec::new();
    find_all_hoists_needed(&mut again, &deps, &tree, vec![]).unwrap();
    assert!(again.is_empty());
}

#[test]
fn a_hoist_between_two_directories_can_leave_a_cycle() {
    // `y` is the cheapest way to put `A` before `C` and `C` before `B`, and
    // once it stands at the top it still lies between `A` and `B`.
    let (mut deps, mut tree, owner, hoists) = solve(vec![
        target("x1", &["y"], &["A"]),
        target("x2", &["y"], &["A"]),
        target("v", &[], &["A"]),
        target("y", &["t1", "t2"], &["C"]),
        target("y2", &[], &["C"]),
        target("t1", &[], &["B"]),
        target("t2", &[], &["B"]),
        target("u", &["v"], &["B"]),
    ]);
    assert_eq!(named(&hoists, &deps, &owner), vec![("y".to_string(), vec![])]);
    execute_hoists(&mut deps, &mut tree, &hoists);
    assert!(verify_tree_graph(&deps, &tree));
    assert_eq!(assert_toposort_possible(&deps, &tree), Err(0));
}

#[test]
fn a_hoist_out_of_one_directory_can_split_the_other() {
    // `b` is the cheapest way out, but two targets of `A` depend on it and it
    // depends on a third: at the top it stands in the middle of `A`.
    let (mut deps, mut tree, owner, hoists) = solve(vec![
        target("x1", &["b"], &["A"]),
        target("x2", &["b"], &["A"]),
        target("y", &[], &["A"]),
        target("b", &["y"], &["B"]),
        target("b2", &[], &["B"]),
    ]);
    assert_eq!(named(&hoists, &deps, &owner), vec![("b".to_string(), vec![])]);
    execute_hoists(&mut deps, &mut tree, &hoists);
    assert_eq!(assert_toposort_possible(&deps, &tree), Err(0));
    // A second run takes the target at the top into account.
    let mut again = Vec::new();
    find_all_hoists_needed(&mut again, &deps, &tree, vec![]).unwrap();
    assert_eq!(named(&again, &deps, &owner), vec![("y".to_string(), vec![])]);
    execute_hoists(&mut deps, &mut tree, &again);
    assert_eq!(assert_toposort_possible(&deps, &tree), Ok(()));
}
