use grouped_topo_sort::dir_graph::assert_toposort_possible;
use grouped_topo_sort::dir_graph::gen_dir_graph;
use grouped_topo_sort::dir_graph::is_in_group;
use grouped_topo_sort::dir_graph::itaid_from_folder_to_folder;
use grouped_topo_sort::dir_graph::itaid_from_node_to_folder;
use grouped_topo_sort::dir_graph::DirOrSingle;
use grouped_topo_sort::executor::check_hoists;
use grouped_topo_sort::executor::execute_hoist;
use grouped_topo_sort::executor::execute_hoists;
use grouped_topo_sort::front_end_input::inner_parse;
use grouped_topo_sort::front_end_input::ImportedTarget;
use grouped_topo_sort::graph::BetterGraph;
use grouped_topo_sort::paths::find_position;
use grouped_topo_sort::paths::path_begins_with;
use grouped_topo_sort::paths::same_path;
use grouped_topo_sort::solver::hoist_and_verify;
use grouped_topo_sort::solver::name_hoists;
use grouped_topo_sort::solver::solve;
use grouped_topo_sort::solver::SolveError;
use grouped_topo_sort::front_end_input::ParseError;
use grouped_topo_sort::solver::HoistError;
use grouped_topo_sort::tree::verify_tree_graph;
use grouped_topo_sort::tree::DepGraph;
use grouped_topo_sort::tree::DirName;
use grouped_topo_sort::tree::Hoist;
use grouped_topo_sort::tree::Tree;

fn target(provides: &str, ddeps: &[&str], ideal_path: &[&str]) -> ImportedTarget {
    ImportedTarget {
        provides: provides.to_string(),
        ddeps: ddeps.iter().map(|x| x.to_string()).collect(),
        ideal_path: ideal_path.iter().map(|x| x.to_string()).collect(),
    }
}

fn classic() -> (DepGraph, Tree, Vec<DirName>) {
    let mut owner = Vec::new();
    let (deps, tree) = inner_parse(
        &mut owner,
        vec![
            target("foo", &["bar", "other"], &["top", "midShared", "bottom"]),
            target("bar", &[], &["top", "midShared"]),
            target("other", &["bar"], &["top", "midOther"]),
        ],
    )
    .unwrap();
    (deps, tree, owner)
}

#[test]
fn paths_begin_with_their_prefixes() {
    assert!(path_begins_with(&vec![1, 2, 3], &vec![1, 2]));
    assert!(path_begins_with(&vec![1, 2], &vec![1, 2]));
    assert!(path_begins_with(&vec![1, 2], &vec![]));
    assert!(!path_begins_with(&vec![1, 2], &vec![1, 2, 3]));
    assert!(!path_begins_with(&vec![1, 2, 3], &vec![1, 3]));
    assert!(same_path(&vec![4, 5], &vec![4, 5]));
    assert!(!same_path(&vec![4, 5], &vec![4]));
    assert_eq!(find_position(&vec![7, 8, 7], 7), Some(0));
    assert_eq!(find_position(&vec![7, 8, 7], 9), None);
}

#[test]
fn the_sibling_graph_joins_directories_whose_targets_depend_on_each_other() {
    let (deps, tree, _owner) = classic();
    let local = gen_dir_graph(&deps, &tree, 1);
    assert_eq!(local.nodes, vec![DirOrSingle::Dir(1), DirOrSingle::Dir(3)]);
    assert_eq!(local.edges, vec![(0, 1), (1, 0)]);
    let root = gen_dir_graph(&deps, &tree, 0);
    assert_eq!(root.nodes, vec![DirOrSingle::Dir(0)]);
    assert!(root.edges.is_empty());
}

#[test]
fn a_target_in_the_directory_itself_has_its_own_node() {
    let (deps, tree, _owner) = classic();
    let local = gen_dir_graph(&deps, &tree, 2);
    assert_eq!(local.nodes, vec![DirOrSingle::Dir(2), DirOrSingle::Single(1)]);
    assert_eq!(local.edges, vec![(0, 1)]);
}

#[test]
fn the_check_names_the_directory_that_is_out_of_order() {
    let (deps, tree, _owner) = classic();
    assert_eq!(assert_toposort_possible(&deps, &tree), Err(1));
}

#[test]
fn one_hoist_moves_one_target() {
    let (mut deps, mut tree, _owner) = classic();
    execute_hoist(&mut deps, &mut tree, &Hoist { target: 0, chosen_path: vec![0] });
    assert_eq!(deps.nodes[0].path, vec![0]);
    assert!(tree.dirs[3].targets.is_empty());
    assert_eq!(tree.dirs[1].targets, vec![0]);
    assert_eq!(tree.dirs[2].targets, vec![1]);
    assert!(verify_tree_graph(&deps, &tree));
    assert_eq!(assert_toposort_possible(&deps, &tree), Ok(()));
}

#[test]
fn of_two_hoists_of_one_target_the_last_counts() {
    let (mut deps, mut tree, _owner) = classic();
    let hoists = vec![
        Hoist { target: 0, chosen_path: vec![0, 1] },
        Hoist { target: 2, chosen_path: vec![0] },
        Hoist { target: 0, chosen_path: vec![] },
    ];
    execute_hoists(&mut deps, &mut tree, &hoists);
    assert!(deps.nodes[0].path.is_empty());
    assert_eq!(deps.nodes[2].path, vec![0]);
    assert_eq!(tree.dirs[0].targets, vec![0]);
    assert_eq!(tree.dirs[1].targets, vec![2]);
    assert_eq!(tree.dirs[2].targets, vec![1]);
    assert!(tree.dirs[3].targets.is_empty());
    assert!(tree.dirs[4].targets.is_empty());
    assert!(verify_tree_graph(&deps, &tree));
}

#[test]
fn a_hoist_to_where_the_target_stands_changes_nothing_but_the_order() {
    let (mut deps, mut tree, _owner) = classic();
    execute_hoist(&mut deps, &mut tree, &Hoist { target: 1, chosen_path: vec![0, 1] });
    assert_eq!(deps.nodes[1].path, vec![0, 1]);
    assert_eq!(tree.dirs[2].targets, vec![1]);
    assert!(verify_tree_graph(&deps, &tree));
}

#[test]
fn structures_that_disagree_are_detected() {
    let (mut deps, tree, _owner) = classic();
    deps.nodes[0].path = vec![0];
    assert!(!verify_tree_graph(&deps, &tree));
    let (deps, mut tree, _owner) = classic();
    tree.dirs[0].targets.push(1);
    assert!(!verify_tree_graph(&deps, &tree));
    let (deps, mut tree, _owner) = classic();
    tree.dirs[2].targets.push(1);
    assert!(!verify_tree_graph(&deps, &tree));
}

#[test]
fn the_whole_run_gives_hoists_that_sort_every_directory() {
    let (mut deps, mut tree, owner) = classic();
    let hoists = hoist_and_verify(&mut deps, &mut tree).unwrap();
    assert_eq!(hoists, vec![Hoist { target: 0, chosen_path: vec![0] }]);
    assert_eq!(deps.nodes[0].path, vec![0]);
    assert!(verify_tree_graph(&deps, &tree));
    let named = name_hoists(&hoists, &deps, &owner);
    assert_eq!(named.len(), 1);
    assert_eq!(named[0].0 .0, "foo");
    assert_eq!(named[0].1, vec![DirName("top".to_string())]);
}

#[test]
fn the_whole_run_reports_a_cycle_that_remains() {
    let mut owner = Vec::new();
    let (mut deps, mut tree) = inner_parse(
        &mut owner,
        vec![
            target("x1", &["y"], &["A"]),
            target("x2", &["y"], &["A"]),
            target("v", &[], &["A"]),
            target("y", &["t1", "t2"], &["C"]),
            target("y2", &[], &["C"]),
            target("t1", &[], &["B"]),
            target("t2", &[], &["B"]),
            target("u", &["v"], &["B"]),
        ],
    )
    .unwrap();
    assert_eq!(hoist_and_verify(&mut deps, &mut tree), Err(HoistError::CycleRemains(0)));
    assert!(deps.nodes[3].path.is_empty());
    assert!(verify_tree_graph(&deps, &tree));
}

#[test]
fn dependencies_on_folders_are_followed_through_other_targets() {
    let (deps, _tree, _owner) = classic();
    // other -> bar, and bar stands in top/midShared.
    assert!(is_in_group(&deps, 0, &vec![0, 1]));
    assert!(!is_in_group(&deps, 2, &vec![0, 1]));
    assert!(itaid_from_node_to_folder(&deps, 2, &vec![0, 1]));
    assert!(!itaid_from_node_to_folder(&deps, 1, &vec![0, 3]));
    assert!(itaid_from_node_to_folder(&deps, 1, &vec![0, 1]));
    assert!(itaid_from_folder_to_folder(&deps, &vec![0, 1, 2], &vec![0, 3]));
    assert!(!itaid_from_folder_to_folder(&deps, &vec![0, 3], &vec![0, 1, 2]));
}

#[test]
fn graphs_are_built_node_by_node() {
    let mut g: BetterGraph<u8> = BetterGraph::new();
    assert_eq!(g.add_node(7), 0);
    assert_eq!(g.add_node(8), 1);
    g.add_edge(0, 1);
    g.add_edge(0, 1);
    g.update_edge(0, 1);
    g.update_edge(1, 0);
    assert_eq!(g.nodes, vec![7, 8]);
    assert_eq!(g.edges, vec![(0, 1), (0, 1), (1, 0)]);
    let h = BetterGraph::from_nodes(vec![1u8, 2, 3]);
    assert_eq!(h.nodes.len(), 3);
    assert!(h.edges.is_empty());
}

#[test]
fn an_input_is_solved_by_name() {
    let named = solve(vec![
        target("foo", &["bar", "other"], &["top", "midShared", "bottom"]),
        target("bar", &[], &["top", "midShared"]),
        target("other", &["bar"], &["top", "midOther"]),
    ])
    .unwrap();
    assert_eq!(named.len(), 1);
    assert_eq!(named[0].0 .0, "foo");
    assert_eq!(named[0].1, vec![DirName("top".to_string())]);
    assert_eq!(solve(vec![]), Ok(vec![]));
}

#[test]
fn an_input_that_is_refused_is_not_solved() {
    assert_eq!(
        solve(vec![target("a", &["a"], &[])]),
        Err(SolveError::Parse(ParseError::DepgraphCycle))
    );
    assert_eq!(
        solve(vec![target("a", &["b"], &[])]),
        Err(SolveError::Parse(ParseError::DependencyDoesNotExist(
            "a".to_string(),
            "b".to_string()
        )))
    );
}

#[test]
fn a_ring_of_many_directories_is_too_large_to_search() {
    let n = 30;
    let mut data = Vec::new();
    for d in 0..n {
        let dir = format!("d{}", d);
        let next = format!("a{}", (d + 1) % n);
        data.push(target(&format!("a{}", d), &[], &[&dir]));
        data.push(target(&format!("b{}", d), &[&next], &[&dir]));
    }
    match solve(data) {
        Err(SolveError::Search(e)) => assert_eq!(e.dirs, 30),
        other => panic!("{:?}", other),
    }
}

#[test]
fn names_are_given_as_text() {
    assert_eq!(DirName("top".to_string()).to_text(), "top");
    assert_eq!(grouped_topo_sort::tree::TargetName("foo".to_string()).to_text(), "foo");
}

#[test]
fn a_tree_that_is_out_of_shape_is_detected() {
    let (deps, tree, _owner) = classic();
    assert!(tree.check_wf());
    assert!(deps.check_wf());
    assert!(Tree::new().check_wf());
    let mut broken = tree.clone();
    broken.dirs[4].path = vec![0, 1];
    assert!(!broken.check_wf());
    let mut broken = tree.clone();
    broken.dirs[1].subdirs = vec![2];
    assert!(!broken.check_wf());
    let mut broken = tree.clone();
    broken.dirs[0].subdirs = vec![1, 4];
    assert!(!broken.check_wf());
    let mut broken = tree.clone();
    broken.dirs[0].path = vec![0];
    assert!(!broken.check_wf());
    assert!(!Tree { dirs: vec![] }.check_wf());
    let mut broken = deps.clone();
    broken.edges.push((0, 3));
    assert!(!broken.check_wf());
}

#[test]
fn hoists_that_cannot_be_carried_out_are_detected() {
    let (deps, tree, _owner) = classic();
    assert!(check_hoists(&deps, &tree, &vec![Hoist { target: 2, chosen_path: vec![0, 1] }]));
    assert!(!check_hoists(&deps, &tree, &vec![Hoist { target: 3, chosen_path: vec![] }]));
    assert!(!check_hoists(&deps, &tree, &vec![Hoist { target: 0, chosen_path: vec![1] }]));
    assert!(check_hoists(&deps, &tree, &vec![]));
}

#[test]
fn the_whole_run_changes_nothing_where_a_search_is_too_large() {
    let n = 30;
    let mut data = Vec::new();
    for d in 0..n {
        let dir = format!("d{}", d);
        let next = format!("a{}", (d + 1) % n);
        data.push(target(&format!("a{}", d), &[], &[&dir]));
        data.push(target(&format!("b{}", d), &[&next], &[&dir]));
    }
    let mut owner = Vec::new();
    let (mut deps, mut tree) = inner_parse(&mut owner, data).unwrap();
    let paths: Vec<Vec<usize>> = deps.nodes.iter().map(|n| n.path.clone()).collect();
    match hoist_and_verify(&mut deps, &mut tree) {
        Err(HoistError::SearchTooLarge(e)) => assert_eq!(e.dirs, 30),
        other => panic!("{:?}", other),
    }
    assert_eq!(paths, deps.nodes.iter().map(|n| n.path.clone()).collect::<Vec<_>>());
    assert!(verify_tree_graph(&deps, &tree));
}

#[test]
fn an_input_that_is_no_list_of_targets_has_its_own_error() {
    assert_ne!(ParseError::InvalidJson, ParseError::DepgraphCycle);
}
