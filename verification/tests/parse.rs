use grouped_topo_sort::front_end_input::from_fuzz_input;
use grouped_topo_sort::front_end_input::inner_parse;
use grouped_topo_sort::front_end_input::provides_are_distinct;
use grouped_topo_sort::front_end_input::simplify;
use grouped_topo_sort::front_end_input::FuzzInput;
use grouped_topo_sort::front_end_input::ImportedTarget;
use grouped_topo_sort::front_end_input::ParseError;
use grouped_topo_sort::tree::get_node_index;
use grouped_topo_sort::tree::verify_tree_graph;
use grouped_topo_sort::tree::DirName;
use grouped_topo_sort::tree::TargetName;

fn target(provides: &str, ddeps: &[&str], ideal_path: &[&str]) -> ImportedTarget {
    ImportedTarget {
        provides: provides.to_string(),
        ddeps: ddeps.iter().map(|x| x.to_string()).collect(),
        ideal_path: ideal_path.iter().map(|x| x.to_string()).collect(),
    }
}

fn classic() -> Vec<ImportedTarget> {
    vec![
        target("foo", &["bar", "other"], &["top", "midShared", "bottom"]),
        target("bar", &[], &["top", "midShared"]),
        target("other", &["bar"], &["top", "midOther"]),
    ]
}

#[test]
fn the_graph_holds_the_targets_and_their_dependencies() {
    let mut owner = Vec::new();
    let (deps, _tree) = inner_parse(&mut owner, classic()).unwrap();
    let names: Vec<&str> = deps.nodes.iter().map(|n| n.provides.0.as_str()).collect();
    assert_eq!(names, vec!["foo", "bar", "other"]);
    assert_eq!(deps.edges, vec![(0, 1), (0, 2), (2, 1)]);
    assert_eq!(deps.nodes[0].path, vec![0, 1, 2]);
    assert_eq!(deps.nodes[1].path, vec![0, 1]);
    assert_eq!(deps.nodes[2].path, vec![0, 3]);
}

#[test]
fn the_pool_holds_each_directory_name_once() {
    let mut owner = Vec::new();
    inner_parse(&mut owner, classic()).unwrap();
    let names: Vec<&str> = owner.iter().map(|d| d.0.as_str()).collect();
    assert_eq!(names, vec!["top", "midShared", "bottom", "midOther"]);
}

#[test]
fn a_pool_that_is_in_use_is_extended() {
    let mut owner = vec![DirName("midOther".to_string()), DirName("x".to_string())];
    let (deps, _tree) = inner_parse(&mut owner, classic()).unwrap();
    let names: Vec<&str> = owner.iter().map(|d| d.0.as_str()).collect();
    assert_eq!(names, vec!["midOther", "x", "top", "midShared", "bottom"]);
    assert_eq!(deps.nodes[2].path, vec![2, 0]);
}

#[test]
fn the_tree_holds_every_directory_on_the_way() {
    let mut owner = Vec::new();
    let (deps, tree) = inner_parse(&mut owner, classic()).unwrap();
    let paths: Vec<Vec<usize>> = tree.dirs.iter().map(|d| d.path.clone()).collect();
    assert_eq!(paths, vec![vec![], vec![0], vec![0, 1], vec![0, 1, 2], vec![0, 3]]);
    let subdirs: Vec<Vec<usize>> = tree.dirs.iter().map(|d| d.subdirs.clone()).collect();
    assert_eq!(subdirs, vec![vec![1], vec![2, 4], vec![3], vec![], vec![]]);
    let targets: Vec<Vec<usize>> = tree.dirs.iter().map(|d| d.targets.clone()).collect();
    assert_eq!(targets, vec![vec![], vec![], vec![1], vec![0], vec![2]]);
    assert!(verify_tree_graph(&deps, &tree));
    assert_eq!(tree.get_subtree_from_prefix(&vec![0, 3]), Some(4));
    assert_eq!(tree.get_subtree_from_prefix(&vec![3]), None);
}

#[test]
fn a_target_at_the_root_stands_in_the_root() {
    let mut owner = Vec::new();
    let (deps, tree) = inner_parse(&mut owner, vec![target("a", &[], &[])]).unwrap();
    assert_eq!(tree.dirs.len(), 1);
    assert_eq!(tree.dirs[0].targets, vec![0]);
    assert!(deps.nodes[0].path.is_empty());
    assert!(owner.is_empty());
}

#[test]
fn a_dependency_named_twice_gives_one_edge() {
    let mut owner = Vec::new();
    let (deps, _tree) = inner_parse(
        &mut owner,
        vec![target("a", &["b", "c", "b"], &[]), target("b", &[], &[]), target("c", &[], &[])],
    )
    .unwrap();
    assert_eq!(deps.edges, vec![(0, 1), (0, 2)]);
}

#[test]
fn the_first_missing_dependency_is_reported() {
    let mut owner = Vec::new();
    let r = inner_parse(
        &mut owner,
        vec![
            target("a", &["b"], &[]),
            target("b", &["a", "x", "y"], &[]),
            target("c", &["z"], &[]),
        ],
    );
    assert_eq!(
        r.err(),
        Some(ParseError::DependencyDoesNotExist("b".to_string(), "x".to_string()))
    );
}

#[test]
fn a_missing_dependency_comes_before_a_cycle() {
    let mut owner = Vec::new();
    let r = inner_parse(&mut owner, vec![target("a", &["a", "nope"], &[])]);
    assert_eq!(
        r.err(),
        Some(ParseError::DependencyDoesNotExist("a".to_string(), "nope".to_string()))
    );
}

#[test]
fn a_cycle_of_three_targets_is_refused() {
    let mut owner = Vec::new();
    let r = inner_parse(
        &mut owner,
        vec![
            target("a", &["b"], &["x"]),
            target("b", &["c"], &["y"]),
            target("c", &["a"], &["z"]),
        ],
    );
    assert_eq!(r.err(), Some(ParseError::DepgraphCycle));
}

#[test]
fn names_that_occur_twice_are_detected() {
    assert!(provides_are_distinct(&classic()));
    let mut twice = classic();
    twice.push(target("bar", &[], &[]));
    assert!(!provides_are_distinct(&twice));
    assert!(provides_are_distinct(&vec![]));
}

#[test]
fn targets_are_found_by_name() {
    let mut owner = Vec::new();
    let (deps, _tree) = inner_parse(&mut owner, classic()).unwrap();
    assert_eq!(get_node_index(&deps, &TargetName("other".to_string())), Some(2));
    assert_eq!(get_node_index(&deps, &TargetName("top".to_string())), None);
}

#[test]
fn random_input_is_named_by_its_numbers() {
    let input = vec![
        FuzzInput { ddeps: vec![1, 200], ideal_path: vec![0, 10] },
        FuzzInput { ddeps: vec![], ideal_path: vec![] },
    ];
    let data = from_fuzz_input(&input);
    assert_eq!(data.len(), 2);
    assert_eq!(data[0].provides, "0");
    assert_eq!(data[0].ddeps, vec!["1", "200"]);
    assert_eq!(data[0].ideal_path, vec!["0", "10"]);
    assert_eq!(data[1].provides, "1");
    assert!(data[1].ddeps.is_empty());
    assert!(data[1].ideal_path.is_empty());
}

#[test]
fn many_targets_get_many_digits() {
    let input: Vec<FuzzInput> =
        (0..120).map(|_| FuzzInput { ddeps: vec![], ideal_path: vec![] }).collect();
    let data = from_fuzz_input(&input);
    assert_eq!(data[9].provides, "9");
    assert_eq!(data[10].provides, "10");
    assert_eq!(data[119].provides, "119");
    assert!(provides_are_distinct(&data));
}

#[test]
fn idle_targets_and_repeated_dependencies_are_dropped() {
    let data = vec![
        target("a", &["b", "b", "c", "b"], &["x"]),
        target("b", &[], &["y"]),
        target("c", &[], &[]),
        target("d", &[], &["z"]),
    ];
    let kept = simplify(data);
    let names: Vec<&str> = kept.iter().map(|x| x.provides.as_str()).collect();
    assert_eq!(names, vec!["a", "b", "c"]);
    assert_eq!(kept[0].ddeps, vec!["b", "c", "b"]);
    assert_eq!(kept[0].ideal_path, vec!["x"]);
    assert_eq!(kept[1].ideal_path, vec!["y"]);
}
