use grouped_topo_sort::dir_graph::assert_toposort_possible;
use grouped_topo_sort::dir_graph::gen_dir_graph;
use grouped_topo_sort::dir_graph::itaid_from_node_to_folder;
use grouped_topo_sort::executor::check_hoists;
use grouped_topo_sort::executor::execute_hoists;
use grouped_topo_sort::fixer::find_all_hoists_needed;
use grouped_topo_sort::front_end_input::inner_parse;
use grouped_topo_sort::front_end_input::ImportedTarget;
use grouped_topo_sort::tree::verify_tree_graph;
use grouped_topo_sort::tree::DepGraph;
use grouped_topo_sort::tree::DirName;
use grouped_topo_sort::tree::Tree;

struct Rng(u64);

impl Rng {
    fn next(&mut self, bound: u64) -> u64 {
        self.0 = self.0.wrapping_mul(6364136223846793005).wrapping_add(1442695040888963407);
        (self.0 >> 33) % bound
    }
}

/// Targets whose dependencies all point to targets with a smaller number, so
/// that no cycle of targets can arise, in a tree of at most three levels with
/// at most three directories at each.
fn random_input(rng: &mut Rng) -> Vec<ImportedTarget> {
    let n = 2 + rng.next(7) as usize;
    let mut data = Vec::new();
    for i in 0..n {
        let mut ddeps = Vec::new();
        for j in 0..i {
            if rng.next(3) == 0 {
                ddeps.push(format!("t{}", j));
            }
        }
        let depth = rng.next(4);
        let mut ideal_path = Vec::new();
        for level in 0..depth {
            ideal_path.push(format!("d{}{}", level, rng.next(3)));
        }
        data.push(ImportedTarget { provides: format!("t{}", i), ddeps, ideal_path });
    }
    data
}

fn parsed(rng: &mut Rng) -> (DepGraph, Tree, Vec<DirName>) {
    let mut owner = Vec::new();
    let (deps, tree) = inner_parse(&mut owner, random_input(rng)).unwrap();
    (deps, tree, owner)
}

fn reaches(deps: &DepGraph, from: usize, to: usize) -> bool {
    let mut seen = vec![false; deps.nodes.len()];
    let mut stack = vec![from];
    while let Some(x) = stack.pop() {
        if x == to {
            return true;
        }
        if !seen[x] {
            seen[x] = true;
            for &(a, b) in &deps.edges {
                if a == x {
                    stack.push(b);
                }
            }
        }
    }
    false
}

fn has_cycle(nodes: usize, edges: &[(usize, usize)]) -> bool {
    // Remove nodes without incoming edges until none is left to remove.
    let mut alive = vec![true; nodes];
    loop {
        let mut removed = false;
        for x in 0..nodes {
            if alive[x] && !edges.iter().any(|&(a, b)| b == x && alive[a]) {
                alive[x] = false;
                removed = true;
            }
        }
        if !removed {
            return alive.iter().any(|&a| a);
        }
    }
}

#[test]
fn parsed_structures_agree() {
    let mut rng = Rng(1);
    for _ in 0..200 {
        let (deps, tree, _owner) = parsed(&mut rng);
        assert!(deps.check_wf());
        assert!(tree.check_wf());
        assert!(verify_tree_graph(&deps, &tree));
    }
}

#[test]
fn found_hoists_move_targets_up_their_own_paths() {
    let mut rng = Rng(2);
    for _ in 0..200 {
        let (deps, tree, _owner) = parsed(&mut rng);
        let mut hoists = Vec::new();
        find_all_hoists_needed(&mut hoists, &deps, &tree, vec![]).unwrap();
        assert!(check_hoists(&deps, &tree, &hoists));
        for hoist in &hoists {
            let path = &deps.nodes[hoist.target].path;
            assert!(hoist.chosen_path.len() < path.len());
            assert_eq!(hoist.chosen_path[..], path[..hoist.chosen_path.len()]);
        }
    }
}

#[test]
fn carrying_out_hoists_keeps_the_structures_in_step() {
    let mut rng = Rng(3);
    for _ in 0..200 {
        let (mut deps, mut tree, _owner) = parsed(&mut rng);
        let mut hoists = Vec::new();
        find_all_hoists_needed(&mut hoists, &deps, &tree, vec![]).unwrap();
        let names: Vec<String> = deps.nodes.iter().map(|n| n.provides.0.clone()).collect();
        let edges = deps.edges.clone();
        let dirs: Vec<Vec<usize>> = tree.dirs.iter().map(|d| d.path.clone()).collect();
        execute_hoists(&mut deps, &mut tree, &hoists);
        assert_eq!(names, deps.nodes.iter().map(|n| n.provides.0.clone()).collect::<Vec<_>>());
        assert_eq!(edges, deps.edges);
        assert_eq!(dirs, tree.dirs.iter().map(|d| d.path.clone()).collect::<Vec<_>>());
        assert!(tree.check_wf());
        assert!(verify_tree_graph(&deps, &tree));
    }
}

#[test]
fn legal_inputs_need_no_hoists() {
    let mut rng = Rng(4);
    let mut legal = 0;
    for _ in 0..300 {
        let (deps, tree, _owner) = parsed(&mut rng);
        let mut hoists = Vec::new();
        find_all_hoists_needed(&mut hoists, &deps, &tree, vec![]).unwrap();
        if assert_toposort_possible(&deps, &tree).is_ok() {
            legal += 1;
            assert!(hoists.is_empty());
        } else {
            assert!(!hoists.is_empty());
        }
    }
    assert!(legal > 0);
}

#[test]
fn the_check_agrees_with_peeling_off_free_nodes() {
    let mut rng = Rng(5);
    for _ in 0..200 {
        let (deps, tree, _owner) = parsed(&mut rng);
        let mut first_cycle = None;
        for d in 0..tree.dirs.len() {
            let local = gen_dir_graph(&deps, &tree, d);
            assert!(local.check_wf());
            if first_cycle.is_none() && has_cycle(local.nodes.len(), &local.edges) {
                first_cycle = Some(d);
            }
        }
        assert_eq!(assert_toposort_possible(&deps, &tree).err(), first_cycle);
    }
}

#[test]
fn reaching_a_folder_agrees_with_a_plain_search() {
    let mut rng = Rng(6);
    for _ in 0..100 {
        let (deps, tree, _owner) = parsed(&mut rng);
        for start in 0..deps.nodes.len() {
            for dir in &tree.dirs {
                let expected = (0..deps.nodes.len()).any(|x| {
                    reaches(&deps, start, x)
                        && deps.nodes[x].path.len() >= dir.path.len()
                        && deps.nodes[x].path[..dir.path.len()] == dir.path[..]
                });
                assert_eq!(itaid_from_node_to_folder(&deps, start, &dir.path), expected);
            }
        }
    }
}

#[test]
fn a_second_run_is_idle_wherever_the_first_one_sorted_all() {
    let mut rng = Rng(7);
    let mut sorted = 0;
    for _ in 0..300 {
        let (mut deps, mut tree, _owner) = parsed(&mut rng);
        let mut hoists = Vec::new();
        find_all_hoists_needed(&mut hoists, &deps, &tree, vec![]).unwrap();
        execute_hoists(&mut deps, &mut tree, &hoists);
        if assert_toposort_possible(&deps, &tree).is_ok() {
            sorted += 1;
            let mut again = Vec::new();
            find_all_hoists_needed(&mut again, &deps, &tree, vec![]).unwrap();
            assert!(again.is_empty());
        }
    }
    assert!(sorted > 0);
}
