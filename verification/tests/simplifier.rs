use grouped_topo_sort::hoists::FastHN;
use grouped_topo_sort::simplifier::enumerate_dirs;
use grouped_topo_sort::simplifier::has_edge;
use grouped_topo_sort::simplifier::hoist_singles_upward;
use grouped_topo_sort::simplifier::kill_common_prefix;
use grouped_topo_sort::simplifier::remove_always_happy;
use grouped_topo_sort::simplifier::remove_top_elements;
use grouped_topo_sort::simplifier::simple_simplifications;
use grouped_topo_sort::simplifier::Subproblem;

fn part(paths: &[&[usize]], edges: &[(usize, usize)]) -> Subproblem {
    Subproblem {
        targets: (0..paths.len()).map(|i| 100 + i).collect(),
        paths: paths.iter().map(|p| p.to_vec()).collect(),
        alive: vec![true; paths.len()],
        edges: edges.to_vec(),
    }
}

fn paths_of(part: &Subproblem) -> Vec<Vec<usize>> {
    part.paths.clone()
}

#[test]
fn a_node_alone_in_its_directory_moves_up() {
    let mut p = part(&[&[10, 11], &[10], &[12]], &[(0, 1), (0, 2), (2, 1)]);
    hoist_singles_upward(&mut p);
    assert_eq!(paths_of(&p), vec![vec![10], vec![10], vec![]]);
    assert_eq!(p.edges, vec![(0, 1), (0, 2), (2, 1)]);
    assert_eq!(p.targets, vec![100, 101, 102]);
}

#[test]
fn nodes_that_share_a_directory_stay() {
    let mut p = part(&[&[1, 2, 3], &[1, 2, 3], &[1, 2, 4, 5], &[1, 6]], &[]);
    hoist_singles_upward(&mut p);
    assert_eq!(paths_of(&p), vec![vec![1, 2, 3], vec![1, 2, 3], vec![1, 2], vec![1]]);
}

#[test]
fn moving_up_a_second_time_changes_nothing() {
    let mut p = part(&[&[1, 2, 3], &[1, 2, 7], &[1, 2, 4, 5], &[1, 6], &[8]], &[]);
    hoist_singles_upward(&mut p);
    let once = paths_of(&p);
    hoist_singles_upward(&mut p);
    assert_eq!(paths_of(&p), once);
}

#[test]
fn a_single_node_moves_to_the_top() {
    let mut p = part(&[&[1, 2, 3]], &[]);
    hoist_singles_upward(&mut p);
    assert_eq!(paths_of(&p), vec![Vec::<usize>::new()]);
}

#[test]
fn the_common_prefix_is_dropped() {
    let mut p = part(&[&[1, 2, 3], &[1, 2], &[1, 2, 4]], &[]);
    kill_common_prefix(&mut p);
    assert_eq!(paths_of(&p), vec![vec![3], vec![], vec![4]]);
    let mut p = part(&[&[1, 2], &[3, 2]], &[]);
    kill_common_prefix(&mut p);
    assert_eq!(paths_of(&p), vec![vec![1, 2], vec![3, 2]]);
    let mut p = part(&[], &[]);
    kill_common_prefix(&mut p);
    assert!(p.paths.is_empty());
}

#[test]
fn both_simple_reductions_in_turn() {
    let mut p = part(&[&[9, 10, 11], &[9, 10], &[9, 10, 12, 13], &[9, 10, 12, 14]], &[]);
    simple_simplifications(&mut p);
    assert_eq!(paths_of(&p), vec![vec![], vec![], vec![12], vec![12]]);
}

#[test]
fn a_node_above_all_directories_is_bypassed() {
    let mut p = part(&[&[5], &[], &[5]], &[(0, 1), (1, 2)]);
    let forced = FastHN::from_hn(remove_top_elements(&mut p));
    assert_eq!(p.alive, vec![true, false, true]);
    assert_eq!(p.edges, vec![(0, 2)]);
    assert_eq!(forced.0, vec![(false, [vec![0], vec![2]])]);
}

#[test]
fn a_bypass_between_two_directories_forces_nothing() {
    let mut p = part(&[&[5], &[], &[6], &[6]], &[(0, 1), (1, 2), (1, 3), (0, 2)]);
    let forced = FastHN::from_hn(remove_top_elements(&mut p));
    assert_eq!(p.alive, vec![true, false, true, true]);
    assert_eq!(p.edges, vec![(0, 2), (0, 3)]);
    assert!(forced.0.is_empty());
}

#[test]
fn a_chain_of_nodes_above_is_bypassed_link_by_link() {
    let mut p = part(&[&[5], &[], &[], &[5]], &[(0, 1), (1, 2), (2, 3)]);
    let forced = FastHN::from_hn(remove_top_elements(&mut p));
    assert_eq!(p.alive, vec![true, false, false, true]);
    assert_eq!(p.edges, vec![(0, 3)]);
    assert_eq!(forced.0, vec![(false, [vec![0], vec![3]])]);
}

#[test]
fn nodes_without_a_conflict_are_removed() {
    let mut p = part(&[&[1], &[2], &[3]], &[(0, 1)]);
    remove_always_happy(&mut p);
    assert_eq!(p.alive, vec![false, false, false]);
    assert!(p.edges.is_empty());
}

#[test]
fn nodes_on_a_cycle_through_their_directories_stay() {
    // 0 and 3 stand in directory 1, 1 and 2 in directory 2; 4 is apart.
    let mut p = part(&[&[1], &[2], &[2], &[1], &[3]], &[(0, 1), (2, 3), (4, 0)]);
    remove_always_happy(&mut p);
    assert_eq!(p.alive, vec![true, true, true, true, false]);
    assert_eq!(p.edges, vec![(0, 1), (2, 3)]);
}

#[test]
fn the_directories_come_in_the_order_of_their_first_node() {
    let mut p = part(&[&[7], &[3], &[7, 1], &[], &[5]], &[]);
    p.alive[4] = false;
    assert_eq!(enumerate_dirs(&p), vec![7, 3]);
}

#[test]
fn edges_are_found() {
    let edges = vec![(0, 1), (2, 3)];
    assert!(has_edge(&edges, 2, 3));
    assert!(!has_edge(&edges, 3, 2));
}
