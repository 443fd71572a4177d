use grouped_topo_sort::fixer::find_hoists_needed_for_subgraph;
use grouped_topo_sort::hoists::FastHN;
use grouped_topo_sort::search::all_pair_costs;
use grouped_topo_sort::search::cheapest_order;
use grouped_topo_sort::search::cost_of_dir_a_before_dir_b;
use grouped_topo_sort::search::cost_of_order;
use grouped_topo_sort::search::time_complexity_steps;
use grouped_topo_sort::simplifier::Subproblem;
use grouped_topo_sort::tree::Hoist;
use std::collections::HashSet;

fn part(paths: &[&[usize]], edges: &[(usize, usize)]) -> Subproblem {
    Subproblem {
        targets: (0..paths.len()).map(|i| 100 + i).collect(),
        paths: paths.iter().map(|p| p.to_vec()).collect(),
        alive: vec![true; paths.len()],
        edges: edges.to_vec(),
    }
}

fn clause(first: &[usize], second: &[usize]) -> (bool, [Vec<usize>; 2]) {
    (false, [first.to_vec(), second.to_vec()])
}

#[test]
fn an_edge_against_the_order_costs_one_of_its_ends() {
    let p = part(&[&[1], &[2]], &[(0, 1)]);
    let cost = FastHN::from_hn(cost_of_dir_a_before_dir_b(&p, 1, 2));
    assert_eq!(cost.0, vec![clause(&[0], &[1])]);
    let cost = FastHN::from_hn(cost_of_dir_a_before_dir_b(&p, 2, 1));
    assert!(cost.0.is_empty());
}

#[test]
fn an_end_is_hoisted_with_what_hangs_on_it_in_its_directory() {
    // 1 depends on 0 inside directory 1; 2 depends on 3 inside directory 2.
    let p = part(&[&[1], &[1], &[2], &[2], &[1]], &[(1, 0), (0, 2), (2, 3)]);
    let cost = FastHN::from_hn(cost_of_dir_a_before_dir_b(&p, 1, 2));
    assert_eq!(cost.0, vec![clause(&[0, 1], &[2, 3])]);
}

#[test]
fn a_directory_before_itself_costs_nothing() {
    let p = part(&[&[1], &[1]], &[(0, 1)]);
    let cost = FastHN::from_hn(cost_of_dir_a_before_dir_b(&p, 1, 1));
    assert!(cost.0.is_empty());
}

#[test]
fn the_table_holds_every_pair() {
    let p = part(&[&[1], &[2]], &[(0, 1)]);
    let table = all_pair_costs(&p, &vec![1, 2]);
    assert_eq!(table.len(), 2);
    assert!(table[0][0].0.is_empty());
    assert_eq!(table[0][1].0, vec![clause(&[0], &[1])]);
    assert!(table[1][0].0.is_empty());
    assert!(table[1][1].0.is_empty());
}

#[test]
fn an_order_pays_for_the_pairs_that_it_puts_in_order() {
    let table = vec![
        vec![FastHN(vec![]), FastHN(vec![clause(&[0], &[1])])],
        vec![FastHN(vec![clause(&[2], &[3]), clause(&[2], &[4])]), FastHN(vec![])],
    ];
    let always = FastHN(vec![]);
    assert_eq!(cost_of_order(5, &table, &vec![0, 1], &always), HashSet::from([0]));
    assert_eq!(cost_of_order(5, &table, &vec![1, 0], &always), HashSet::from([2]));
    let always = FastHN(vec![clause(&[4], &[3])]);
    assert_eq!(cost_of_order(5, &table, &vec![0, 1], &always), HashSet::from([0, 4]));
}

#[test]
fn a_directory_that_the_order_leaves_out_counts_as_first() {
    let table = vec![
        vec![FastHN(vec![]), FastHN(vec![clause(&[0], &[1])])],
        vec![FastHN(vec![clause(&[2], &[3])]), FastHN(vec![])],
    ];
    let always = FastHN(vec![]);
    assert_eq!(cost_of_order(4, &table, &vec![1], &always), HashSet::from([0]));
    assert_eq!(cost_of_order(4, &table, &vec![], &always), HashSet::new());
}

#[test]
fn the_cheapest_order_is_no_dearer_than_any_other() {
    let table = vec![
        vec![FastHN(vec![]), FastHN(vec![clause(&[0], &[1]), clause(&[2], &[3])])],
        vec![FastHN(vec![clause(&[4], &[5])]), FastHN(vec![])],
    ];
    let always = FastHN(vec![]);
    let orders = vec![vec![0, 1], vec![1, 0]];
    let best = cheapest_order(6, &table, &orders, &always);
    assert_eq!(best, HashSet::from([4]));
    for order in &orders {
        assert!(best.len() <= cost_of_order(6, &table, order, &always).len());
    }
}

#[test]
fn of_equally_cheap_orders_the_first_wins() {
    let table = vec![
        vec![FastHN(vec![]), FastHN(vec![clause(&[0], &[1])])],
        vec![FastHN(vec![clause(&[2], &[3])]), FastHN(vec![])],
    ];
    let always = FastHN(vec![]);
    assert_eq!(
        cheapest_order(4, &table, &vec![vec![1, 0], vec![0, 1]], &always),
        HashSet::from([2])
    );
    assert_eq!(
        cheapest_order(4, &table, &vec![vec![0, 1], vec![1, 0]], &always),
        HashSet::from([0])
    );
}

#[test]
fn the_steps_are_a_factorial_times_a_square() {
    assert_eq!(time_complexity_steps(0), Some(0));
    assert_eq!(time_complexity_steps(1), Some(1));
    assert_eq!(time_complexity_steps(2), Some(4));
    assert_eq!(time_complexity_steps(4), Some(96));
    assert_eq!(time_complexity_steps(10), Some(36288000));
    assert_eq!(time_complexity_steps(40), None);
}

#[test]
fn a_group_of_two_directories_gets_the_cheaper_order() {
    // Directory 1 holds 0, 1 and 2, directory 2 holds 3 and 4. Three edges
    // lead from directory 1 to 3, one leads back from 4 to 0.
    let p = part(&[&[1], &[1], &[1], &[2], &[2]], &[(0, 3), (1, 3), (2, 3), (4, 0)]);
    let mut hoists = vec![Hoist { target: 7, chosen_path: vec![] }];
    let r = find_hoists_needed_for_subgraph(&mut hoists, &vec![42], p);
    assert!(r.is_ok());
    assert_eq!(
        hoists,
        vec![
            Hoist { target: 7, chosen_path: vec![] },
            Hoist { target: 103, chosen_path: vec![42] }
        ]
    );
}

#[test]
fn a_group_with_too_many_directories_is_refused() {
    // Forty directories in a ring, two nodes in each so that none moves up.
    let n = 40;
    let mut paths: Vec<Vec<usize>> = Vec::new();
    let mut edges = Vec::new();
    for d in 0..n {
        paths.push(vec![d]);
        paths.push(vec![d]);
        edges.push((2 * d, 2 * ((d + 1) % n)));
    }
    let p = Subproblem {
        targets: (0..2 * n).collect(),
        paths,
        alive: vec![true; 2 * n],
        edges,
    };
    let mut hoists = Vec::new();
    let r = find_hoists_needed_for_subgraph(&mut hoists, &vec![], p);
    assert_eq!(r.map_err(|e| e.dirs), Err(40));
    assert!(hoists.is_empty());
}
