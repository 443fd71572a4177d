use grouped_topo_sort::hoists::choose_hoists;
use grouped_topo_sort::hoists::count_occurences;
use grouped_topo_sort::hoists::disable_solved_problems;
use grouped_topo_sort::hoists::minimum_hoists_needed_approx;
use grouped_topo_sort::hoists::FastHN;
use grouped_topo_sort::hoists::HoistsNeeded;
use grouped_topo_sort::hoists::HoistsNeededNamed;
use grouped_topo_sort::graph::BetterGraph;
use grouped_topo_sort::tree::Node;
use grouped_topo_sort::tree::TargetName;
use std::collections::HashSet;

fn clause(first: &[usize], second: &[usize]) -> (bool, [Vec<usize>; 2]) {
    (false, [first.to_vec(), second.to_vec()])
}

fn met(clauses: &FastHN, chosen: &HashSet<usize>) -> bool {
    clauses
        .0
        .iter()
        .all(|c| c.1.iter().any(|alt| alt.iter().all(|x| chosen.contains(x))))
}

#[test]
fn the_most_common_node_is_taken_first() {
    let cost = vec![FastHN(vec![clause(&[0], &[1]), clause(&[0], &[2]), clause(&[3], &[4])])];
    let chosen = minimum_hoists_needed_approx(5, cost);
    assert_eq!(chosen, HashSet::from([0, 3]));
}

#[test]
fn of_equally_common_nodes_the_last_is_taken() {
    let cost = vec![FastHN(vec![clause(&[0], &[1]), clause(&[0], &[1])])];
    let chosen = minimum_hoists_needed_approx(2, cost);
    assert_eq!(chosen, HashSet::from([1]));
}

#[test]
fn the_alternative_that_asks_for_less_is_taken() {
    let cost = vec![FastHN(vec![clause(&[0, 1], &[2])])];
    assert_eq!(minimum_hoists_needed_approx(3, cost), HashSet::from([2]));
    let cost = vec![FastHN(vec![clause(&[0], &[1]), clause(&[0], &[2]), clause(&[3, 4], &[0, 5])])];
    assert_eq!(minimum_hoists_needed_approx(6, cost), HashSet::from([0, 5]));
}

#[test]
fn of_equally_cheap_alternatives_the_first_is_taken() {
    let cost = vec![FastHN(vec![clause(&[4], &[3])])];
    assert_eq!(minimum_hoists_needed_approx(5, cost), HashSet::from([4]));
}

#[test]
fn the_entries_of_the_cost_list_count_as_one_conjunction() {
    let cost = vec![
        FastHN(vec![clause(&[0], &[1])]),
        FastHN(vec![clause(&[2], &[1])]),
        FastHN(vec![clause(&[3], &[4])]),
    ];
    assert_eq!(minimum_hoists_needed_approx(5, cost), HashSet::from([1, 3]));
}

#[test]
fn no_clauses_need_no_hoists() {
    assert_eq!(minimum_hoists_needed_approx(0, vec![]), HashSet::new());
    assert_eq!(minimum_hoists_needed_approx(3, vec![]), HashSet::new());
}

#[test]
fn the_chosen_nodes_meet_every_clause() {
    let mut cost = FastHN(vec![
        clause(&[0, 1], &[2, 3]),
        clause(&[2], &[4]),
        clause(&[4], &[0]),
        clause(&[5], &[1, 2]),
        clause(&[5], &[3]),
    ]);
    let chosen = choose_hoists(6, &mut cost);
    assert!(met(&cost, &chosen));
    assert!(chosen.iter().all(|&x| x < 6));
}

#[test]
fn occurrences_count_alternatives_of_one_node_in_active_clauses() {
    let cost = FastHN(vec![
        (true, [vec![0], vec![1]]),
        (false, [vec![0], vec![0]]),
        (true, [vec![0, 1], vec![1]]),
    ]);
    assert_eq!(count_occurences(2, &cost), vec![1, 2]);
    assert_eq!(count_occurences(3, &cost), vec![1, 2, 0]);
}

#[test]
fn disabling_switches_off_the_clauses_that_a_node_settles() {
    let mut cost = FastHN(vec![
        (true, [vec![0], vec![1]]),
        (false, [vec![0], vec![0]]),
        (true, [vec![0, 1], vec![2]]),
        (true, [vec![0, 1], vec![1]]),
    ]);
    disable_solved_problems(&mut cost, 1);
    let flags: Vec<bool> = cost.0.iter().map(|c| c.0).collect();
    assert_eq!(flags, vec![false, false, true, false]);
    assert_eq!(cost.0[2].1, [vec![0, 1], vec![2]]);
}

#[test]
fn the_flat_form_holds_the_same_clauses() {
    let all3 = HoistsNeeded::All(vec![
        HoistsNeeded::Any(vec![
            HoistsNeeded::All(vec![HoistsNeeded::Single(1), HoistsNeeded::Single(2)]),
            HoistsNeeded::Single(3),
        ]),
        HoistsNeeded::Any(vec![
            HoistsNeeded::All(vec![]),
            HoistsNeeded::All(vec![HoistsNeeded::Single(7)]),
        ]),
    ]);
    let fast = FastHN::from_hn(all3);
    assert_eq!(fast.0.len(), 2);
    assert_eq!(fast.0[0], (false, [vec![1, 2], vec![3]]));
    assert_eq!(fast.0[1], (false, [vec![], vec![7]]));
}

#[test]
fn names_become_the_numbers_of_their_targets() {
    let node = |name: &str| Node { provides: TargetName(name.to_string()), path: vec![] };
    let graph = BetterGraph::from_nodes(vec![node("a"), node("b"), node("c")]);
    let named = HoistsNeededNamed::All(vec![HoistsNeededNamed::Any(vec![
        HoistsNeededNamed::Single(TargetName("c".to_string())),
        HoistsNeededNamed::Single(TargetName("a".to_string())),
    ])]);
    let plain = named.names_to_indices(&graph);
    let fast = FastHN::from_hn(plain);
    assert_eq!(fast.0, vec![(false, [vec![2], vec![0]])]);
}
