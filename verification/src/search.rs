//! What it costs to put one directory before another, and the search over all
//! orders of the directories for the one that needs the fewest hoists.

use crate::graph::has_path_connecting;
use crate::graph::lists_of;
use crate::graph::reachable;
use crate::hoists::all_met;
use crate::hoists::chosen_nodes;
use crate::hoists::clause_lists;
use crate::hoists::clauses_in_dirs;
use crate::hoists::clauses_in_range;
use crate::hoists::is_mentioned;
use crate::hoists::joined_clauses;
use crate::hoists::minimum_hoists_needed_approx;
use crate::hoists::Clause;
use crate::hoists::FastHN;
use crate::hoists::FastInt;
use crate::hoists::HoistsNeeded;
use crate::paths::find_position;
use crate::paths::position;
use crate::simplifier::Subproblem;
use std::collections::HashSet;
use vstd::prelude::*;

verus! {

broadcast use vstd::std_specs::hash::group_hash_axioms;

// ---------------------------------------------------------------------------
// The cost of one directory before another.
// ---------------------------------------------------------------------------
/// Whether node `x` is alive and lies in the directory `d`.
pub open spec fn in_dir(paths: Seq<Seq<usize>>, alive: Seq<bool>, x: int, d: usize) -> bool {
    &&& 0 <= x < paths.len()
    &&& alive[x]
    &&& paths[x].len() > 0
    &&& paths[x][0] == d
}

/// Of the first `k` nodes, those in the directory `d` that reach `s`: `s` and
/// whatever in `d` depends on it.
pub open spec fn group_above(
    paths: Seq<Seq<usize>>,
    alive: Seq<bool>,
    edges: Seq<(usize, usize)>,
    d: usize,
    s: usize,
    k: int,
) -> Seq<usize>
    decreases k,
{
    if k <= 0 {
        Seq::empty()
    } else {
        let before = group_above(paths, alive, edges, d, s, k - 1);
        if in_dir(paths, alive, k - 1, d) && reachable(edges.to_set(), (k - 1) as usize, s) {
            before.push((k - 1) as usize)
        } else {
            before
        }
    }
}

/// Of the first `k` nodes, those in the directory `d` that `t` reaches: `t` and
/// whatever in `d` it depends on.
pub open spec fn group_below(
    paths: Seq<Seq<usize>>,
    alive: Seq<bool>,
    edges: Seq<(usize, usize)>,
    d: usize,
    t: usize,
    k: int,
) -> Seq<usize>
    decreases k,
{
    if k <= 0 {
        Seq::empty()
    } else {
        let before = group_below(paths, alive, edges, d, t, k - 1);
        if in_dir(paths, alive, k - 1, d) && reachable(edges.to_set(), t, (k - 1) as usize) {
            before.push((k - 1) as usize)
        } else {
            before
        }
    }
}

/// The clauses of the first `k` edges for the directory `a` standing before the
/// directory `b`. An edge from a node `s` in `a` to a node `t` in `b` breaks
/// that order. It gives one clause: hoist `s` with all that depends on it in
/// `a`, or `t` with all that it depends on in `b`.
pub open spec fn conflict_clauses(
    paths: Seq<Seq<usize>>,
    alive: Seq<bool>,
    edges: Seq<(usize, usize)>,
    a: usize,
    b: usize,
    k: int,
) -> Seq<Clause>
    decreases k,
{
    if k <= 0 {
        Seq::empty()
    } else {
        let before = conflict_clauses(paths, alive, edges, a, b, k - 1);
        let e = edges[k - 1];
        if in_dir(paths, alive, e.0 as int, a) && in_dir(paths, alive, e.1 as int, b) {
            before.push(
                (
                    group_above(paths, alive, edges, a, e.0, paths.len() as int),
                    group_below(paths, alive, edges, b, e.1, paths.len() as int),
                ),
            )
        } else {
            before
        }
    }
}

/// The clauses that putting the directory `a` before the directory `b` costs;
/// none where the two are the same directory.
pub open spec fn cost_clauses(
    paths: Seq<Seq<usize>>,
    alive: Seq<bool>,
    edges: Seq<(usize, usize)>,
    a: usize,
    b: usize,
) -> Seq<Clause> {
    if a == b {
        Seq::empty()
    } else {
        conflict_clauses(paths, alive, edges, a, b, edges.len() as int)
    }
}

/// Whether node `x` is alive and lies in the directory `d`.
fn lies_in(part: &Subproblem, x: usize, d: usize) -> (r: bool)
    requires
        part.wf(),
    ensures
        r == in_dir(lists_of(part.paths), part.alive@, x as int, d),
{
    x < part.paths.len() && part.alive[x] && part.paths[x].len() > 0 && part.paths[x][0] == d
}

/// The nodes of the directory `d` that reach `node`, or, with `invert`, that
/// `node` reaches.
fn collect_group(part: &Subproblem, d: usize, node: usize, invert: bool) -> (r: Vec<usize>)
    requires
        part.wf(),
        node < part.paths@.len(),
    ensures
        r@ == (if invert {
            group_below(
                lists_of(part.paths),
                part.alive@,
                part.edges@,
                d,
                node,
                part.paths@.len() as int,
            )
        } else {
            group_above(
                lists_of(part.paths),
                part.alive@,
                part.edges@,
                d,
                node,
                part.paths@.len() as int,
            )
        }),
        forall|i: int|
            0 <= i < r@.len() ==> in_dir(
                lists_of(part.paths),
                part.alive@,
                (#[trigger] r@[i]) as int,
                d,
            ),
{
    let n = part.paths.len();
    let mut r: Vec<usize> = Vec::new();
    let mut x: usize = 0;
    while x < n
        invariant
            x <= n,
            n == part.paths@.len(),
            part.wf(),
            node < n,
            r@ == (if invert {
                group_below(lists_of(part.paths), part.alive@, part.edges@, d, node, x as int)
            } else {
                group_above(lists_of(part.paths), part.alive@, part.edges@, d, node, x as int)
            }),
            forall|i: int|
                0 <= i < r@.len() ==> in_dir(
                    lists_of(part.paths),
                    part.alive@,
                    (#[trigger] r@[i]) as int,
                    d,
                ),
        decreases n - x,
    {
        if lies_in(part, x, d) {
            let joined = if invert {
                has_path_connecting(n, &part.edges, node, x)
            } else {
                has_path_connecting(n, &part.edges, x, node)
            };
            if joined {
                r.push(x);
            }
        }
        x = x + 1;
    }
    r
}

/// The requirement to hoist all of the nodes.
fn node_list_requirement(nodes: &Vec<usize>) -> (r: HoistsNeeded)
    ensures
        r is All,
        r.is_node_list(),
        r.node_list() == nodes@,
{
    let mut singles: Vec<HoistsNeeded> = Vec::new();
    let mut i: usize = 0;
    while i < nodes.len()
        invariant
            i <= nodes@.len(),
            singles@.len() == i,
            forall|t: int|
                0 <= t < i ==> (#[trigger] singles@[t]) is Single && singles@[t]->Single_0
                    == nodes@[t],
        decreases nodes@.len() - i,
    {
        singles.push(HoistsNeeded::Single(nodes[i]));
        i = i + 1;
    }
    let r = HoistsNeeded::All(singles);
    assert(r.node_list() =~= nodes@);
    r
}

/// Returns what targets need to be hoisted if the directory `dir_a` is to stand
/// before the directory `dir_b`.
pub fn cost_of_dir_a_before_dir_b(part: &Subproblem, dir_a: usize, dir_b: usize) -> (r:
    HoistsNeeded)
    requires
        part.wf(),
    ensures
        r.is_written_with(true),
        r.clauses() == cost_clauses(
            lists_of(part.paths),
            part.alive@,
            part.edges@,
            dir_a,
            dir_b,
        ),
        clauses_in_range(r.clauses(), part.paths@.len()),
        clauses_in_dirs(r.clauses(), lists_of(part.paths)),
{
    let mut all: Vec<HoistsNeeded> = Vec::new();
    if dir_a == dir_b {
        // Asking for a directory before itself makes no sense: nothing is needed.
        let r = HoistsNeeded::All(all);
        assert(r.clauses() =~= Seq::<Clause>::empty());
        return r;
    }
    let ghost paths = lists_of(part.paths);
    let ghost n = part.paths@.len();
    let mut k: usize = 0;
    while k < part.edges.len()
        invariant
            k <= part.edges@.len(),
            part.wf(),
            paths == lists_of(part.paths),
            n == part.paths@.len(),
            all@.len() == conflict_clauses(
                paths,
                part.alive@,
                part.edges@,
                dir_a,
                dir_b,
                k as int,
            ).len(),
            forall|t: int|
                0 <= t < all@.len() ==> (#[trigger] all@[t]).is_clause() && all@[t].clause()
                    == conflict_clauses(paths, part.alive@, part.edges@, dir_a, dir_b, k as int)[t],
            forall|t: int, j: int|
                0 <= t < all@.len() && 0 <= j < 2 ==> (#[trigger] all@[t]->Any_0@[j]) is All,
            clauses_in_range(
                conflict_clauses(paths, part.alive@, part.edges@, dir_a, dir_b, k as int),
                n,
            ),
            clauses_in_dirs(
                conflict_clauses(paths, part.alive@, part.edges@, dir_a, dir_b, k as int),
                paths,
            ),
        decreases part.edges@.len() - k,
    {
        let e = part.edges[k];
        if lies_in(part, e.0, dir_a) && lies_in(part, e.1, dir_b) {
            let above = collect_group(part, dir_a, e.0, false);
            let below = collect_group(part, dir_b, e.1, true);
            let mut any: Vec<HoistsNeeded> = Vec::new();
            any.push(node_list_requirement(&above));
            any.push(node_list_requirement(&below));
            let choice = HoistsNeeded::Any(any);
            assert(choice.is_clause());
            assert(choice.clause() == (above@, below@));
            all.push(choice);
        }
        k = k + 1;
    }
    let r = HoistsNeeded::All(all);
    assert(r.clauses() =~= conflict_clauses(
        paths,
        part.alive@,
        part.edges@,
        dir_a,
        dir_b,
        part.edges@.len() as int,
    ));
    r
}

/// The clauses of every entry of a table of costs.
pub open spec fn table_clauses(table: Seq<Vec<FastHN>>) -> Seq<Seq<Seq<Clause>>> {
    Seq::new(table.len(), |i: int| clause_lists(table[i]@))
}

/// For every two of the directories `dirs`, what it costs to put the first
/// before the second.
pub open spec fn cost_table(
    paths: Seq<Seq<usize>>,
    alive: Seq<bool>,
    edges: Seq<(usize, usize)>,
    dirs: Seq<usize>,
) -> Seq<Seq<Seq<Clause>>> {
    Seq::new(
        dirs.len(),
        |i: int|
            Seq::new(dirs.len(), |j: int| cost_clauses(paths, alive, edges, dirs[i], dirs[j])),
    )
}

/// Whether every clause of every entry of the table names nodes below
/// `node_count` only.
pub open spec fn table_in_range(table: Seq<Seq<Seq<Clause>>>, node_count: nat) -> bool {
    forall|i: int, j: int|
        0 <= i < table.len() && 0 <= j < table[i].len() ==> clauses_in_range(
            #[trigger] table[i][j],
            node_count,
        )
}

/// Whether every node that an entry of the table names lies in some directory.
pub open spec fn table_in_dirs(table: Seq<Seq<Seq<Clause>>>, paths: Seq<Seq<usize>>) -> bool {
    forall|i: int, j: int|
        0 <= i < table.len() && 0 <= j < table[i].len() ==> clauses_in_dirs(
            #[trigger] table[i][j],
            paths,
        )
}

/// Whether some entry of the table names the node `x`.
pub open spec fn is_mentioned_in_table(table: Seq<Seq<Seq<Clause>>>, x: usize) -> bool {
    exists|i: int, j: int|
        0 <= i < table.len() && 0 <= j < table[i].len() && is_mentioned(#[trigger] table[i][j], x)
}

/// Builds the table of the costs of each directory before each other one.
pub fn all_pair_costs(part: &Subproblem, dirs: &Vec<usize>) -> (table: Vec<Vec<FastHN>>)
    requires
        part.wf(),
    ensures
        table_clauses(table@) == cost_table(
            lists_of(part.paths),
            part.alive@,
            part.edges@,
            dirs@,
        ),
        table_in_range(table_clauses(table@), part.paths@.len()),
        table_in_dirs(table_clauses(table@), lists_of(part.paths)),
{
    let ghost paths = lists_of(part.paths);
    let ghost want = cost_table(paths, part.alive@, part.edges@, dirs@);
    let mut table: Vec<Vec<FastHN>> = Vec::new();
    let mut i: usize = 0;
    while i < dirs.len()
        invariant
            i <= dirs@.len(),
            part.wf(),
            paths == lists_of(part.paths),
            want == cost_table(paths, part.alive@, part.edges@, dirs@),
            table@.len() == i,
            forall|t: int| 0 <= t < i ==> clause_lists((#[trigger] table@[t])@) == want[t],
            forall|t: int, j: int|
                0 <= t < i && 0 <= j < table@[t]@.len() ==> clauses_in_range(
                    (#[trigger] table@[t]@[j]).clauses(),
                    part.paths@.len(),
                ) && clauses_in_dirs(table@[t]@[j].clauses(), paths),
        decreases dirs@.len() - i,
    {
        let mut row: Vec<FastHN> = Vec::new();
        let mut j: usize = 0;
        while j < dirs.len()
            invariant
                j <= dirs@.len(),
                i < dirs@.len(),
                part.wf(),
                paths == lists_of(part.paths),
                want == cost_table(paths, part.alive@, part.edges@, dirs@),
                row@.len() == j,
                forall|t: int| 0 <= t < j ==> (#[trigger] row@[t]).clauses() == want[i as int][t],
                forall|t: int|
                    0 <= t < j ==> clauses_in_range(
                        (#[trigger] row@[t]).clauses(),
                        part.paths@.len(),
                    ) && clauses_in_dirs(row@[t].clauses(), paths),
            decreases dirs@.len() - j,
        {
            let cost = cost_of_dir_a_before_dir_b(part, dirs[i], dirs[j]);
            row.push(FastHN::from_hn(cost));
            j = j + 1;
        }
        assert(clause_lists(row@) =~= want[i as int]);
        table.push(row);
        i = i + 1;
    }
    assert(table_clauses(table@) =~= want);
    assert(table_in_range(table_clauses(table@), part.paths@.len())) by {
        assert forall|a: int, b: int|
            0 <= a < table_clauses(table@).len() && 0 <= b < table_clauses(
                table@,
            )[a].len() implies clauses_in_range(
            #[trigger] table_clauses(table@)[a][b],
            part.paths@.len(),
        ) by {
            assert(table_clauses(table@)[a][b] == table@[a]@[b].clauses());
        }
    }
    assert(table_in_dirs(table_clauses(table@), paths)) by {
        assert forall|a: int, b: int|
            0 <= a < table_clauses(table@).len() && 0 <= b < table_clauses(
                table@,
            )[a].len() implies clauses_in_dirs(#[trigger] table_clauses(table@)[a][b], paths) by {
            assert(table_clauses(table@)[a][b] == table@[a]@[b].clauses());
        }
    }
    table
}

// ---------------------------------------------------------------------------
// The cost of one order.
// ---------------------------------------------------------------------------
/// Whether the directory with number `l` comes before the one with number `r`
/// in `order`. A directory that `order` does not name counts as before every
/// one that it names.
pub open spec fn comes_before(order: Seq<usize>, l: usize, r: usize) -> bool {
    match (position(order, l), position(order, r)) {
        (None, Some(_)) => true,
        (Some(x), Some(y)) => x < y,
        _ => false,
    }
}

/// The lists of clauses picked from the first `r` entries of row `l` of the
/// table: the non-empty ones of the directories that come after `l`.
pub open spec fn picked_in_row(row: Seq<Seq<Clause>>, order: Seq<usize>, l: usize, r: int) -> Seq<
    Seq<Clause>,
>
    decreases r,
{
    if r <= 0 {
        Seq::empty()
    } else {
        let before = picked_in_row(row, order, l, r - 1);
        if comes_before(order, l, (r - 1) as usize) && row[r - 1].len() > 0 {
            before.push(row[r - 1])
        } else {
            before
        }
    }
}

/// The lists of clauses picked from the first `l` rows of the table.
pub open spec fn picked_rows(table: Seq<Seq<Seq<Clause>>>, order: Seq<usize>, l: int) -> Seq<
    Seq<Clause>,
>
    decreases l,
{
    if l <= 0 {
        Seq::empty()
    } else {
        picked_rows(table, order, l - 1) + picked_in_row(
            table[l - 1],
            order,
            (l - 1) as usize,
            table[l - 1].len() as int,
        )
    }
}

/// All lists of clauses that the order `order` has to meet: for every two
/// directories the cost of the one that comes first standing before the other,
/// and the clauses that hold in any order.
pub open spec fn picked(
    table: Seq<Seq<Seq<Clause>>>,
    order: Seq<usize>,
    always: Seq<Clause>,
) -> Seq<Seq<Clause>> {
    let rows = picked_rows(table, order, table.len() as int);
    if always.len() > 0 {
        rows.push(always)
    } else {
        rows
    }
}

/// All clauses that the order `order` has to meet, as one list.
pub open spec fn order_clauses(
    table: Seq<Seq<Seq<Clause>>>,
    order: Seq<usize>,
    always: Seq<Clause>,
) -> Seq<Clause> {
    let lists = picked(table, order, always);
    joined_clauses(lists, lists.len() as int)
}

/// The nodes that the chooser hoists for the order `order`.
pub open spec fn order_cost(
    node_count: nat,
    table: Seq<Seq<Seq<Clause>>>,
    order: Seq<usize>,
    always: Seq<Clause>,
) -> Set<usize> {
    chosen_nodes(node_count, order_clauses(table, order, always))
}

/// What is picked from a row of the table is an entry of that row.
proof fn lemma_picked_in_row_is_of_row(
    row: Seq<Seq<Clause>>,
    order: Seq<usize>,
    l: usize,
    r: int,
    t: int,
)
    requires
        0 <= r <= row.len(),
        0 <= t < picked_in_row(row, order, l, r).len(),
    ensures
        exists|j: int| 0 <= j < r && #[trigger] row[j] == picked_in_row(row, order, l, r)[t],
    decreases r,
{
    if r > 0 {
        let before = picked_in_row(row, order, l, r - 1);
        if t < before.len() {
            lemma_picked_in_row_is_of_row(row, order, l, r - 1, t);
            let j = choose|j: int| 0 <= j < r - 1 && #[trigger] row[j] == before[t];
            assert(row[j] == picked_in_row(row, order, l, r)[t]);
        } else {
            assert(row[r - 1] == picked_in_row(row, order, l, r)[t]);
        }
    }
}

/// A node that a picked list of clauses names is named by the table.
proof fn lemma_picked_rows_are_of_table(
    table: Seq<Seq<Seq<Clause>>>,
    order: Seq<usize>,
    l: int,
    t: int,
    x: usize,
)
    requires
        0 <= l <= table.len(),
        0 <= t < picked_rows(table, order, l).len(),
        is_mentioned(picked_rows(table, order, l)[t], x),
    ensures
        is_mentioned_in_table(table, x),
    decreases l,
{
    if l > 0 {
        let before = picked_rows(table, order, l - 1);
        if t < before.len() {
            lemma_picked_rows_are_of_table(table, order, l - 1, t, x);
        } else {
            let row = table[l - 1];
            lemma_picked_in_row_is_of_row(
                row,
                order,
                (l - 1) as usize,
                row.len() as int,
                t - before.len(),
            );
            let j = choose|j: int|
                0 <= j < row.len() && #[trigger] row[j] == picked_in_row(
                    row,
                    order,
                    (l - 1) as usize,
                    row.len() as int,
                )[t - before.len()];
            assert(is_mentioned(table[l - 1][j], x));
        }
    }
}

/// A node that joined lists of clauses name is named by one of the lists.
proof fn lemma_joined_mentions(lists: Seq<Seq<Clause>>, k: int, x: usize)
    requires
        0 <= k <= lists.len(),
        is_mentioned(joined_clauses(lists, k), x),
    ensures
        exists|l: int| 0 <= l < k && is_mentioned(#[trigger] lists[l], x),
    decreases k,
{
    if k > 0 {
        let before = joined_clauses(lists, k - 1);
        let now = joined_clauses(lists, k);
        let i = choose|i: int|
            0 <= i < now.len() && ((#[trigger] now[i]).0.contains(x) || now[i].1.contains(x));
        if i < before.len() {
            assert(before[i] == now[i]);
            assert(is_mentioned(before, x));
            lemma_joined_mentions(lists, k - 1, x);
            let l = choose|l: int| 0 <= l < k - 1 && is_mentioned(#[trigger] lists[l], x);
            assert(is_mentioned(lists[l], x));
        } else {
            assert(lists[k - 1][i - before.len()] == now[i]);
            assert(is_mentioned(lists[k - 1], x));
        }
    } else {
        let now = joined_clauses(lists, k);
        assert(now.len() == 0);
    }
}

/// A node that the clauses of an order name is named by an entry of the table
/// or by the clauses that hold in any order.
pub proof fn lemma_order_clauses_mention(
    table: Seq<Seq<Seq<Clause>>>,
    order: Seq<usize>,
    always: Seq<Clause>,
    x: usize,
)
    requires
        is_mentioned(order_clauses(table, order, always), x),
    ensures
        is_mentioned_in_table(table, x) || is_mentioned(always, x),
{
    let lists = picked(table, order, always);
    lemma_joined_mentions(lists, lists.len() as int, x);
    let l = choose|l: int| 0 <= l < lists.len() && is_mentioned(#[trigger] lists[l], x);
    let rows = picked_rows(table, order, table.len() as int);
    if l < rows.len() {
        assert(lists[l] == rows[l]);
        lemma_picked_rows_are_of_table(table, order, table.len() as int, l, x);
    } else {
        assert(lists[l] == always);
    }
}

/// A copy of the clauses with their flags.
fn copy_of(cost: &FastHN) -> (r: FastHN)
    ensures
        r.clauses() == cost.clauses(),
        r.flags() == cost.flags(),
{
    let mut out: Vec<(bool, [Vec<FastInt>; 2])> = Vec::new();
    let mut i: usize = 0;
    while i < cost.0.len()
        invariant
            i <= cost.0@.len(),
            out@.len() == i,
            forall|t: int|
                0 <= t < i ==> {
                    &&& (#[trigger] out@[t]).0 == cost.0@[t].0
                    &&& out@[t].1@[0]@ == cost.0@[t].1@[0]@
                    &&& out@[t].1@[1]@ == cost.0@[t].1@[1]@
                },
        decreases cost.0@.len() - i,
    {
        let first = crate::paths::copy_range(&cost.0[i].1[0], 0, cost.0[i].1[0].len());
        let second = crate::paths::copy_range(&cost.0[i].1[1], 0, cost.0[i].1[1].len());
        assert(first@ == cost.0@[i as int].1@[0]@);
        assert(second@ == cost.0@[i as int].1@[1]@);
        out.push((cost.0[i].0, [first, second]));
        i = i + 1;
    }
    let r = FastHN(out);
    assert(r.clauses() =~= cost.clauses());
    assert(r.flags() =~= cost.flags());
    r
}

/// Whether directory `l` comes before directory `r` in `order`, see `comes_before`.
fn is_before(order: &Vec<usize>, l: usize, r: usize) -> (b: bool)
    ensures
        b == comes_before(order@, l, r),
{
    let left = find_position(order, l);
    let right = find_position(order, r);
    match (left, right) {
        (None, Some(_)) => true,
        (Some(x), Some(y)) => x < y,
        _ => false,
    }
}

/// The hoists that are needed if the directories are to stand in the order
/// `order`.
pub fn cost_of_order(
    node_count: usize,
    cost_of_a_before_b: &Vec<Vec<FastHN>>,
    order: &Vec<usize>,
    hoists_always_needed: &FastHN,
) -> (r: HashSet<FastInt>)
    requires
        table_in_range(table_clauses(cost_of_a_before_b@), node_count as nat),
        clauses_in_range(hoists_always_needed.clauses(), node_count as nat),
    ensures
        r@ == order_cost(
            node_count as nat,
            table_clauses(cost_of_a_before_b@),
            order@,
            hoists_always_needed.clauses(),
        ),
        all_met(
            order_clauses(
                table_clauses(cost_of_a_before_b@),
                order@,
                hoists_always_needed.clauses(),
            ),
            r@,
        ),
        forall|x: usize| r@.contains(x) ==> x < node_count,
        forall|x: usize|
            r@.contains(x) ==> is_mentioned_in_table(table_clauses(cost_of_a_before_b@), x)
                || is_mentioned(hoists_always_needed.clauses(), x),
{
    let ghost table = table_clauses(cost_of_a_before_b@);
    let ghost always = hoists_always_needed.clauses();
    // If `7` comes before `5` in `order`, the cost of 7 before 5 is taken and
    // the cost of 5 before 7 is not.
    let mut all: Vec<FastHN> = Vec::new();
    let mut l: usize = 0;
    while l < cost_of_a_before_b.len()
        invariant
            l <= cost_of_a_before_b@.len(),
            table == table_clauses(cost_of_a_before_b@),
            table_in_range(table, node_count as nat),
            clause_lists(all@) == picked_rows(table, order@, l as int),
            forall|t: int|
                0 <= t < all@.len() ==> clauses_in_range(
                    (#[trigger] all@[t]).clauses(),
                    node_count as nat,
                ) && all@[t].0@.len() > 0,
        decreases cost_of_a_before_b@.len() - l,
    {
        let ghost before = clause_lists(all@);
        let ghost row = table[l as int];
        let mut r: usize = 0;
        while r < cost_of_a_before_b[l].len()
            invariant
                r <= cost_of_a_before_b@[l as int]@.len(),
                l < cost_of_a_before_b@.len(),
                table == table_clauses(cost_of_a_before_b@),
                table_in_range(table, node_count as nat),
                row == table[l as int],
                clause_lists(all@) == before + picked_in_row(row, order@, l, r as int),
                forall|t: int|
                    0 <= t < all@.len() ==> clauses_in_range(
                        (#[trigger] all@[t]).clauses(),
                        node_count as nat,
                    ) && all@[t].0@.len() > 0,
            decreases cost_of_a_before_b@[l as int]@.len() - r,
        {
            assert(row[r as int] == cost_of_a_before_b@[l as int]@[r as int].clauses());
            if is_before(order, l, r) && cost_of_a_before_b[l][r].0.len() > 0 {
                let ghost lists = clause_lists(all@);
                let entry = copy_of(&cost_of_a_before_b[l][r]);
                assert(clauses_in_range(table[l as int][r as int], node_count as nat));
                all.push(entry);
                assert(clause_lists(all@) =~= lists.push(row[r as int]));
                assert(before + picked_in_row(row, order@, l, r as int).push(row[r as int]) =~= (
                before + picked_in_row(row, order@, l, r as int)).push(row[r as int]));
            }
            r = r + 1;
        }
        l = l + 1;
    }
    if hoists_always_needed.0.len() > 0 {
        let ghost lists = clause_lists(all@);
        all.push(copy_of(hoists_always_needed));
        assert(clause_lists(all@) =~= lists.push(always));
    }
    assert(clause_lists(all@) == picked(table, order@, always));
    let r = minimum_hoists_needed_approx(node_count, all);
    proof {
        assert forall|x: usize| r@.contains(x) implies is_mentioned_in_table(table, x)
            || is_mentioned(always, x) by {
            lemma_order_clauses_mention(table, order@, always, x);
        }
    }
    r
}

// ---------------------------------------------------------------------------
// The search over all orders.
// ---------------------------------------------------------------------------
/// The product of all numbers from 1 up to `n - 1`.
pub open spec fn product_below(n: nat) -> nat
    decreases n,
{
    if n <= 1 {
        1
    } else {
        product_below((n - 1) as nat) * ((n - 1) as nat)
    }
}

/// The number of steps that the search over all orders of `n` directories is
/// said to take: `(n - 1)!` times `n` squared.
pub open spec fn search_steps(n: nat) -> nat {
    product_below(n) * (n * n)
}

/// The product of the numbers below `n` is at least 1 and grows with `n`.
proof fn lemma_product_below_grows(a: nat, b: nat)
    requires
        a <= b,
    ensures
        1 <= product_below(a) <= product_below(b),
    decreases b,
{
    if b <= 1 {
    } else {
        if a < b {
            lemma_product_below_grows(a, (b - 1) as nat);
        } else {
            lemma_product_below_grows(0, (b - 1) as nat);
        }
        let p = product_below((b - 1) as nat);
        let f = (b - 1) as nat;
        assert(p * f >= p) by (nonlinear_arith)
            requires
                f >= 1,
                p >= 0,
        ;
    }
}

/// The number of steps of the search over all orders of `n` directories, or
/// `None` where that number is beyond what a `usize` holds.
pub fn time_complexity_steps(n: usize) -> (r: Option<usize>)
    ensures
        match r {
            Some(steps) => steps == search_steps(n as nat),
            None => search_steps(n as nat) > usize::MAX,
        },
{
    let mut acc: usize = 1;
    let mut x: usize = 1;
    while x < n
        invariant
            1 <= x,
            x <= n || n == 0,
            acc == product_below(x as nat),
        decreases n - x,
    {
        let next = acc.checked_mul(x);
        match next {
            None => {
                proof {
                    lemma_product_below_grows((x + 1) as nat, n as nat);
                    let p = product_below(n as nat);
                    let sq = (n as nat) * (n as nat);
                    assert(sq >= 1) by (nonlinear_arith)
                        requires
                            sq == (n as nat) * (n as nat),
                            n >= 1,
                    ;
                    assert(p * sq >= p) by (nonlinear_arith)
                        requires
                            sq >= 1,
                            p >= 0,
                    ;
                }
                return None;
            },
            Some(v) => {
                acc = v;
            },
        }
        x = x + 1;
    }
    if n == 0 {
        assert(search_steps(0) == 0) by (nonlinear_arith)
            requires
                search_steps(0) == product_below(0) * (0nat * 0nat),
        ;
        return Some(0);
    }
    let square = n.checked_mul(n);
    match square {
        None => {
            proof {
                lemma_product_below_grows(0, n as nat);
                let p = product_below(n as nat);
                let sq = (n as nat) * (n as nat);
                assert(p * sq >= sq) by (nonlinear_arith)
                    requires
                        p >= 1,
                        sq >= 0,
                ;
            }
            None
        },
        Some(sq) => acc.checked_mul(sq),
    }
}

/// The orders of `n` things, each a list of the numbers below `n`, in the
/// sequence in which `permute::permutations_of` gives them.
pub uninterp spec fn heap_permutations(n: nat) -> Seq<Seq<usize>>;

/// Calls `permute::permutations_of` on the numbers below `n`. The claim: the
/// list of orders is a function of `n` alone, and it is not empty.
#[verifier::external_body]
pub(crate) fn permutations_of(n: usize) -> (r: Vec<Vec<usize>>)
    requires
        search_steps(n as nat) <= usize::MAX,
    ensures
        lists_of(r) == heap_permutations(n as nat),
        r@.len() >= 1,
{
    let items: Vec<usize> = (0..n).collect();
    permute::permutations_of(&items).map(|order| order.copied().collect()).collect()
}

/// The number of the cheapest among the first `k` orders: the one whose cost
/// has the fewest nodes, the first of them where several have equally few.
pub open spec fn best_of(costs: Seq<Set<usize>>, k: int) -> int
    decreases k,
{
    if k <= 1 {
        0
    } else {
        let before = best_of(costs, k - 1);
        if costs[k - 1].len() < costs[before].len() {
            k - 1
        } else {
            before
        }
    }
}

/// The cheapest of the first `k` orders is one of them, and none of them is
/// cheaper.
pub proof fn lemma_best_is_cheapest(costs: Seq<Set<usize>>, k: int, j: int)
    requires
        0 <= j < k,
    ensures
        0 <= best_of(costs, k) < k,
        costs[best_of(costs, k)].len() <= costs[j].len(),
    decreases k,
{
    if k > 1 {
        if j < k - 1 {
            lemma_best_is_cheapest(costs, k - 1, j);
        } else {
            lemma_best_is_cheapest(costs, k - 1, 0);
        }
    }
}

/// No order that the search tries needs fewer hoists than the order that it
/// settles on.
pub proof fn lemma_cheapest_cost_is_cheapest(
    node_count: nat,
    table: Seq<Seq<Seq<Clause>>>,
    orders: Seq<Seq<usize>>,
    always: Seq<Clause>,
    j: int,
)
    requires
        0 <= j < orders.len(),
    ensures
        cheapest_cost(node_count, table, orders, always).len() <= order_cost(
            node_count,
            table,
            orders[j],
            always,
        ).len(),
{
    let costs = costs_of(node_count, table, orders, always);
    lemma_best_is_cheapest(costs, orders.len() as int, j);
}

/// What each of the orders costs.
pub open spec fn costs_of(
    node_count: nat,
    table: Seq<Seq<Seq<Clause>>>,
    orders: Seq<Seq<usize>>,
    always: Seq<Clause>,
) -> Seq<Set<usize>> {
    Seq::new(orders.len(), |k: int| order_cost(node_count, table, orders[k], always))
}

/// The cost of the cheapest of the orders.
pub open spec fn cheapest_cost(
    node_count: nat,
    table: Seq<Seq<Seq<Clause>>>,
    orders: Seq<Seq<usize>>,
    always: Seq<Clause>,
) -> Set<usize> {
    let costs = costs_of(node_count, table, orders, always);
    costs[best_of(costs, orders.len() as int)]
}

/// Tries every one of the orders and gives the hoists of the cheapest one. No
/// order that was tried needs fewer hoists than the result, and the result
/// meets every clause of the order that it belongs to.
pub fn cheapest_order(
    node_count: usize,
    cost_of_a_before_b: &Vec<Vec<FastHN>>,
    orders: &Vec<Vec<usize>>,
    hoists_always_needed: &FastHN,
) -> (r: HashSet<FastInt>)
    requires
        orders@.len() >= 1,
        table_in_range(table_clauses(cost_of_a_before_b@), node_count as nat),
        clauses_in_range(hoists_always_needed.clauses(), node_count as nat),
    ensures
        r@ == cheapest_cost(
            node_count as nat,
            table_clauses(cost_of_a_before_b@),
            lists_of(*orders),
            hoists_always_needed.clauses(),
        ),
        forall|k: int|
            0 <= k < orders@.len() ==> r@.len() <= (#[trigger] order_cost(
                node_count as nat,
                table_clauses(cost_of_a_before_b@),
                lists_of(*orders)[k],
                hoists_always_needed.clauses(),
            )).len(),
        exists|k: int|
            0 <= k < orders@.len() && all_met(
                #[trigger] order_clauses(
                    table_clauses(cost_of_a_before_b@),
                    lists_of(*orders)[k],
                    hoists_always_needed.clauses(),
                ),
                r@,
            ),
        forall|x: usize| r@.contains(x) ==> x < node_count,
        forall|x: usize|
            r@.contains(x) ==> is_mentioned_in_table(table_clauses(cost_of_a_before_b@), x)
                || is_mentioned(hoists_always_needed.clauses(), x),
{
    let ghost table = table_clauses(cost_of_a_before_b@);
    let ghost always = hoists_always_needed.clauses();
    let ghost costs = costs_of(node_count as nat, table, lists_of(*orders), always);
    let mut best = cost_of_order(node_count, cost_of_a_before_b, &orders[0], hoists_always_needed);
    let ghost mut best_at: int = 0;
    let mut k: usize = 1;
    while k < orders.len()
        invariant
            1 <= k <= orders@.len(),
            table == table_clauses(cost_of_a_before_b@),
            always == hoists_always_needed.clauses(),
            costs == costs_of(node_count as nat, table, lists_of(*orders), always),
            table_in_range(table, node_count as nat),
            clauses_in_range(always, node_count as nat),
            best_at == best_of(costs, k as int),
            0 <= best_at < k,
            best@ == costs[best_at],
            forall|j: int| 0 <= j < k ==> best@.len() <= (#[trigger] costs[j]).len(),
            all_met(order_clauses(table, lists_of(*orders)[best_at], always), best@),
            forall|x: usize| best@.contains(x) ==> x < node_count,
            forall|x: usize|
                best@.contains(x) ==> is_mentioned_in_table(table, x) || is_mentioned(always, x),
        decreases orders@.len() - k,
    {
        let cost = cost_of_order(node_count, cost_of_a_before_b, &orders[k], hoists_always_needed);
        assert(cost@ == costs[k as int]);
        if cost.len() < best.len() {
            best = cost;
            proof {
                best_at = k as int;
            }
        }
        k = k + 1;
    }
    proof {
        assert forall|j: int| 0 <= j < orders@.len() implies best@.len() <= (#[trigger] order_cost(
            node_count as nat,
            table,
            lists_of(*orders)[j],
            always,
        )).len() by {
            assert(costs[j] == order_cost(node_count as nat, table, lists_of(*orders)[j], always));
        }
    }
    best
}

} // verus!
