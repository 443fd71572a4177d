//! The constraint algebra ("which nodes must be hoisted") and the greedy chooser
//! that picks a small set of nodes satisfying a conjunction of two-way choices.

use crate::paths::position;
use crate::tree::get_node_index;
use crate::tree::target_names;
use crate::tree::DepGraph;
use crate::tree::TargetName;
use itertools::Itertools;
use std::collections::HashSet;
use vstd::prelude::*;

verus! {

/// Indicates which nodes need to be hoisted.
#[derive(Debug)]
pub enum HoistsNeeded {
    /// The node with this index needs to be hoisted.
    Single(usize),
    /// Hoisting any one of the elements is sufficient.
    Any(Vec<HoistsNeeded>),
    /// All elements need to be hoisted.
    All(Vec<HoistsNeeded>),
}

/// Same as `HoistsNeeded`, but with the names of the targets in place of the
/// numbers of the nodes.
#[derive(Debug)]
pub enum HoistsNeededNamed {
    Single(TargetName),
    Any(Vec<HoistsNeededNamed>),
    All(Vec<HoistsNeededNamed>),
}

/// The numbers of nodes in the flat form.
pub type FastInt = usize;

/// A clause of the flattened form: two alternatives, each a list of nodes that
/// must all be hoisted for the alternative to hold.
pub type Clause = (Seq<usize>, Seq<usize>);

/// A flat, restrictive but fast form of `HoistsNeeded`: a conjunction of clauses,
/// each a choice between two node lists. The boolean says whether the clause is
/// active; an inactive clause is ignored by the chooser.
#[derive(Debug, Clone)]
pub struct FastHN(pub Vec<(bool, [Vec<FastInt>; 2])>);

impl HoistsNeeded {
    /// Whether hoisting exactly the nodes of `hoisted` meets this requirement.
    pub open spec fn satisfied_by(&self, hoisted: Set<usize>) -> bool
        decreases self,
    {
        match self {
            HoistsNeeded::Single(n) => hoisted.contains(*n),
            HoistsNeeded::Any(v) => exists|i: int|
                0 <= i < v@.len() && (#[trigger] v@[i]).satisfied_by(hoisted),
            HoistsNeeded::All(v) => forall|i: int|
                0 <= i < v@.len() ==> (#[trigger] v@[i]).satisfied_by(hoisted),
        }
    }

    /// Whether this is a plain list of nodes: one `Single`, or an `All` of `Single`s.
    pub open spec fn is_node_list(&self) -> bool {
        match self {
            HoistsNeeded::Single(_) => true,
            HoistsNeeded::All(v) => forall|i: int|
                0 <= i < v@.len() ==> (#[trigger] v@[i]) is Single,
            HoistsNeeded::Any(_) => false,
        }
    }

    /// The nodes of a plain list of nodes.
    pub open spec fn node_list(&self) -> Seq<usize> {
        match self {
            HoistsNeeded::Single(n) => seq![*n],
            HoistsNeeded::All(v) => Seq::new(v@.len(), |i: int| v@[i]->Single_0),
            HoistsNeeded::Any(_) => Seq::empty(),
        }
    }

    /// Whether this is a choice between exactly two plain lists of nodes.
    pub open spec fn is_clause(&self) -> bool {
        match self {
            HoistsNeeded::Any(v) => v@.len() == 2 && v@[0].is_node_list() && v@[1].is_node_list(),
            _ => false,
        }
    }

    /// The clause that a choice between two plain lists of nodes stands for.
    pub open spec fn clause(&self) -> Clause {
        (self->Any_0@[0].node_list(), self->Any_0@[1].node_list())
    }

    /// Whether this has the three-level shape that a `FastHN` can hold: a
    /// conjunction of choices between two plain lists of nodes.
    pub open spec fn is_flat(&self) -> bool {
        match self {
            HoistsNeeded::All(v) => forall|i: int|
                0 <= i < v@.len() ==> (#[trigger] v@[i]).is_clause(),
            _ => false,
        }
    }

    /// Whether this has the three-level shape with every alternative written
    /// as an `All`, if `lists` holds, or as one `Single`, if not.
    pub open spec fn is_written_with(&self, lists: bool) -> bool {
        &&& self.is_flat()
        &&& forall|i: int, k: int|
            0 <= i < self->All_0@.len() && 0 <= k < 2 ==> ((#[trigger] self->All_0@[i]->Any_0@[k])
                is All) == lists
    }

    /// The clauses of a requirement of the three-level shape.
    pub open spec fn clauses(&self) -> Seq<Clause> {
        Seq::new(self->All_0@.len(), |i: int| self->All_0@[i].clause())
    }
}

impl HoistsNeededNamed {
    /// Whether every name in the requirement is one of `names`.
    pub open spec fn names_known(&self, names: Seq<Seq<char>>) -> bool
        decreases self,
    {
        match self {
            HoistsNeededNamed::Single(x) => position(names, x.0@) is Some,
            HoistsNeededNamed::Any(v) => forall|i: int|
                0 <= i < v@.len() ==> (#[trigger] v@[i]).names_known(names),
            HoistsNeededNamed::All(v) => forall|i: int|
                0 <= i < v@.len() ==> (#[trigger] v@[i]).names_known(names),
        }
    }

    /// Whether `plain` is this requirement with each name replaced by its
    /// first place in `names`.
    pub open spec fn same_as(&self, plain: HoistsNeeded, names: Seq<Seq<char>>) -> bool
        decreases self,
    {
        match self {
            HoistsNeededNamed::Single(x) => plain matches HoistsNeeded::Single(k) && position(
                names,
                x.0@,
            ) == Some(k as int),
            HoistsNeededNamed::Any(v) => plain matches HoistsNeeded::Any(w) && v@.len() == w@.len()
                && forall|i: int| 0 <= i < v@.len() ==> (#[trigger] v@[i]).same_as(w@[i], names),
            HoistsNeededNamed::All(v) => plain matches HoistsNeeded::All(w) && v@.len() == w@.len()
                && forall|i: int| 0 <= i < v@.len() ==> (#[trigger] v@[i]).same_as(w@[i], names),
        }
    }

    /// Does the work of `names_to_indices`, level by level.
    fn names_to_indices_helper(&self, graph: &DepGraph) -> (r: HoistsNeeded)
        requires
            self.names_known(target_names(graph)),
        ensures
            self.same_as(r, target_names(graph)),
        decreases self,
    {
        match self {
            HoistsNeededNamed::Single(x) => {
                match get_node_index(graph, x) {
                    Some(k) => HoistsNeeded::Single(k),
                    None => {
                        assert(false);
                        HoistsNeeded::Single(0)
                    },
                }
            },
            HoistsNeededNamed::Any(v) => {
                let mut w: Vec<HoistsNeeded> = Vec::new();
                let mut i: usize = 0;
                while i < v.len()
                    invariant
                        i <= v@.len(),
                        *self == HoistsNeededNamed::Any(*v),
                        self.names_known(target_names(graph)),
                        w@.len() == i,
                        forall|t: int|
                            0 <= t < i ==> (#[trigger] v@[t]).same_as(w@[t], target_names(graph)),
                    decreases v@.len() - i,
                {
                    assert(self->Any_0@[i as int].names_known(target_names(graph)));
                    proof {
                        vstd::std_specs::vec::axiom_vec_index_decreases(*v, i as int);
                    }
                    let child = v[i].names_to_indices_helper(graph);
                    w.push(child);
                    i = i + 1;
                }
                HoistsNeeded::Any(w)
            },
            HoistsNeededNamed::All(v) => {
                let mut w: Vec<HoistsNeeded> = Vec::new();
                let mut i: usize = 0;
                while i < v.len()
                    invariant
                        i <= v@.len(),
                        *self == HoistsNeededNamed::All(*v),
                        self.names_known(target_names(graph)),
                        w@.len() == i,
                        forall|t: int|
                            0 <= t < i ==> (#[trigger] v@[t]).same_as(w@[t], target_names(graph)),
                    decreases v@.len() - i,
                {
                    assert(self->All_0@[i as int].names_known(target_names(graph)));
                    proof {
                        vstd::std_specs::vec::axiom_vec_index_decreases(*v, i as int);
                    }
                    let child = v[i].names_to_indices_helper(graph);
                    w.push(child);
                    i = i + 1;
                }
                HoistsNeeded::All(w)
            },
        }
    }

    /// The same requirement with each name replaced by the number of the
    /// target of `graph` that has the name.
    pub fn names_to_indices(&self, graph: &DepGraph) -> (r: HoistsNeeded)
        requires
            self.names_known(target_names(graph)),
        ensures
            self.same_as(r, target_names(graph)),
    {
        self.names_to_indices_helper(graph)
    }
}

/// Whether every node of `alt` is in `hoisted`.
pub open spec fn alternative_met(alt: Seq<usize>, hoisted: Set<usize>) -> bool {
    forall|j: int| 0 <= j < alt.len() ==> hoisted.contains(#[trigger] alt[j])
}

/// Whether hoisting the nodes of `hoisted` meets the clause: one of its two
/// alternatives is hoisted completely.
pub open spec fn clause_met(c: Clause, hoisted: Set<usize>) -> bool {
    alternative_met(c.0, hoisted) || alternative_met(c.1, hoisted)
}

/// Whether hoisting the nodes of `hoisted` meets every clause.
pub open spec fn all_met(clauses: Seq<Clause>, hoisted: Set<usize>) -> bool {
    forall|i: int| 0 <= i < clauses.len() ==> clause_met(#[trigger] clauses[i], hoisted)
}

/// Whether some clause names the node `x` in one of its alternatives.
pub open spec fn is_mentioned(clauses: Seq<Clause>, x: usize) -> bool {
    exists|i: int|
        0 <= i < clauses.len() && ((#[trigger] clauses[i]).0.contains(x) || clauses[i].1.contains(
            x,
        ))
}

/// Whether every node that the clauses name is below `node_count`.
pub open spec fn clauses_in_range(clauses: Seq<Clause>, node_count: nat) -> bool {
    &&& forall|i: int, j: int|
        0 <= i < clauses.len() && 0 <= j < clauses[i].0.len() ==> (#[trigger] clauses[i].0[j])
            < node_count
    &&& forall|i: int, j: int|
        0 <= i < clauses.len() && 0 <= j < clauses[i].1.len() ==> (#[trigger] clauses[i].1[j])
            < node_count
}

/// Whether every node that the clauses name lies in some directory.
pub open spec fn clauses_in_dirs(clauses: Seq<Clause>, paths: Seq<Seq<usize>>) -> bool {
    &&& forall|i: int, j: int|
        0 <= i < clauses.len() && 0 <= j < clauses[i].0.len() ==> (#[trigger] clauses[i].0[j])
            < paths.len() && paths[clauses[i].0[j] as int].len() > 0
    &&& forall|i: int, j: int|
        0 <= i < clauses.len() && 0 <= j < clauses[i].1.len() ==> (#[trigger] clauses[i].1[j])
            < paths.len() && paths[clauses[i].1[j] as int].len() > 0
}

/// A node that clauses name lies in a directory, where all their nodes do.
pub proof fn lemma_mentioned_lies_in_dir(clauses: Seq<Clause>, paths: Seq<Seq<usize>>, x: usize)
    requires
        clauses_in_dirs(clauses, paths),
        is_mentioned(clauses, x),
    ensures
        x < paths.len(),
        paths[x as int].len() > 0,
{
    let i = choose|i: int|
        0 <= i < clauses.len() && ((#[trigger] clauses[i]).0.contains(x) || clauses[i].1.contains(
            x,
        ));
    if clauses[i].0.contains(x) {
        let j = choose|j: int| 0 <= j < clauses[i].0.len() && clauses[i].0[j] == x;
        assert(clauses[i].0[j] < paths.len());
    } else {
        let j = choose|j: int| 0 <= j < clauses[i].1.len() && clauses[i].1[j] == x;
        assert(clauses[i].1[j] < paths.len());
    }
}

impl FastHN {
    /// The clauses, without their flags.
    pub open spec fn clauses(&self) -> Seq<Clause> {
        Seq::new(self.0@.len(), |i: int| (self.0@[i].1@[0]@, self.0@[i].1@[1]@))
    }

    /// The flags: which clauses are active.
    pub open spec fn flags(&self) -> Seq<bool> {
        Seq::new(self.0@.len(), |i: int| self.0@[i].0)
    }

    /// The nodes of one alternative.
    fn helper(all1: &HoistsNeeded) -> (r: Vec<FastInt>)
        requires
            all1.is_node_list(),
        ensures
            r@ == all1.node_list(),
    {
        let mut out: Vec<FastInt> = Vec::new();
        match all1 {
            HoistsNeeded::Single(n) => {
                out.push(*n);
            },
            HoistsNeeded::All(v) => {
                let mut i: usize = 0;
                while i < v.len()
                    invariant
                        i <= v@.len(),
                        all1.is_node_list(),
                        *all1 == HoistsNeeded::All(*v),
                        out@ == all1.node_list().take(i as int),
                    decreases v@.len() - i,
                {
                    match &v[i] {
                        HoistsNeeded::Single(n) => {
                            out.push(*n);
                        },
                        _ => {
                            assert(false);
                        },
                    }
                    assert(all1.node_list().take(i + 1) == all1.node_list().take(i as int).push(
                        all1.node_list()[i as int],
                    ));
                    i = i + 1;
                }
                assert(all1.node_list().take(i as int) == all1.node_list());
            },
            HoistsNeeded::Any(_) => {
                assert(false);
            },
        }
        out
    }

    /// Converts a requirement of the three-level shape into the flat form. Every
    /// clause starts inactive.
    pub fn from_hn(all3: HoistsNeeded) -> (r: FastHN)
        requires
            all3.is_flat(),
        ensures
            r.clauses() == all3.clauses(),
            forall|i: int| 0 <= i < r.0@.len() ==> !(#[trigger] r.0@[i]).0,
    {
        let mut out: Vec<(bool, [Vec<FastInt>; 2])> = Vec::new();
        match &all3 {
            HoistsNeeded::All(v) => {
                let mut i: usize = 0;
                while i < v.len()
                    invariant
                        i <= v@.len(),
                        all3.is_flat(),
                        all3 == HoistsNeeded::All(*v),
                        out@.len() == i,
                        forall|k: int|
                            0 <= k < i ==> {
                                &&& !(#[trigger] out@[k]).0
                                &&& out@[k].1@[0]@ == all3.clauses()[k].0
                                &&& out@[k].1@[1]@ == all3.clauses()[k].1
                            },
                    decreases v@.len() - i,
                {
                    assert(all3->All_0@[i as int].is_clause());
                    match &v[i] {
                        HoistsNeeded::Any(w) => {
                            let first = Self::helper(&w[0]);
                            let second = Self::helper(&w[1]);
                            out.push((false, [first, second]));
                        },
                        _ => {
                            assert(false);
                        },
                    }
                    i = i + 1;
                }
            },
            _ => {
                assert(false);
            },
        }
        let r = FastHN(out);
        assert(r.clauses() =~= all3.clauses());
        r
    }
}

/// A requirement of the three-level shape asks for what its clauses ask for.
pub proof fn lemma_flat_form_means_the_same(all3: HoistsNeeded, hoisted: Set<usize>)
    requires
        all3.is_flat(),
    ensures
        all3.satisfied_by(hoisted) <==> all_met(all3.clauses(), hoisted),
{
    reveal_with_fuel(HoistsNeeded::satisfied_by, 4);
    let v = all3->All_0@;
    assert forall|i: int| 0 <= i < v.len() implies (#[trigger] v[i]).satisfied_by(hoisted)
        == clause_met(all3.clauses()[i], hoisted) by {
        assert(v[i].is_clause());
        let w = v[i]->Any_0@;
        lemma_node_list_means_the_same(w[0], hoisted);
        lemma_node_list_means_the_same(w[1], hoisted);
        if v[i].satisfied_by(hoisted) {
            let j = choose|j: int| 0 <= j < w.len() && (#[trigger] w[j]).satisfied_by(hoisted);
            assert(j == 0 || j == 1);
        }
        if clause_met(all3.clauses()[i], hoisted) {
            if alternative_met(w[0].node_list(), hoisted) {
                assert(w[0].satisfied_by(hoisted));
            } else {
                assert(w[1].satisfied_by(hoisted));
            }
        }
    }
    if all_met(all3.clauses(), hoisted) {
        assert forall|i: int| 0 <= i < v.len() implies (#[trigger] v[i]).satisfied_by(hoisted) by {
            assert(clause_met(all3.clauses()[i], hoisted));
        }
    }
    if all3.satisfied_by(hoisted) {
        assert forall|i: int| 0 <= i < all3.clauses().len() implies clause_met(
            #[trigger] all3.clauses()[i],
            hoisted,
        ) by {
            assert(v[i].satisfied_by(hoisted));
        }
    }
}

/// A plain list of nodes asks for every one of its nodes.
pub proof fn lemma_node_list_means_the_same(list: HoistsNeeded, hoisted: Set<usize>)
    requires
        list.is_node_list(),
    ensures
        list.satisfied_by(hoisted) <==> alternative_met(list.node_list(), hoisted),
{
    reveal_with_fuel(HoistsNeeded::satisfied_by, 2);
    match list {
        HoistsNeeded::Single(n) => {
            assert(list.node_list()[0] == n);
            if alternative_met(list.node_list(), hoisted) {
                assert(hoisted.contains(list.node_list()[0]));
            }
        },
        HoistsNeeded::All(v) => {
            let nodes = list.node_list();
            if list.satisfied_by(hoisted) {
                assert forall|j: int| 0 <= j < nodes.len() implies hoisted.contains(
                    #[trigger] nodes[j],
                ) by {
                    assert(v@[j].satisfied_by(hoisted));
                }
            }
            if alternative_met(nodes, hoisted) {
                assert forall|j: int| 0 <= j < v@.len() implies (#[trigger] v@[j]).satisfied_by(
                    hoisted,
                ) by {
                    assert(hoisted.contains(nodes[j]));
                }
            }
        },
        HoistsNeeded::Any(_) => {},
    }
}

/// How many of the two alternatives of `c` are the single node `node`.
pub open spec fn single_mentions(c: Clause, node: usize) -> nat {
    let a: nat = if c.0.len() == 1 && c.0[0] == node { 1 } else { 0 };
    let b: nat = if c.1.len() == 1 && c.1[0] == node { 1 } else { 0 };
    a + b
}

/// How often `node` stands alone as an alternative in the active ones among the
/// first `k` clauses.
pub open spec fn occurrences(clauses: Seq<Clause>, active: Seq<bool>, node: usize, k: int) -> nat
    decreases k,
{
    if k <= 0 {
        0
    } else {
        let here: nat = if active[k - 1] { single_mentions(clauses[k - 1], node) } else { 0 };
        occurrences(clauses, active, node, k - 1) + here
    }
}

/// How many of the first `k` clauses are active.
pub open spec fn active_count(active: Seq<bool>, k: int) -> nat
    decreases k,
{
    if k <= 0 {
        0
    } else {
        let here: nat = if active[k - 1] { 1 } else { 0 };
        active_count(active, k - 1) + here
    }
}

/// The flags after every clause that offers `node` alone as an alternative has
/// been switched off.
pub open spec fn disabled(clauses: Seq<Clause>, active: Seq<bool>, node: usize) -> Seq<bool> {
    Seq::new(active.len(), |i: int| active[i] && single_mentions(clauses[i], node) == 0)
}

/// Whether `m` is the node that stands alone most often in the active clauses;
/// among equally frequent nodes the one with the largest index.
pub open spec fn is_most_common(
    clauses: Seq<Clause>,
    active: Seq<bool>,
    node_count: nat,
    m: int,
) -> bool {
    let total = clauses.len() as int;
    &&& 0 <= m < node_count
    &&& forall|j: int|
        0 <= j < node_count ==> #[trigger] occurrences(clauses, active, j as usize, total)
            <= occurrences(clauses, active, m as usize, total)
    &&& forall|j: int|
        m < j < node_count ==> #[trigger] occurrences(clauses, active, j as usize, total)
            < occurrences(clauses, active, m as usize, total)
}

/// The most common node, see `is_most_common`.
pub open spec fn most_common(clauses: Seq<Clause>, active: Seq<bool>, node_count: nat) -> int {
    choose|m: int| is_most_common(clauses, active, node_count, m)
}

/// The first phase of the chooser: as long as some node stands alone in at least
/// two active clauses, take the most common such node and switch off every clause
/// that it settles. Gives the flags and the chosen set at the end of the phase.
pub open spec fn greedy_phase(
    clauses: Seq<Clause>,
    active: Seq<bool>,
    chosen: Set<usize>,
    node_count: nat,
) -> (Seq<bool>, Set<usize>)
    decreases active_count(active, clauses.len() as int),
{
    let m = most_common(clauses, active, node_count);
    if active.len() == clauses.len() && is_most_common(clauses, active, node_count, m)
        && occurrences(clauses, active, m as usize, clauses.len() as int) >= 2 {
        proof {
            lemma_disabling_shrinks(clauses, active, m as usize, clauses.len() as int);
        }
        greedy_phase(
            clauses,
            disabled(clauses, active, m as usize),
            chosen.insert(m as usize),
            node_count,
        )
    } else {
        (active, chosen)
    }
}

/// Switching off the clauses that `node` settles never raises the number of
/// active clauses, and lowers it if `node` stood alone in an active clause.
pub proof fn lemma_disabling_shrinks(clauses: Seq<Clause>, active: Seq<bool>, node: usize, k: int)
    requires
        active.len() == clauses.len(),
        0 <= k <= clauses.len(),
    ensures
        active_count(disabled(clauses, active, node), k) <= active_count(active, k),
        occurrences(clauses, active, node, k) > 0 ==> active_count(
            disabled(clauses, active, node),
            k,
        ) < active_count(active, k),
    decreases k,
{
    if k > 0 {
        lemma_disabling_shrinks(clauses, active, node, k - 1);
    }
}

/// A node that stands alone in an active clause is named by a clause.
pub proof fn lemma_counted_is_mentioned(
    clauses: Seq<Clause>,
    active: Seq<bool>,
    node: usize,
    k: int,
)
    requires
        0 <= k <= clauses.len(),
        occurrences(clauses, active, node, k) > 0,
    ensures
        is_mentioned(clauses, node),
    decreases k,
{
    if k > 0 {
        if active[k - 1] && single_mentions(clauses[k - 1], node) > 0 {
            let c = clauses[k - 1];
            if c.0.len() == 1 && c.0[0] == node {
                assert(c.0.contains(node));
            } else {
                assert(c.1[0] == node);
                assert(c.1.contains(node));
            }
        } else {
            lemma_counted_is_mentioned(clauses, active, node, k - 1);
        }
    }
}

/// How many of the first `k` nodes of `alt` are not in `chosen`.
pub open spec fn missing(alt: Seq<usize>, chosen: Set<usize>, k: int) -> nat
    decreases k,
{
    if k <= 0 {
        0
    } else {
        let here: nat = if chosen.contains(alt[k - 1]) { 0 } else { 1 };
        missing(alt, chosen, k - 1) + here
    }
}

/// The alternative of `c` that asks for the fewest nodes beyond `chosen`; the
/// first one where both ask for equally many.
pub open spec fn preferred(c: Clause, chosen: Set<usize>) -> Seq<usize> {
    if missing(c.1, chosen, c.1.len() as int) < missing(c.0, chosen, c.0.len() as int) {
        c.1
    } else {
        c.0
    }
}

/// `chosen` together with the first `k` nodes of `alt`.
pub open spec fn with_nodes(chosen: Set<usize>, alt: Seq<usize>, k: int) -> Set<usize>
    decreases k,
{
    if k <= 0 {
        chosen
    } else {
        with_nodes(chosen, alt, k - 1).insert(alt[k - 1])
    }
}

/// The second phase of the chooser over the first `k` clauses: each clause that
/// is still active gets its preferred alternative added to the chosen set.
pub open spec fn settle_phase(
    clauses: Seq<Clause>,
    active: Seq<bool>,
    chosen: Set<usize>,
    k: int,
) -> Set<usize>
    decreases k,
{
    if k <= 0 {
        chosen
    } else {
        let before = settle_phase(clauses, active, chosen, k - 1);
        if active[k - 1] {
            let alt = preferred(clauses[k - 1], before);
            with_nodes(before, alt, alt.len() as int)
        } else {
            before
        }
    }
}

/// The set of nodes that the chooser picks for a conjunction of clauses.
pub open spec fn chosen_nodes(node_count: nat, clauses: Seq<Clause>) -> Set<usize> {
    let start = Seq::new(clauses.len(), |i: int| true);
    let (active, chosen) = greedy_phase(clauses, start, Set::empty(), node_count);
    settle_phase(clauses, active, chosen, clauses.len() as int)
}

/// The first `k` lists of clauses, joined into one list.
pub open spec fn joined_clauses(lists: Seq<Seq<Clause>>, k: int) -> Seq<Clause>
    decreases k,
{
    if k <= 0 {
        Seq::empty()
    } else {
        joined_clauses(lists, k - 1) + lists[k - 1]
    }
}

/// The clause list of each entry of `cost`.
pub open spec fn clause_lists(cost: Seq<FastHN>) -> Seq<Seq<Clause>> {
    Seq::new(cost.len(), |i: int| cost[i].clauses())
}

/// All clauses of all entries of `cost`, one entry after the other.
pub open spec fn all_clauses(cost: Seq<FastHN>) -> Seq<Clause> {
    joined_clauses(clause_lists(cost), cost.len() as int)
}

/// The position of the largest entry of `v`, the last one among equals, as
/// `Itertools::position_max` finds it on the entries of `v` in order. `None` for
/// an empty `v`.
#[verifier::external_body]
fn position_max(v: &Vec<u128>) -> (r: Option<usize>)
    ensures
        match r {
            None => v@.len() == 0,
            Some(m) => {
                &&& m < v@.len()
                &&& forall|j: int| 0 <= j < v@.len() ==> v@[j] <= v@[m as int]
                &&& forall|j: int| m < j < v@.len() ==> v@[j] < v@[m as int]
            },
        },
{
    v.iter().position_max()
}

/// For each node, how often it stands alone as an alternative of an active clause.
pub fn count_occurences(node_count: usize, cost: &FastHN) -> (occurences: Vec<u128>)
    requires
        clauses_in_range(cost.clauses(), node_count as nat),
    ensures
        occurences@.len() == node_count,
        forall|n: int|
            0 <= n < node_count ==> #[trigger] occurences@[n] == occurrences(
                cost.clauses(),
                cost.flags(),
                n as usize,
                cost.0@.len() as int,
            ),
{
    let mut occurences: Vec<u128> = Vec::new();
    let mut n: usize = 0;
    while n < node_count
        invariant
            n <= node_count,
            occurences@.len() == n,
            forall|j: int| 0 <= j < n ==> occurences@[j] == 0,
        decreases node_count - n,
    {
        occurences.push(0);
        n = n + 1;
    }
    let ghost clauses = cost.clauses();
    let ghost flags = cost.flags();
    let mut i: usize = 0;
    while i < cost.0.len()
        invariant
            i <= cost.0@.len(),
            clauses == cost.clauses(),
            flags == cost.flags(),
            clauses_in_range(clauses, node_count as nat),
            occurences@.len() == node_count,
            forall|n: int|
                0 <= n < node_count ==> #[trigger] occurences@[n] == occurrences(
                    clauses,
                    flags,
                    n as usize,
                    i as int,
                ),
            forall|n: int| 0 <= n < node_count ==> #[trigger] occurences@[n] <= 2 * i,
        decreases cost.0@.len() - i,
    {
        let ghost before = occurences@;
        if cost.0[i].0 {
            let mut k: usize = 0;
            while k < 2
                invariant
                    k <= 2,
                    i < cost.0@.len(),
                    clauses == cost.clauses(),
                    flags == cost.flags(),
                    flags[i as int],
                    clauses_in_range(clauses, node_count as nat),
                            occurences@.len() == node_count,
                    before.len() == node_count,
                    forall|n: int| 0 <= n < node_count ==> #[trigger] before[n] <= 2 * i,
                    forall|n: int|
                        0 <= n < node_count ==> #[trigger] occurences@[n] == before[n] + (if k >= 1
                            && clauses[i as int].0.len() == 1 && clauses[i as int].0[0] == n {
                            1nat
                        } else {
                            0nat
                        }) + (if k >= 2 && clauses[i as int].1.len() == 1 && clauses[i as int].1[0]
                            == n {
                            1nat
                        } else {
                            0nat
                        }),
                decreases 2 - k,
            {
                if cost.0[i].1[k].len() == 1 {
                    let node = cost.0[i].1[k][0];
                    assert(node == if k == 0 {
                        clauses[i as int].0[0]
                    } else {
                        clauses[i as int].1[0]
                    });
                    assert(node < node_count);
                    let old_count = occurences[node];
                    occurences[node] = old_count + 1;
                }
                k = k + 1;
            }
        }
        i = i + 1;
    }
    occurences
}

/// Switches off every clause that offers `node` alone as one of its alternatives.
pub fn disable_solved_problems(cost: &mut FastHN, node: FastInt)
    ensures
        final(cost).clauses() == old(cost).clauses(),
        final(cost).flags() == disabled(old(cost).clauses(), old(cost).flags(), node),
{
    let ghost clauses = cost.clauses();
    let ghost flags = cost.flags();
    let mut i: usize = 0;
    while i < cost.0.len()
        invariant
            i <= cost.0@.len(),
            cost.0@.len() == clauses.len(),
            cost.clauses() == clauses,
            flags.len() == clauses.len(),
            forall|j: int|
                0 <= j < i ==> (#[trigger] cost.0@[j]).0 == (flags[j] && single_mentions(
                    clauses[j],
                    node,
                ) == 0),
            forall|j: int| i <= j < clauses.len() ==> (#[trigger] cost.0@[j]).0 == flags[j],
        decreases cost.0@.len() - i,
    {
        let hit0 = cost.0[i].1[0].len() == 1 && cost.0[i].1[0][0] == node;
        let hit1 = cost.0[i].1[1].len() == 1 && cost.0[i].1[1][0] == node;
        assert(clauses[i as int] == (cost.0@[i as int].1@[0]@, cost.0@[i as int].1@[1]@));
        if hit0 || hit1 {
            cost.0[i].0 = false;
            assert(cost.clauses() =~= clauses);
        }
        i = i + 1;
    }
    assert(cost.flags() =~= disabled(clauses, flags, node));
}

/// Two nodes that are both the most common one are the same node.
pub proof fn lemma_most_common_unique(
    clauses: Seq<Clause>,
    active: Seq<bool>,
    node_count: nat,
    m1: int,
    m2: int,
)
    requires
        is_most_common(clauses, active, node_count, m1),
        is_most_common(clauses, active, node_count, m2),
    ensures
        m1 == m2,
{
    let total = clauses.len() as int;
    if m1 < m2 {
        assert(occurrences(clauses, active, m2 as usize, total) < occurrences(
            clauses,
            active,
            m1 as usize,
            total,
        ));
        assert(occurrences(clauses, active, m1 as usize, total) <= occurrences(
            clauses,
            active,
            m2 as usize,
            total,
        ));
    } else if m2 < m1 {
        assert(occurrences(clauses, active, m1 as usize, total) < occurrences(
            clauses,
            active,
            m2 as usize,
            total,
        ));
        assert(occurrences(clauses, active, m2 as usize, total) <= occurrences(
            clauses,
            active,
            m1 as usize,
            total,
        ));
    }
}

/// Adding nodes to the hoisted set keeps a met clause met.
pub proof fn lemma_met_is_monotone(c: Clause, small: Set<usize>, large: Set<usize>)
    requires
        clause_met(c, small),
        small.subset_of(large),
    ensures
        clause_met(c, large),
{
    if alternative_met(c.0, small) {
        assert forall|j: int| 0 <= j < c.0.len() implies large.contains(#[trigger] c.0[j]) by {
            assert(small.contains(c.0[j]));
        }
    } else {
        assert forall|j: int| 0 <= j < c.1.len() implies large.contains(#[trigger] c.1[j]) by {
            assert(small.contains(c.1[j]));
        }
    }
}

/// How many nodes of `alt` are not yet in `chosen`.
fn count_missing(alt: &Vec<FastInt>, chosen: &HashSet<FastInt>) -> (r: usize)
    ensures
        r == missing(alt@, chosen@, alt@.len() as int),
{
    let mut r: usize = 0;
    let mut j: usize = 0;
    while j < alt.len()
        invariant
            j <= alt@.len(),
            r <= j,
            r == missing(alt@, chosen@, j as int),
        decreases alt@.len() - j,
    {
        if !chosen.contains(&alt[j]) {
            r = r + 1;
        }
        j = j + 1;
    }
    r
}

/// The chooser on one conjunction of clauses. Every clause is first switched on;
/// the flags are left as the first phase set them.
pub fn choose_hoists(node_count: usize, cost: &mut FastHN) -> (hoists_chosen: HashSet<FastInt>)
    requires
        clauses_in_range(old(cost).clauses(), node_count as nat),
    ensures
        final(cost).clauses() == old(cost).clauses(),
        final(cost).flags() == greedy_phase(
            old(cost).clauses(),
            Seq::new(old(cost).clauses().len(), |i: int| true),
            Set::empty(),
            node_count as nat,
        ).0,
        hoists_chosen@ == chosen_nodes(node_count as nat, old(cost).clauses()),
        all_met(old(cost).clauses(), hoists_chosen@),
        forall|x: usize| hoists_chosen@.contains(x) ==> x < node_count,
        forall|x: usize| hoists_chosen@.contains(x) ==> is_mentioned(old(cost).clauses(), x),
{
    let ghost clauses = cost.clauses();
    let ghost start = Seq::new(clauses.len(), |i: int| true);
    let mut i: usize = 0;
    while i < cost.0.len()
        invariant
            i <= cost.0@.len(),
            cost.clauses() == clauses,
            forall|j: int| 0 <= j < i ==> (#[trigger] cost.0@[j]).0,
        decreases cost.0@.len() - i,
    {
        cost.0[i].0 = true;
        assert(cost.clauses() =~= clauses);
        i = i + 1;
    }
    assert(cost.flags() =~= start);
    let mut hoists_chosen: HashSet<FastInt> = HashSet::new();
    loop
        invariant
            cost.clauses() == clauses,
            clauses_in_range(clauses, node_count as nat),
            greedy_phase(clauses, cost.flags(), hoists_chosen@, node_count as nat) == greedy_phase(
                clauses,
                start,
                Set::empty(),
                node_count as nat,
            ),
            forall|j: int|
                0 <= j < clauses.len() && !(#[trigger] cost.flags()[j]) ==> clause_met(
                    clauses[j],
                    hoists_chosen@,
                ),
            forall|x: usize| hoists_chosen@.contains(x) ==> x < node_count,
            forall|x: usize| hoists_chosen@.contains(x) ==> is_mentioned(clauses, x),
        ensures
            cost.clauses() == clauses,
            greedy_phase(clauses, start, Set::empty(), node_count as nat) == (
                cost.flags(),
                hoists_chosen@,
            ),
            forall|j: int|
                0 <= j < clauses.len() && !(#[trigger] cost.flags()[j]) ==> clause_met(
                    clauses[j],
                    hoists_chosen@,
                ),
            forall|x: usize| hoists_chosen@.contains(x) ==> x < node_count,
            forall|x: usize| hoists_chosen@.contains(x) ==> is_mentioned(clauses, x),
        decreases active_count(cost.flags(), clauses.len() as int),
    {
        let ghost flags = cost.flags();
        let ghost chosen = hoists_chosen@;
        let occurences = count_occurences(node_count, cost);
        let most_common_node = position_max(&occurences);
        match most_common_node {
            None => {
                break ;
            },
            Some(m) => {
                proof {
                    let total = clauses.len() as int;
                    assert forall|j: int| 0 <= j < node_count implies #[trigger] occurrences(
                        clauses,
                        flags,
                        j as usize,
                        total,
                    ) == occurences@[j] by {}
                    assert(is_most_common(clauses, flags, node_count as nat, m as int));
                }
                proof {
                    lemma_most_common_unique(
                        clauses,
                        flags,
                        node_count as nat,
                        m as int,
                        most_common(clauses, flags, node_count as nat),
                    );
                }
                if occurences[m] < 2 {
                    break ;
                }
                hoists_chosen.insert(m);
                disable_solved_problems(cost, m);
                proof {
                    lemma_counted_is_mentioned(clauses, flags, m, clauses.len() as int);
                    lemma_disabling_shrinks(clauses, flags, m, clauses.len() as int);
                    assert forall|j: int|
                        0 <= j < clauses.len() && !(#[trigger] cost.flags()[j]) implies clause_met(
                        clauses[j],
                        hoists_chosen@,
                    ) by {
                        if !flags[j] {
                            lemma_met_is_monotone(clauses[j], chosen, hoists_chosen@);
                        } else {
                            assert(single_mentions(clauses[j], m) != 0);
                        }
                    }
                }
            },
        }
    }
    let ghost flags = cost.flags();
    let ghost greedy_chosen = hoists_chosen@;
    let mut i: usize = 0;
    while i < cost.0.len()
        invariant
            i <= cost.0@.len(),
            cost.clauses() == clauses,
            cost.flags() == flags,
            clauses_in_range(clauses, node_count as nat),
            hoists_chosen@ == settle_phase(clauses, flags, greedy_chosen, i as int),
            forall|j: int|
                0 <= j < clauses.len() && !(#[trigger] flags[j]) ==> clause_met(
                    clauses[j],
                    hoists_chosen@,
                ),
            forall|j: int| 0 <= j < i ==> clause_met(#[trigger] clauses[j], hoists_chosen@),
            forall|x: usize| hoists_chosen@.contains(x) ==> x < node_count,
            forall|x: usize| hoists_chosen@.contains(x) ==> is_mentioned(clauses, x),
        decreases cost.0@.len() - i,
    {
        if cost.0[i].0 {
            let ghost before = hoists_chosen@;
            let first = count_missing(&cost.0[i].1[0], &hoists_chosen);
            let second = count_missing(&cost.0[i].1[1], &hoists_chosen);
            let minpos: usize = if second < first { 1 } else { 0 };
            let ghost alt = preferred(clauses[i as int], before);
            assert(cost.0@[i as int].1@[minpos as int]@ == alt);
            let mut j: usize = 0;
            while j < cost.0[i].1[minpos].len()
                invariant
                    i < cost.0@.len(),
                    minpos < 2,
                    j <= alt.len(),
                    cost.clauses() == clauses,
                    cost.flags() == flags,
                    clauses_in_range(clauses, node_count as nat),
                    cost.0@[i as int].1@[minpos as int]@ == alt,
                    alt == clauses[i as int].0 || alt == clauses[i as int].1,
                    hoists_chosen@ == with_nodes(before, alt, j as int),
                    before.subset_of(hoists_chosen@),
                    forall|t: int|
                        0 <= t < clauses.len() && !(#[trigger] flags[t]) ==> clause_met(
                            clauses[t],
                            before,
                        ),
                    forall|t: int| 0 <= t < i ==> clause_met(#[trigger] clauses[t], before),
                    forall|t: int| 0 <= t < j ==> hoists_chosen@.contains(#[trigger] alt[t]),
                    forall|x: usize| hoists_chosen@.contains(x) ==> x < node_count,
                    forall|x: usize| hoists_chosen@.contains(x) ==> is_mentioned(clauses, x),
                decreases alt.len() - j,
            {
                let ni = cost.0[i].1[minpos][j];
                proof {
                    assert(alt.contains(alt[j as int]));
                    assert(is_mentioned(clauses, ni));
                }
                hoists_chosen.insert(ni);
                j = j + 1;
            }
            proof {
                assert(alternative_met(alt, hoists_chosen@));
                assert(clause_met(clauses[i as int], hoists_chosen@));
                assert forall|t: int|
                    0 <= t < clauses.len() && !(#[trigger] flags[t]) implies clause_met(
                    clauses[t],
                    hoists_chosen@,
                ) by {
                    lemma_met_is_monotone(clauses[t], before, hoists_chosen@);
                }
                assert forall|t: int| 0 <= t < i + 1 implies clause_met(
                    #[trigger] clauses[t],
                    hoists_chosen@,
                ) by {
                    if t != i {
                        lemma_met_is_monotone(clauses[t], before, hoists_chosen@);
                    }
                }
            }
        } else {
            assert(!flags[i as int]);
        }
        i = i + 1;
    }
    hoists_chosen
}

/// Two lists of clauses that name nodes below `node_count` do so together.
proof fn lemma_joined_in_range(a: Seq<Clause>, b: Seq<Clause>, node_count: nat)
    requires
        clauses_in_range(a, node_count),
        clauses_in_range(b, node_count),
    ensures
        clauses_in_range(a + b, node_count),
{
    let both = a + b;
    assert forall|i: int, j: int|
        0 <= i < both.len() && 0 <= j < both[i].0.len() implies (#[trigger] both[i].0[j])
        < node_count by {
        if i < a.len() {
            assert(both[i] == a[i]);
            assert(a[i].0[j] < node_count);
        } else {
            assert(both[i] == b[i - a.len()]);
            assert(b[i - a.len()].0[j] < node_count);
        }
    }
    assert forall|i: int, j: int|
        0 <= i < both.len() && 0 <= j < both[i].1.len() implies (#[trigger] both[i].1[j])
        < node_count by {
        if i < a.len() {
            assert(both[i] == a[i]);
            assert(a[i].1[j] < node_count);
        } else {
            assert(both[i] == b[i - a.len()]);
            assert(b[i - a.len()].1[j] < node_count);
        }
    }
}

/// An approximation of the smallest set of nodes whose hoisting meets every
/// clause of every entry of `cost`. It is not exact: a smaller set may exist.
pub fn minimum_hoists_needed_approx(node_count: usize, cost: Vec<FastHN>) -> (hoists_chosen:
    HashSet<FastInt>)
    requires
        forall|i: int|
            0 <= i < cost@.len() ==> clauses_in_range(
                (#[trigger] cost@[i]).clauses(),
                node_count as nat,
            ),
        forall|i: int| 0 <= i < cost@.len() ==> (#[trigger] cost@[i]).0@.len() > 0,
    ensures
        hoists_chosen@ == chosen_nodes(node_count as nat, all_clauses(cost@)),
        all_met(all_clauses(cost@), hoists_chosen@),
        forall|x: usize| hoists_chosen@.contains(x) ==> x < node_count,
        forall|x: usize| hoists_chosen@.contains(x) ==> is_mentioned(all_clauses(cost@), x),
{
    let mut cost = cost;
    let ghost given = cost@;
    let mut all = FastHN(Vec::new());
    let mut i: usize = 0;
    assert(all.clauses() =~= joined_clauses(clause_lists(given), 0));
    while i < cost.len()
        invariant
            i <= cost@.len(),
            cost@.len() == given.len(),
            forall|j: int| i <= j < given.len() ==> cost@[j] == given[j],
            all.clauses() == joined_clauses(clause_lists(given), i as int),
            clauses_in_range(all.clauses(), node_count as nat),
            forall|j: int|
                0 <= j < given.len() ==> clauses_in_range(
                    (#[trigger] given[j]).clauses(),
                    node_count as nat,
                ),
        decreases cost@.len() - i,
    {
        let ghost before = all;
        all.0.append(&mut cost[i].0);
        proof {
            assert(all.clauses() =~= before.clauses() + given[i as int].clauses());
            lemma_joined_in_range(
                before.clauses(),
                given[i as int].clauses(),
                node_count as nat,
            );
        }
        i = i + 1;
    }
    choose_hoists(node_count, &mut all)
}

} // verus!
