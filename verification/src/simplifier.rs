//! The sub-problem that one group of sibling directories poses, and the
//! reductions that shrink it before the search: lonely nodes move up, a common
//! prefix is dropped, nodes above every directory are elided, and nodes that no
//! ordering conflict can touch are removed.

use crate::graph::edges_in_range;
use crate::graph::has_path_connecting;
use crate::graph::lists_of;
use crate::graph::reachable;
use crate::hoists::Clause;
use crate::hoists::HoistsNeeded;
use crate::paths::copy_range;
use crate::paths::find_position;
use crate::paths::is_prefix;
use crate::paths::lemma_position_of_present;
use crate::paths::path_begins_with_2;
use crate::paths::position;
use vstd::prelude::*;

verus! {

/// A part of the dependency graph. Node `i` stands for the target `targets[i]`
/// and lies `paths[i]` below the directory that the sub-problem belongs to. A
/// node that a reduction removed stays in the lists, with `alive[i]` false and
/// without edges, so that the other nodes keep their numbers.
#[derive(Debug, Clone)]
pub struct Subproblem {
    pub targets: Vec<usize>,
    pub paths: Vec<Vec<usize>>,
    pub alive: Vec<bool>,
    pub edges: Vec<(usize, usize)>,
}

impl Subproblem {
    /// The three node lists have one length, and every edge joins two nodes.
    pub open spec fn wf(&self) -> bool {
        &&& self.targets@.len() == self.paths@.len()
        &&& self.alive@.len() == self.paths@.len()
        &&& edges_in_range(self.edges@, self.paths@.len())
    }
}

/// What a sequence contains after a push.
pub proof fn lemma_push_contains<T>(s: Seq<T>, x: T, e: T)
    ensures
        s.push(x).contains(e) <==> s.contains(e) || e == x,
{
    if s.contains(e) {
        let i = choose|i: int| 0 <= i < s.len() && s[i] == e;
        assert(s.push(x)[i] == e);
    }
    if e == x {
        assert(s.push(x)[s.len() as int] == e);
    }
    if s.push(x).contains(e) {
        let i = choose|i: int| 0 <= i < s.push(x).len() && s.push(x)[i] == e;
        if i < s.len() {
            assert(s[i] == e);
        }
    }
}

// ---------------------------------------------------------------------------
// Lonely nodes move up.
// ---------------------------------------------------------------------------
/// Whether another node than `i` lies at or below the first `len` segments of
/// the path of node `i`.
pub open spec fn shares(paths: Seq<Seq<usize>>, i: int, len: int) -> bool {
    exists|j: int|
        0 <= j < paths.len() && j != i && is_prefix(paths[i].take(len), #[trigger] paths[j])
}

/// The length of the longest prefix, of at most `len` segments, of the path of
/// node `i` that is empty or shared with another node.
pub open spec fn settled_len(paths: Seq<Seq<usize>>, i: int, len: int) -> int
    decreases len,
{
    if len <= 0 {
        0
    } else if shares(paths, i, len) {
        len
    } else {
        settled_len(paths, i, len - 1)
    }
}

/// The paths after every node has moved up until it is at the top or shares
/// its directory, or a directory below it, with another node.
pub open spec fn settled_paths(paths: Seq<Seq<usize>>) -> Seq<Seq<usize>> {
    Seq::new(
        paths.len(),
        |i: int| paths[i].take(settled_len(paths, i, paths[i].len() as int)),
    )
}

/// The settled length is a length of the path, and of a prefix that is empty
/// or shared.
proof fn lemma_settled_len_is_settled(paths: Seq<Seq<usize>>, i: int, len: int)
    requires
        0 <= len,
    ensures
        0 <= settled_len(paths, i, len) <= len,
        settled_len(paths, i, len) == 0 || shares(paths, i, settled_len(paths, i, len)),
    decreases len,
{
    if len > 0 && !shares(paths, i, len) {
        lemma_settled_len_is_settled(paths, i, len - 1);
    }
}

/// No node moves above a prefix that it shares.
proof fn lemma_settled_len_reaches_shared(paths: Seq<Seq<usize>>, i: int, shared: int, len: int)
    requires
        0 < shared <= len,
        shares(paths, i, shared),
    ensures
        settled_len(paths, i, len) >= shared,
    decreases len,
{
    if !shares(paths, i, len) {
        lemma_settled_len_reaches_shared(paths, i, shared, len - 1);
    }
}

/// After the lonely nodes have moved up, every node stands on its old path,
/// and none can move further: each is at the top or shares its place.
pub proof fn lemma_settled_paths_are_settled(paths: Seq<Seq<usize>>, i: int)
    requires
        0 <= i < paths.len(),
    ensures
        is_prefix(settled_paths(paths)[i], paths[i]),
        settled_paths(paths)[i].len() > 0 ==> shares(
            settled_paths(paths),
            i,
            settled_paths(paths)[i].len() as int,
        ),
{
    let after = settled_paths(paths);
    let len = settled_len(paths, i, paths[i].len() as int);
    lemma_settled_len_is_settled(paths, i, paths[i].len() as int);
    if len > 0 {
        let j = choose|j: int|
            0 <= j < paths.len() && j != i && is_prefix(paths[i].take(len), #[trigger] paths[j]);
        assert(is_prefix(paths[j].take(len), paths[i])) by {
            assert forall|k: int| 0 <= k < len implies paths[i][k] == #[trigger] paths[j].take(
                len,
            )[k] by {
                assert(paths[i].take(len)[k] == paths[j][k]);
            }
        }
        assert(shares(paths, j, len));
        lemma_settled_len_reaches_shared(paths, j, len, paths[j].len() as int);
        lemma_settled_len_is_settled(paths, j, paths[j].len() as int);
        assert(is_prefix(after[i].take(len), after[j])) by {
            assert forall|k: int| 0 <= k < len implies after[j][k] == #[trigger] after[i].take(
                len,
            )[k] by {
                assert(paths[i].take(len)[k] == paths[j][k]);
            }
        }
    }
}

/// Whether node `i` can move up: it lies in a directory, and no other node lies
/// at or below that directory.
pub open spec fn is_lonely(paths: Seq<Seq<usize>>, i: int) -> bool {
    paths[i].len() > 0 && !shares(paths, i, paths[i].len() as int)
}

/// Whether the paths `now` can have come from the paths `paths` by lonely nodes
/// moving up: every node stands on its old path, at or below where
/// `settled_paths` puts it.
pub open spec fn is_on_the_way(paths: Seq<Seq<usize>>, now: Seq<Seq<usize>>) -> bool {
    &&& now.len() == paths.len()
    &&& forall|j: int|
        0 <= j < paths.len() ==> is_prefix(settled_paths(paths)[j], #[trigger] now[j])
            && is_prefix(now[j], paths[j])
}

/// Before any node has moved, the paths are on the way.
pub proof fn lemma_start_is_on_the_way(paths: Seq<Seq<usize>>)
    ensures
        is_on_the_way(paths, paths),
{
    assert forall|j: int| 0 <= j < paths.len() implies is_prefix(
        settled_paths(paths)[j],
        #[trigger] paths[j],
    ) && is_prefix(paths[j], paths[j]) by {
        lemma_settled_paths_are_settled(paths, j);
    }
}

/// Where a lonely node moves up by one directory, the paths stay on the way:
/// no node ever moves above where `settled_paths` puts it.
pub proof fn lemma_step_stays_on_the_way(paths: Seq<Seq<usize>>, now: Seq<Seq<usize>>, i: int)
    requires
        is_on_the_way(paths, now),
        0 <= i < paths.len(),
        is_lonely(now, i),
    ensures
        is_on_the_way(paths, now.update(i, now[i].drop_last())),
{
    let settled = settled_paths(paths);
    let next = now.update(i, now[i].drop_last());
    let len = settled_len(paths, i, paths[i].len() as int);
    lemma_settled_len_is_settled(paths, i, paths[i].len() as int);
    assert(is_prefix(settled[i], now[i]));
    assert(now[i].take(now[i].len() as int) == now[i]);
    if settled[i].len() == now[i].len() {
        // The node would stand where another node keeps it company.
        assert(settled[i] =~= now[i]);
        assert(len > 0);
        let j = choose|j: int|
            0 <= j < paths.len() && j != i && is_prefix(paths[i].take(len), #[trigger] paths[j]);
        assert(is_prefix(paths[j].take(len), paths[i])) by {
            assert forall|k: int| 0 <= k < len implies paths[i][k] == #[trigger] paths[j].take(
                len,
            )[k] by {
                assert(paths[i].take(len)[k] == paths[j][k]);
            }
        }
        assert(shares(paths, j, len));
        lemma_settled_len_reaches_shared(paths, j, len, paths[j].len() as int);
        lemma_settled_len_is_settled(paths, j, paths[j].len() as int);
        assert(is_prefix(settled[j], now[j]));
        assert(is_prefix(now[i], now[j])) by {
            assert forall|k: int| 0 <= k < now[i].len() implies now[j][k] == #[trigger] now[i][k] by {
                assert(settled[j][k] == paths[j][k]);
                assert(paths[i].take(len)[k] == paths[j][k]);
                assert(settled[i][k] == paths[i][k]);
            }
        }
        assert(shares(now, i, now[i].len() as int));
    }
    assert forall|j: int| 0 <= j < paths.len() implies is_prefix(settled[j], #[trigger] next[j])
        && is_prefix(next[j], paths[j]) by {
        assert(is_prefix(settled[j], now[j]) && is_prefix(now[j], paths[j]));
    }
}

/// Where no node can move up any more, every node stands where
/// `settled_paths` puts it: however the lonely nodes take their turns, they end
/// up in the same places.
pub proof fn lemma_fixed_point_is_settled(paths: Seq<Seq<usize>>, now: Seq<Seq<usize>>)
    requires
        is_on_the_way(paths, now),
        forall|i: int| 0 <= i < paths.len() ==> !is_lonely(now, i),
    ensures
        now == settled_paths(paths),
{
    let settled = settled_paths(paths);
    assert forall|i: int| 0 <= i < paths.len() implies now[i] == settled[i] by {
        assert(is_prefix(settled[i], now[i]) && is_prefix(now[i], paths[i]));
        lemma_settled_len_is_settled(paths, i, paths[i].len() as int);
        if now[i].len() > 0 {
            let len = now[i].len() as int;
            assert(!is_lonely(now, i));
            assert(now[i].take(len) == now[i]);
            let j = choose|j: int|
                0 <= j < now.len() && j != i && is_prefix(now[i].take(len), #[trigger] now[j]);
            assert(is_prefix(now[j], paths[j]));
            assert(is_prefix(paths[i].take(len), paths[j])) by {
                assert forall|k: int| 0 <= k < len implies paths[j][k] == #[trigger] paths[i].take(
                    len,
                )[k] by {
                    assert(now[i].take(len)[k] == now[j][k]);
                }
            }
            assert(shares(paths, i, len));
            lemma_settled_len_reaches_shared(paths, i, len, paths[i].len() as int);
        }
        assert(now[i] =~= settled[i]);
    }
    assert(now =~= settled);
}

/// Whether another node lies at or below the first `len` segments of the path
/// of node `i`.
fn is_shared(paths: &Vec<Vec<usize>>, i: usize, len: usize) -> (r: bool)
    requires
        i < paths@.len(),
        len <= paths@[i as int]@.len(),
    ensures
        r == shares(lists_of(*paths), i as int, len as int),
{
    let mut j: usize = 0;
    while j < paths.len()
        invariant
            j <= paths@.len(),
            i < paths@.len(),
            len <= paths@[i as int]@.len(),
            forall|t: int|
                0 <= t < j && t != i ==> !is_prefix(
                    lists_of(*paths)[i as int].take(len as int),
                    #[trigger] lists_of(*paths)[t],
                ),
        decreases paths@.len() - j,
    {
        if j != i && path_begins_with_2(&paths[j], &paths[i], len) {
            assert(is_prefix(
                lists_of(*paths)[i as int].take(len as int),
                lists_of(*paths)[j as int],
            ));
            return true;
        }
        j = j + 1;
    }
    false
}

/// If a directory holds only one node, the node may as well stand in the
/// directory above: every node moves up until it shares its place.
pub fn hoist_singles_upward(part: &mut Subproblem)
    ensures
        final(part).targets == old(part).targets,
        final(part).alive == old(part).alive,
        final(part).edges == old(part).edges,
        lists_of(final(part).paths) == settled_paths(lists_of(old(part).paths)),
{
    let ghost given = lists_of(part.paths);
    let mut out: Vec<Vec<usize>> = Vec::new();
    let mut i: usize = 0;
    while i < part.paths.len()
        invariant
            i <= part.paths@.len(),
            *part == *old(part),
            given == lists_of(part.paths),
            out@.len() == i,
            forall|t: int|
                0 <= t < i ==> (#[trigger] out@[t])@ == given[t].take(
                    settled_len(given, t, given[t].len() as int),
                ),
        decreases part.paths@.len() - i,
    {
        let mut len: usize = part.paths[i].len();
        while len > 0 && !is_shared(&part.paths, i, len)
            invariant
                i < part.paths@.len(),
                given == lists_of(part.paths),
                len <= given[i as int].len(),
                settled_len(given, i as int, len as int) == settled_len(
                    given,
                    i as int,
                    given[i as int].len() as int,
                ),
            decreases len,
        {
            len = len - 1;
        }
        let shortened = copy_range(&part.paths[i], 0, len);
        out.push(shortened);
        i = i + 1;
    }
    part.paths = out;
    assert(lists_of(part.paths) =~= settled_paths(given));
}

// ---------------------------------------------------------------------------
// The common prefix is dropped.
// ---------------------------------------------------------------------------
/// Whether every path has a segment at position `k`, the same in all of them.
pub open spec fn all_continue(paths: Seq<Seq<usize>>, k: int) -> bool {
    forall|i: int|
        0 <= i < paths.len() ==> (#[trigger] paths[i]).len() > k && paths[i][k] == paths[0][k]
}

/// The number of leading segments that all paths have in common, counted on
/// from position `k`.
pub open spec fn common_len(paths: Seq<Seq<usize>>, k: int) -> int
    decreases paths[0].len() - k,
{
    if paths.len() > 0 && 0 <= k && all_continue(paths, k) {
        proof {
            assert(paths[0].len() > k);
        }
        common_len(paths, k + 1)
    } else {
        k
    }
}

/// The paths without the segments that they all begin with.
pub open spec fn stripped_paths(paths: Seq<Seq<usize>>) -> Seq<Seq<usize>> {
    Seq::new(paths.len(), |i: int| paths[i].skip(common_len(paths, 0)))
}

/// The common length counts exactly the positions at which all paths agree.
proof fn lemma_common_len_is_common(paths: Seq<Seq<usize>>, k: int)
    requires
        paths.len() > 0,
        0 <= k,
    ensures
        common_len(paths, k) >= k,
        !all_continue(paths, common_len(paths, k)),
        forall|j: int| k <= j < common_len(paths, k) ==> all_continue(paths, j),
    decreases paths[0].len() - k,
{
    if all_continue(paths, k) {
        assert(paths[0].len() > k);
        lemma_common_len_is_common(paths, k + 1);
    }
}

/// After the common prefix has been dropped, the paths no longer begin with
/// one and the same segment.
pub proof fn lemma_stripped_paths_differ(paths: Seq<Seq<usize>>)
    requires
        paths.len() > 0,
    ensures
        !all_continue(stripped_paths(paths), 0),
{
    let after = stripped_paths(paths);
    let c = common_len(paths, 0);
    lemma_common_len_is_common(paths, 0);
    if all_continue(after, 0) {
        assert forall|i: int| 0 <= i < paths.len() implies (#[trigger] paths[i]).len() > c
            && paths[i][c] == paths[0][c] by {
            assert(after[i].len() > 0 && after[i][0] == after[0][0]);
            if c > 0 {
                assert(all_continue(paths, c - 1));
                assert(paths[0].len() > c - 1);
            }
            assert(paths[i].len() >= c);
        }
    }
}

/// What is left of a path when the common prefix is dropped is its end.
pub proof fn lemma_stripped_paths_keep_ends(paths: Seq<Seq<usize>>, i: int)
    requires
        0 <= i < paths.len(),
    ensures
        0 <= common_len(paths, 0) <= paths[i].len(),
        stripped_paths(paths)[i].len() == paths[i].len() - common_len(paths, 0),
{
    lemma_common_len_is_common(paths, 0);
    let c = common_len(paths, 0);
    if c > 0 {
        assert(all_continue(paths, c - 1));
    }
}

/// Whether every path has a segment at position `k`, the same in all of them.
fn continues(paths: &Vec<Vec<usize>>, k: usize) -> (r: bool)
    requires
        paths@.len() > 0,
    ensures
        r == all_continue(lists_of(*paths), k as int),
{
    if paths[0].len() <= k {
        assert(lists_of(*paths)[0].len() <= k);
        return false;
    }
    let mut i: usize = 0;
    while i < paths.len()
        invariant
            i <= paths@.len(),
            paths@.len() > 0,
            paths@[0]@.len() > k,
            forall|t: int|
                0 <= t < i ==> (#[trigger] lists_of(*paths)[t]).len() > k && lists_of(
                    *paths,
                )[t][k as int] == lists_of(*paths)[0][k as int],
        decreases paths@.len() - i,
    {
        if paths[i].len() <= k || paths[i][k] != paths[0][k] {
            assert(!(lists_of(*paths)[i as int].len() > k && lists_of(*paths)[i as int][k as int]
                == lists_of(*paths)[0][k as int]));
            return false;
        }
        i = i + 1;
    }
    true
}

/// Drops the leading segments that the paths of all nodes have in common.
pub fn kill_common_prefix(part: &mut Subproblem)
    ensures
        final(part).targets == old(part).targets,
        final(part).alive == old(part).alive,
        final(part).edges == old(part).edges,
        lists_of(final(part).paths) == stripped_paths(lists_of(old(part).paths)),
{
    let ghost given = lists_of(part.paths);
    let mut k: usize = 0;
    if part.paths.len() > 0 {
        let first_len = part.paths[0].len();
        while continues(&part.paths, k)
            invariant
                part.paths@.len() > 0,
                given[0].len() == first_len,
                *part == *old(part),
                given == lists_of(part.paths),
                common_len(given, k as int) == common_len(given, 0),
                forall|i: int| 0 <= i < given.len() ==> (#[trigger] given[i]).len() >= k,
            decreases given[0].len() - k,
        {
            assert(given[0].len() > k);
            k = k + 1;
        }
    }
    let mut out: Vec<Vec<usize>> = Vec::new();
    let mut i: usize = 0;
    while i < part.paths.len()
        invariant
            i <= part.paths@.len(),
            *part == *old(part),
            given == lists_of(part.paths),
            k == common_len(given, 0),
            forall|t: int| 0 <= t < given.len() ==> (#[trigger] given[t]).len() >= k,
            out@.len() == i,
            forall|t: int| 0 <= t < i ==> (#[trigger] out@[t])@ == given[t].skip(k as int),
        decreases part.paths@.len() - i,
    {
        assert(given[i as int].len() >= k);
        let rest = copy_range(&part.paths[i], k, part.paths[i].len());
        out.push(rest);
        i = i + 1;
    }
    part.paths = out;
    assert(lists_of(part.paths) =~= stripped_paths(given));
}

/// Some more or less trivial simplifications: lonely nodes move up, then the
/// common prefix is dropped.
pub fn simple_simplifications(part: &mut Subproblem)
    ensures
        final(part).targets == old(part).targets,
        final(part).alive == old(part).alive,
        final(part).edges == old(part).edges,
        lists_of(final(part).paths) == stripped_paths(settled_paths(lists_of(old(part).paths))),
{
    hoist_singles_upward(part);
    kill_common_prefix(part);
}

// ---------------------------------------------------------------------------
// Nodes above every directory are elided.
// ---------------------------------------------------------------------------
/// The start nodes of those among the first `k` edges that lead into `t`.
pub open spec fn sources_into(edges: Seq<(usize, usize)>, t: usize, k: int) -> Seq<usize>
    decreases k,
{
    if k <= 0 {
        Seq::empty()
    } else if edges[k - 1].1 == t {
        sources_into(edges, t, k - 1).push(edges[k - 1].0)
    } else {
        sources_into(edges, t, k - 1)
    }
}

/// The end nodes of those among the first `k` edges that start at `t`.
pub open spec fn targets_from(edges: Seq<(usize, usize)>, t: usize, k: int) -> Seq<usize>
    decreases k,
{
    if k <= 0 {
        Seq::empty()
    } else if edges[k - 1].0 == t {
        targets_from(edges, t, k - 1).push(edges[k - 1].1)
    } else {
        targets_from(edges, t, k - 1)
    }
}

/// Whether the nodes `a` and `b` both lie in a directory, and in the same one.
pub open spec fn same_first(paths: Seq<Seq<usize>>, a: usize, b: usize) -> bool {
    &&& a < paths.len()
    &&& b < paths.len()
    &&& paths[a as int].len() > 0
    &&& paths[b as int].len() > 0
    &&& paths[a as int][0] == paths[b as int][0]
}

/// The edges with `e` among them: added at the end unless it is there already.
pub open spec fn with_edge(edges: Seq<(usize, usize)>, e: (usize, usize)) -> Seq<(usize, usize)> {
    if edges.contains(e) {
        edges
    } else {
        edges.push(e)
    }
}

/// The edges and the forced pairs after `a` has been joined to the first `k`
/// nodes of `outs`. A pair is forced where both nodes lie in one directory.
pub open spec fn bypass_row(
    paths: Seq<Seq<usize>>,
    edges: Seq<(usize, usize)>,
    forced: Seq<(usize, usize)>,
    a: usize,
    outs: Seq<usize>,
    k: int,
) -> (Seq<(usize, usize)>, Seq<(usize, usize)>)
    decreases k,
{
    if k <= 0 {
        (edges, forced)
    } else {
        let (e, f) = bypass_row(paths, edges, forced, a, outs, k - 1);
        let b = outs[k - 1];
        (
            with_edge(e, (a, b)),
            if same_first(paths, a, b) {
                f.push((a, b))
            } else {
                f
            },
        )
    }
}

/// The edges and the forced pairs after each of the first `k` nodes of `ins`
/// has been joined to every node of `outs`.
pub open spec fn bypass_all(
    paths: Seq<Seq<usize>>,
    edges: Seq<(usize, usize)>,
    forced: Seq<(usize, usize)>,
    ins: Seq<usize>,
    outs: Seq<usize>,
    k: int,
) -> (Seq<(usize, usize)>, Seq<(usize, usize)>)
    decreases k,
{
    if k <= 0 {
        (edges, forced)
    } else {
        let (e, f) = bypass_all(paths, edges, forced, ins, outs, k - 1);
        bypass_row(paths, e, f, ins[k - 1], outs, outs.len() as int)
    }
}

/// Those among the first `k` edges that do not touch `t`.
pub open spec fn without_node(edges: Seq<(usize, usize)>, t: usize, k: int) -> Seq<(usize, usize)>
    decreases k,
{
    if k <= 0 {
        Seq::empty()
    } else if edges[k - 1].0 != t && edges[k - 1].1 != t {
        without_node(edges, t, k - 1).push(edges[k - 1])
    } else {
        without_node(edges, t, k - 1)
    }
}

/// The flags, the edges and the forced pairs after the nodes below `t` that
/// lie above every directory have been elided, in the order of their numbers:
/// each node that depends on such a node is joined to each node that it depends
/// on, and the node is removed with its edges.
pub open spec fn elided(
    paths: Seq<Seq<usize>>,
    alive: Seq<bool>,
    edges: Seq<(usize, usize)>,
    t: int,
) -> (Seq<bool>, Seq<(usize, usize)>, Seq<(usize, usize)>)
    decreases t,
{
    if t <= 0 {
        (alive, edges, Seq::empty())
    } else {
        let (al, e, f) = elided(paths, alive, edges, t - 1);
        if al[t - 1] && paths[t - 1].len() == 0 {
            let node = (t - 1) as usize;
            let ins = sources_into(e, node, e.len() as int);
            let outs = targets_from(e, node, e.len() as int);
            let (e2, f2) = bypass_all(paths, e, f, ins, outs, ins.len() as int);
            (al.update(t - 1, false), without_node(e2, node, e2.len() as int), f2)
        } else {
            (al, e, f)
        }
    }
}

/// Eliding keeps the number of nodes, brings no node back, and leaves none of
/// the nodes below `t` above every directory.
pub proof fn lemma_elided_leaves_no_top(
    paths: Seq<Seq<usize>>,
    alive: Seq<bool>,
    edges: Seq<(usize, usize)>,
    t: int,
)
    requires
        0 <= t <= alive.len(),
        alive.len() == paths.len(),
    ensures
        elided(paths, alive, edges, t).0.len() == alive.len(),
        forall|x: int|
            0 <= x < alive.len() && (#[trigger] elided(paths, alive, edges, t).0[x]) ==> alive[x],
        forall|x: int|
            0 <= x < t ==> !((#[trigger] elided(paths, alive, edges, t).0[x]) && paths[x].len()
                == 0),
        forall|x: int|
            t <= x < alive.len() ==> (#[trigger] elided(paths, alive, edges, t).0[x]) == alive[x],
    decreases t,
{
    if t > 0 {
        lemma_elided_leaves_no_top(paths, alive, edges, t - 1);
    }
}

/// The clauses that forced pairs stand for: of each pair, one node or the
/// other has to be hoisted.
pub open spec fn pair_clauses(pairs: Seq<(usize, usize)>) -> Seq<Clause> {
    Seq::new(pairs.len(), |i: int| (seq![pairs[i].0], seq![pairs[i].1]))
}

/// Whether the two nodes of every pair lie in one directory.
pub open spec fn pairs_in_one_dir(paths: Seq<Seq<usize>>, pairs: Seq<(usize, usize)>) -> bool {
    forall|i: int| 0 <= i < pairs.len() ==> same_first(paths, (#[trigger] pairs[i]).0, pairs[i].1)
}

/// Whether every entry is below `n`.
pub open spec fn all_below(s: Seq<usize>, n: nat) -> bool {
    forall|i: int| 0 <= i < s.len() ==> (#[trigger] s[i]) < n
}

/// The start nodes of the edges that lead into `t`.
fn collect_sources(edges: &Vec<(usize, usize)>, t: usize, Ghost(n): Ghost<nat>) -> (r: Vec<usize>)
    requires
        edges_in_range(edges@, n),
    ensures
        r@ == sources_into(edges@, t, edges@.len() as int),
        all_below(r@, n),
{
    let mut r: Vec<usize> = Vec::new();
    let mut k: usize = 0;
    while k < edges.len()
        invariant
            k <= edges@.len(),
            edges_in_range(edges@, n),
            r@ == sources_into(edges@, t, k as int),
            all_below(r@, n),
        decreases edges@.len() - k,
    {
        if edges[k].1 == t {
            r.push(edges[k].0);
        }
        k = k + 1;
    }
    r
}

/// The end nodes of the edges that start at `t`.
fn collect_targets(edges: &Vec<(usize, usize)>, t: usize, Ghost(n): Ghost<nat>) -> (r: Vec<usize>)
    requires
        edges_in_range(edges@, n),
    ensures
        r@ == targets_from(edges@, t, edges@.len() as int),
        all_below(r@, n),
{
    let mut r: Vec<usize> = Vec::new();
    let mut k: usize = 0;
    while k < edges.len()
        invariant
            k <= edges@.len(),
            edges_in_range(edges@, n),
            r@ == targets_from(edges@, t, k as int),
            all_below(r@, n),
        decreases edges@.len() - k,
    {
        if edges[k].0 == t {
            r.push(edges[k].1);
        }
        k = k + 1;
    }
    r
}

/// Whether the edge `(a, b)` is among `edges`.
pub fn has_edge(edges: &Vec<(usize, usize)>, a: usize, b: usize) -> (r: bool)
    ensures
        r == edges@.contains((a, b)),
{
    let mut k: usize = 0;
    while k < edges.len()
        invariant
            k <= edges@.len(),
            forall|j: int| 0 <= j < k ==> #[trigger] edges@[j] != (a, b),
        decreases edges@.len() - k,
    {
        if edges[k].0 == a && edges[k].1 == b {
            assert(edges@[k as int] == (a, b));
            return true;
        }
        k = k + 1;
    }
    false
}

/// Whether the nodes `a` and `b` both lie in a directory, and in the same one.
fn in_same_dir(paths: &Vec<Vec<usize>>, a: usize, b: usize) -> (r: bool)
    ensures
        r == same_first(lists_of(*paths), a, b),
{
    a < paths.len() && b < paths.len() && paths[a].len() > 0 && paths[b].len() > 0 && paths[a][0]
        == paths[b][0]
}

/// The edges that do not touch `t`.
fn drop_node(edges: &Vec<(usize, usize)>, t: usize, Ghost(n): Ghost<nat>) -> (r: Vec<
    (usize, usize),
>)
    requires
        edges_in_range(edges@, n),
    ensures
        r@ == without_node(edges@, t, edges@.len() as int),
        edges_in_range(r@, n),
{
    let mut r: Vec<(usize, usize)> = Vec::new();
    let mut k: usize = 0;
    while k < edges.len()
        invariant
            k <= edges@.len(),
            edges_in_range(edges@, n),
            r@ == without_node(edges@, t, k as int),
            edges_in_range(r@, n),
        decreases edges@.len() - k,
    {
        if edges[k].0 != t && edges[k].1 != t {
            r.push(edges[k]);
        }
        k = k + 1;
    }
    r
}

/// The requirement that forced pairs stand for.
fn forced_requirement(pairs: &Vec<(usize, usize)>) -> (r: HoistsNeeded)
    ensures
        r.is_written_with(false),
        r.clauses() == pair_clauses(pairs@),
{
    let mut all: Vec<HoistsNeeded> = Vec::new();
    let mut i: usize = 0;
    while i < pairs.len()
        invariant
            i <= pairs@.len(),
            all@.len() == i,
            forall|t: int|
                0 <= t < i ==> (#[trigger] all@[t]).is_clause() && all@[t].clause()
                    == pair_clauses(pairs@)[t],
            forall|t: int, j: int|
                0 <= t < i && 0 <= j < 2 ==> (#[trigger] all@[t]->Any_0@[j]) is Single,
        decreases pairs@.len() - i,
    {
        let mut any: Vec<HoistsNeeded> = Vec::new();
        any.push(HoistsNeeded::Single(pairs[i].0));
        any.push(HoistsNeeded::Single(pairs[i].1));
        let choice = HoistsNeeded::Any(any);
        assert(choice.is_clause());
        assert(choice.clause().0 =~= seq![pairs@[i as int].0]);
        assert(choice.clause().1 =~= seq![pairs@[i as int].1]);
        all.push(choice);
        i = i + 1;
    }
    let r = HoistsNeeded::All(all);
    assert(r.clauses() =~= pair_clauses(pairs@));
    r
}

/// Elides every node that lies above all directories: whoever depends on it is
/// joined to whatever it depends on, and the node is removed. Where such a
/// bypass joins two nodes of one directory, one of the two has to be hoisted
/// whatever the order of the directories; the result holds these forced choices.
pub fn remove_top_elements(part: &mut Subproblem) -> (forced: HoistsNeeded)
    requires
        old(part).wf(),
    ensures
        final(part).wf(),
        final(part).targets == old(part).targets,
        final(part).paths == old(part).paths,
        (final(part).alive@, final(part).edges@) == ({
            let r = elided(
                lists_of(old(part).paths),
                old(part).alive@,
                old(part).edges@,
                old(part).paths@.len() as int,
            );
            (r.0, r.1)
        }),
        forced.is_written_with(false),
        forced.clauses() == pair_clauses(
            elided(
                lists_of(old(part).paths),
                old(part).alive@,
                old(part).edges@,
                old(part).paths@.len() as int,
            ).2,
        ),
        crate::hoists::clauses_in_range(forced.clauses(), old(part).paths@.len()),
        crate::hoists::clauses_in_dirs(forced.clauses(), lists_of(old(part).paths)),
{
    let ghost paths = lists_of(part.paths);
    let ghost n = part.paths@.len();
    let ghost alive0 = part.alive@;
    let ghost edges0 = part.edges@;
    let mut pairs: Vec<(usize, usize)> = Vec::new();
    let mut t: usize = 0;
    while t < part.paths.len()
        invariant
            t <= n,
            n == part.paths@.len(),
            part.wf(),
            part.targets == old(part).targets,
            part.paths == old(part).paths,
            paths == lists_of(part.paths),
            (part.alive@, part.edges@, pairs@) == elided(paths, alive0, edges0, t as int),
            pairs_in_one_dir(paths, pairs@),
        decreases n - t,
    {
        if part.alive[t] && part.paths[t].len() == 0 {
            let ins = collect_sources(&part.edges, t, Ghost(n));
            let outs = collect_targets(&part.edges, t, Ghost(n));
            let ghost edges_then = part.edges@;
            let ghost pairs_then = pairs@;
            let mut i: usize = 0;
            while i < ins.len()
                invariant
                    i <= ins@.len(),
                    t < n,
                    n == part.paths@.len(),
                    part.wf(),
                    part.targets == old(part).targets,
                    part.paths == old(part).paths,
                    part.alive@ == elided(paths, alive0, edges0, t as int).0,
                    paths == lists_of(part.paths),
                    all_below(ins@, n),
                    all_below(outs@, n),
                    (part.edges@, pairs@) == bypass_all(
                        paths,
                        edges_then,
                        pairs_then,
                        ins@,
                        outs@,
                        i as int,
                    ),
                    pairs_in_one_dir(paths, pairs@),
                decreases ins@.len() - i,
            {
                let a = ins[i];
                let ghost edges_row = part.edges@;
                let ghost pairs_row = pairs@;
                let mut j: usize = 0;
                while j < outs.len()
                    invariant
                        j <= outs@.len(),
                        i < ins@.len(),
                        a == ins@[i as int],
                        a < n,
                        t < n,
                        n == part.paths@.len(),
                        part.wf(),
                        part.targets == old(part).targets,
                        part.paths == old(part).paths,
                        part.alive@ == elided(paths, alive0, edges0, t as int).0,
                        paths == lists_of(part.paths),
                        all_below(outs@, n),
                        (part.edges@, pairs@) == bypass_row(
                            paths,
                            edges_row,
                            pairs_row,
                            a,
                            outs@,
                            j as int,
                        ),
                        pairs_in_one_dir(paths, pairs@),
                    decreases outs@.len() - j,
                {
                    let b = outs[j];
                    if !has_edge(&part.edges, a, b) {
                        part.edges.push((a, b));
                    }
                    if in_same_dir(&part.paths, a, b) {
                        pairs.push((a, b));
                    }
                    j = j + 1;
                }
                i = i + 1;
            }
            let kept = drop_node(&part.edges, t, Ghost(n));
            part.edges = kept;
            part.alive[t] = false;
            assert(part.alive@ =~= elided(paths, alive0, edges0, t as int).0.update(
                t as int,
                false,
            ));
        }
        t = t + 1;
    }
    let forced = forced_requirement(&pairs);
    proof {
        assert forall|i: int| 0 <= i < pairs@.len() implies (#[trigger] pairs@[i]).0 < n
            && pairs@[i].1 < n by {
            assert(same_first(paths, pairs@[i].0, pairs@[i].1));
        }
        assert(crate::hoists::clauses_in_range(forced.clauses(), n));
        assert(crate::hoists::clauses_in_dirs(forced.clauses(), paths)) by {
            assert forall|i: int| 0 <= i < forced.clauses().len() implies (
            #[trigger] forced.clauses()[i]) == (seq![pairs@[i].0], seq![pairs@[i].1])
                && same_first(paths, pairs@[i].0, pairs@[i].1) by {}
        }
    }
    forced
}

// ---------------------------------------------------------------------------
// Nodes that no ordering conflict can touch are removed.
// ---------------------------------------------------------------------------
/// The edges of the sub-problem together with an edge in both directions
/// between every two living nodes of one directory.
pub open spec fn happy_relation(
    paths: Seq<Seq<usize>>,
    alive: Seq<bool>,
    edges: Seq<(usize, usize)>,
) -> Set<(usize, usize)> {
    Set::new(
        |e: (usize, usize)|
            edges.contains(e) || (same_first(paths, e.0, e.1) && alive[e.0 as int]
                && alive[e.1 as int]),
    )
}

/// Whether one of the edges at node `n` lies on a cycle of the relation `rel`.
pub open spec fn on_cycle_edge(
    rel: Set<(usize, usize)>,
    edges: Seq<(usize, usize)>,
    n: usize,
    k: int,
) -> bool {
    exists|j: int|
        0 <= j < k && ((#[trigger] edges[j]).0 == n || edges[j].1 == n) && reachable(
            rel,
            edges[j].1,
            edges[j].0,
        )
}

/// The flags after every node has been removed none of whose edges lies on a
/// cycle that may pass from node to node inside a directory.
pub open spec fn unhappy(
    paths: Seq<Seq<usize>>,
    alive: Seq<bool>,
    edges: Seq<(usize, usize)>,
) -> Seq<bool> {
    Seq::new(
        alive.len(),
        |n: int|
            alive[n] && on_cycle_edge(
                happy_relation(paths, alive, edges),
                edges,
                n as usize,
                edges.len() as int,
            ),
    )
}

/// Those among the first `k` edges that join two living nodes.
pub open spec fn kept_edges(edges: Seq<(usize, usize)>, alive: Seq<bool>, k: int) -> Seq<
    (usize, usize),
>
    decreases k,
{
    if k <= 0 {
        Seq::empty()
    } else if alive[edges[k - 1].0 as int] && alive[edges[k - 1].1 as int] {
        kept_edges(edges, alive, k - 1).push(edges[k - 1])
    } else {
        kept_edges(edges, alive, k - 1)
    }
}

/// Removes all nodes that can always be put in the right folder: those without
/// an edge that lies on a cycle once the nodes of each directory count as joined
/// to each other in both directions.
pub fn remove_always_happy(part: &mut Subproblem)
    requires
        old(part).wf(),
    ensures
        final(part).wf(),
        final(part).targets == old(part).targets,
        final(part).paths == old(part).paths,
        final(part).alive@ == unhappy(
            lists_of(old(part).paths),
            old(part).alive@,
            old(part).edges@,
        ),
        final(part).edges@ == kept_edges(
            old(part).edges@,
            final(part).alive@,
            old(part).edges@.len() as int,
        ),
{
    let ghost paths = lists_of(part.paths);
    let ghost rel = happy_relation(paths, part.alive@, part.edges@);
    let n = part.paths.len();
    let mut helper: Vec<(usize, usize)> = Vec::new();
    let mut k: usize = 0;
    while k < part.edges.len()
        invariant
            k <= part.edges@.len(),
            *part == *old(part),
            part.wf(),
            helper@ == part.edges@.take(k as int),
        decreases part.edges@.len() - k,
    {
        helper.push(part.edges[k]);
        assert(part.edges@.take(k + 1) == part.edges@.take(k as int).push(part.edges@[k as int]));
        k = k + 1;
    }
    assert(helper@ == part.edges@) by {
        assert(part.edges@.take(part.edges@.len() as int) == part.edges@);
    }
    let mut a: usize = 0;
    while a < n
        invariant
            a <= n,
            n == part.paths@.len(),
            *part == *old(part),
            part.wf(),
            paths == lists_of(part.paths),
            edges_in_range(helper@, n as nat),
            forall|e: (usize, usize)|
                #[trigger] helper@.contains(e) <==> part.edges@.contains(e) || (e.0 < a
                    && same_first(paths, e.0, e.1) && part.alive@[e.0 as int]
                    && part.alive@[e.1 as int]),
        decreases n - a,
    {
        let mut b: usize = 0;
        while b < n
            invariant
                b <= n,
                a < n,
                n == part.paths@.len(),
                *part == *old(part),
                part.wf(),
                paths == lists_of(part.paths),
                edges_in_range(helper@, n as nat),
                forall|e: (usize, usize)|
                    #[trigger] helper@.contains(e) <==> part.edges@.contains(e) || ((e.0 < a || (e.0
                        == a && e.1 < b)) && same_first(paths, e.0, e.1) && part.alive@[e.0 as int]
                        && part.alive@[e.1 as int]),
            decreases n - b,
        {
            if part.alive[a] && part.alive[b] && in_same_dir(&part.paths, a, b) {
                let ghost before = helper@;
                helper.push((a, b));
                proof {
                    assert forall|e: (usize, usize)| #[trigger]
                        helper@.contains(e) <==> part.edges@.contains(e) || ((e.0 < a || (e.0 == a
                            && e.1 < b + 1)) && same_first(paths, e.0, e.1)
                            && part.alive@[e.0 as int] && part.alive@[e.1 as int]) by {
                        lemma_push_contains(before, (a, b), e);
                    }
                }
            }
            b = b + 1;
        }
        a = a + 1;
    }
    assert(helper@.to_set() =~= rel);
    let mut keep: Vec<bool> = Vec::new();
    let mut node: usize = 0;
    while node < n
        invariant
            node <= n,
            n == part.paths@.len(),
            *part == *old(part),
            part.wf(),
            paths == lists_of(part.paths),
            edges_in_range(helper@, n as nat),
            helper@.to_set() == rel,
            rel == happy_relation(paths, part.alive@, part.edges@),
            keep@.len() == node,
            forall|t: int|
                0 <= t < node ==> #[trigger] keep@[t] == (part.alive@[t] && on_cycle_edge(
                    rel,
                    part.edges@,
                    t as usize,
                    part.edges@.len() as int,
                )),
        decreases n - node,
    {
        let mut found = false;
        if part.alive[node] {
            let mut j: usize = 0;
            while j < part.edges.len() && !found
                invariant
                    j <= part.edges@.len(),
                    node < n,
                    n == part.paths@.len(),
                    part.wf(),
                    edges_in_range(helper@, n as nat),
                    helper@.to_set() == rel,
                    found ==> on_cycle_edge(
                        rel,
                        part.edges@,
                        node,
                        part.edges@.len() as int,
                    ),
                    !found ==> !on_cycle_edge(rel, part.edges@, node, j as int),
                decreases part.edges@.len() - j,
            {
                let e = part.edges[j];
                if (e.0 == node || e.1 == node) && has_path_connecting(n, &helper, e.1, e.0) {
                    found = true;
                }
                j = j + 1;
            }
        }
        keep.push(found);
        node = node + 1;
    }
    assert(keep@ =~= unhappy(paths, part.alive@, part.edges@));
    let mut kept: Vec<(usize, usize)> = Vec::new();
    let mut k: usize = 0;
    while k < part.edges.len()
        invariant
            k <= part.edges@.len(),
            n == part.paths@.len(),
            keep@.len() == n,
            *part == *old(part),
            part.wf(),
            kept@ == kept_edges(part.edges@, keep@, k as int),
            edges_in_range(kept@, n as nat),
        decreases part.edges@.len() - k,
    {
        let e = part.edges[k];
        if keep[e.0] && keep[e.1] {
            kept.push(e);
        }
        k = k + 1;
    }
    part.alive = keep;
    part.edges = kept;
}

// ---------------------------------------------------------------------------
// The directories that are left.
// ---------------------------------------------------------------------------
/// The directories in which the living ones among the first `k` nodes lie,
/// each once, in the order in which the nodes name them.
pub open spec fn local_dirs(paths: Seq<Seq<usize>>, alive: Seq<bool>, k: int) -> Seq<usize>
    decreases k,
{
    if k <= 0 {
        Seq::empty()
    } else {
        let before = local_dirs(paths, alive, k - 1);
        if alive[k - 1] && paths[k - 1].len() > 0 && !before.contains(paths[k - 1][0]) {
            before.push(paths[k - 1][0])
        } else {
            before
        }
    }
}

/// The directories directly below the sub-problem's own in which a living node
/// lies.
pub fn enumerate_dirs(part: &Subproblem) -> (dirs: Vec<usize>)
    requires
        part.wf(),
    ensures
        dirs@ == local_dirs(lists_of(part.paths), part.alive@, part.paths@.len() as int),
{
    let mut dirs: Vec<usize> = Vec::new();
    let mut k: usize = 0;
    while k < part.paths.len()
        invariant
            k <= part.paths@.len(),
            part.wf(),
            dirs@ == local_dirs(lists_of(part.paths), part.alive@, k as int),
        decreases part.paths@.len() - k,
    {
        if part.alive[k] && part.paths[k].len() > 0 {
            let first = part.paths[k][0];
            let seen = find_position(&dirs, first);
            proof {
                lemma_position_of_present(dirs@, first);
                if seen is Some {
                    assert(dirs@.contains(first));
                }
            }
            if seen.is_none() {
                dirs.push(first);
            }
        }
        k = k + 1;
    }
    dirs
}

} // verus!
