//! Bounded reachability over the module graph: the mathematical notion of
//! what a query must return, a verified breadth-first realization, and the
//! laws that hold of every query.

use vstd::prelude::*;

use crate::module::Direction;
use crate::module_graph::{
    graph_edges, graph_neighbors, graph_node_count, graph_nodes, has_edge, ModuleGraph,
};

verus! {

// ---------------------------------------------------------------------------
// Specification
// ---------------------------------------------------------------------------

/// Every edge endpoint lies below the node count.
pub open spec fn edges_in_range(edges: Seq<(usize, usize)>, n: int) -> bool {
    forall|k: int|
        0 <= k < edges.len() ==> (#[trigger] edges[k]).0 < n && edges[k].1 < n
}

/// The nodes one step away from the set `s` in the walking direction.
pub open spec fn step_set(edges: Seq<(usize, usize)>, dir: Direction, s: Set<usize>) -> Set<usize> {
    Set::new(|v: usize| exists|u: usize| s.contains(u) && has_edge(edges, dir, u, v))
}

/// The nodes reachable from `seed` in at most `d` steps.
pub open spec fn reach_up_to(
    edges: Seq<(usize, usize)>,
    dir: Direction,
    seed: usize,
    d: nat,
) -> Set<usize>
    decreases d,
{
    if d == 0 {
        set![seed]
    } else {
        let prev = reach_up_to(edges, dir, seed, (d - 1) as nat);
        prev.union(step_set(edges, dir, prev))
    }
}

/// The node `v` is reachable from `seed` in some number of steps.
pub open spec fn reaches(edges: Seq<(usize, usize)>, dir: Direction, seed: usize, v: usize) -> bool {
    exists|d: nat| reach_up_to(edges, dir, seed, d).contains(v)
}

/// What a query with the given depth bound must return: the nodes within
/// `max_depth` steps, with a bound of zero meaning no bound at all.
pub open spec fn reach_bounded(
    edges: Seq<(usize, usize)>,
    dir: Direction,
    seed: usize,
    max_depth: u32,
) -> Set<usize> {
    if max_depth == 0 {
        Set::new(|v: usize| reaches(edges, dir, seed, v))
    } else {
        reach_up_to(edges, dir, seed, max_depth as nat)
    }
}

/// The nodes first reached at exactly depth `d`.
pub open spec fn layer(edges: Seq<(usize, usize)>, dir: Direction, seed: usize, d: nat) -> Set<
    usize,
> {
    if d == 0 {
        set![seed]
    } else {
        reach_up_to(edges, dir, seed, d).difference(reach_up_to(edges, dir, seed, (d - 1) as nat))
    }
}

/// The opposite walking direction.
pub open spec fn flip(dir: Direction) -> Direction {
    match dir {
        Direction::Outgoing => Direction::Incoming,
        Direction::Incoming => Direction::Outgoing,
    }
}

// ---------------------------------------------------------------------------
// Laws of reachability
// ---------------------------------------------------------------------------

/// Reachability is reflexive: the seed lies in every reachable set, at any
/// direction and any depth bound.
pub proof fn lemma_reach_reflexive(
    edges: Seq<(usize, usize)>,
    dir: Direction,
    seed: usize,
    max_depth: u32,
)
    ensures
        reach_bounded(edges, dir, seed, max_depth).contains(seed),
{
    lemma_seed_reached(edges, dir, seed, max_depth as nat);
    if max_depth == 0 {
        assert(reach_up_to(edges, dir, seed, 0).contains(seed));
    }
}

/// The seed lies in the reachable set of every depth.
pub proof fn lemma_seed_reached(edges: Seq<(usize, usize)>, dir: Direction, seed: usize, d: nat)
    ensures
        reach_up_to(edges, dir, seed, d).contains(seed),
    decreases d,
{
    if d > 0 {
        lemma_seed_reached(edges, dir, seed, (d - 1) as nat);
    }
}

/// One more step reaches at least as much.
pub proof fn lemma_reach_widens(edges: Seq<(usize, usize)>, dir: Direction, seed: usize, d: nat)
    ensures
        reach_up_to(edges, dir, seed, d) <= reach_up_to(edges, dir, seed, d + 1),
{
}

/// A deeper bound reaches at least as much.
pub proof fn lemma_reach_monotone(
    edges: Seq<(usize, usize)>,
    dir: Direction,
    seed: usize,
    d1: nat,
    d2: nat,
)
    requires
        d1 <= d2,
    ensures
        reach_up_to(edges, dir, seed, d1) <= reach_up_to(edges, dir, seed, d2),
    decreases d2 - d1,
{
    if d1 < d2 {
        lemma_reach_monotone(edges, dir, seed, d1, (d2 - 1) as nat);
        lemma_reach_widens(edges, dir, seed, (d2 - 1) as nat);
    }
}

/// Once one step adds nothing, no further step ever does.
pub proof fn lemma_reach_fixpoint(
    edges: Seq<(usize, usize)>,
    dir: Direction,
    seed: usize,
    d: nat,
    e: nat,
)
    requires
        reach_up_to(edges, dir, seed, d + 1) == reach_up_to(edges, dir, seed, d),
        e >= d,
    ensures
        reach_up_to(edges, dir, seed, e) == reach_up_to(edges, dir, seed, d),
    decreases e - d,
{
    if e > d {
        lemma_reach_fixpoint(edges, dir, seed, d, (e - 1) as nat);
        assert(reach_up_to(edges, dir, seed, e) =~= reach_up_to(edges, dir, seed, d + 1));
    }
}

/// Depth monotonicity: a query with a lower bound returns a subset of one
/// with a higher bound, a bound of zero standing for no bound.
pub proof fn lemma_depth_monotone(
    edges: Seq<(usize, usize)>,
    dir: Direction,
    seed: usize,
    k1: u32,
    k2: u32,
)
    requires
        k2 == 0 || (k1 != 0 && k1 <= k2),
    ensures
        reach_bounded(edges, dir, seed, k1) <= reach_bounded(edges, dir, seed, k2),
{
    if k2 == 0 {
        if k1 == 0 {
        } else {
            assert forall|v: usize| reach_bounded(edges, dir, seed, k1).contains(v)
                implies reach_bounded(edges, dir, seed, k2).contains(v) by {
                assert(reach_up_to(edges, dir, seed, k1 as nat).contains(v));
                assert(reaches(edges, dir, seed, v));
            }
        }
    } else {
        lemma_reach_monotone(edges, dir, seed, k1 as nat, k2 as nat);
    }
}

/// Walking an edge set in one direction is walking the flipped direction
/// backwards.
pub proof fn lemma_edge_flip(edges: Seq<(usize, usize)>, dir: Direction, u: usize, v: usize)
    ensures
        has_edge(edges, dir, u, v) == has_edge(edges, flip(dir), v, u),
{
}

/// A larger set has no fewer step successors.
pub proof fn lemma_step_monotone(
    edges: Seq<(usize, usize)>,
    dir: Direction,
    s1: Set<usize>,
    s2: Set<usize>,
)
    requires
        s1 <= s2,
    ensures
        step_set(edges, dir, s1) <= step_set(edges, dir, s2),
{
    assert forall|v: usize| step_set(edges, dir, s1).contains(v) implies step_set(
        edges,
        dir,
        s2,
    ).contains(v) by {
        let u = choose|u: usize| s1.contains(u) && has_edge(edges, dir, u, v);
        assert(s2.contains(u) && has_edge(edges, dir, u, v));
    }
}

/// Whatever `w` reaches in `d` steps, a node with an edge to `w` reaches
/// in `d + 1`.
pub proof fn lemma_reach_shift(
    edges: Seq<(usize, usize)>,
    dir: Direction,
    s: usize,
    w: usize,
    d: nat,
)
    requires
        has_edge(edges, dir, s, w),
    ensures
        reach_up_to(edges, dir, w, d) <= reach_up_to(edges, dir, s, d + 1),
    decreases d,
{
    if d == 0 {
        assert forall|v: usize| reach_up_to(edges, dir, w, 0).contains(v) implies reach_up_to(
            edges,
            dir,
            s,
            1,
        ).contains(v) by {
            assert(v == w);
            assert(reach_up_to(edges, dir, s, 0).contains(s));
            assert(step_set(edges, dir, reach_up_to(edges, dir, s, 0)).contains(w));
        }
    } else {
        lemma_reach_shift(edges, dir, s, w, (d - 1) as nat);
        lemma_step_monotone(
            edges,
            dir,
            reach_up_to(edges, dir, w, (d - 1) as nat),
            reach_up_to(edges, dir, s, d),
        );
    }
}

/// One direction of the duality: reaching `v` from `u` means reaching `u`
/// from `v` against the edges, within the same number of steps.
proof fn lemma_dual_step(edges: Seq<(usize, usize)>, dir: Direction, u: usize, v: usize, d: nat)
    requires
        reach_up_to(edges, dir, u, d).contains(v),
    ensures
        reach_up_to(edges, flip(dir), v, d).contains(u),
    decreases d,
{
    if d == 0 {
        assert(v == u);
        assert(reach_up_to(edges, flip(dir), v, 0).contains(u));
    } else {
        let prev = reach_up_to(edges, dir, u, (d - 1) as nat);
        if prev.contains(v) {
            lemma_dual_step(edges, dir, u, v, (d - 1) as nat);
            lemma_reach_monotone(edges, flip(dir), v, (d - 1) as nat, d);
        } else {
            let w = choose|w: usize| prev.contains(w) && has_edge(edges, dir, w, v);
            lemma_dual_step(edges, dir, u, w, (d - 1) as nat);
            lemma_edge_flip(edges, dir, w, v);
            lemma_reach_shift(edges, flip(dir), v, w, (d - 1) as nat);
        }
    }
}

/// Direction duality: `v` is a dependency of `u` exactly when `u` is a
/// dependent of `v`, with no depth bound.
pub proof fn lemma_reach_duality(edges: Seq<(usize, usize)>, u: usize, v: usize)
    ensures
        reaches(edges, Direction::Outgoing, u, v) == reaches(edges, Direction::Incoming, v, u),
{
    if reaches(edges, Direction::Outgoing, u, v) {
        let d = choose|d: nat| reach_up_to(edges, Direction::Outgoing, u, d).contains(v);
        lemma_dual_step(edges, Direction::Outgoing, u, v, d);
        assert(reach_up_to(edges, Direction::Incoming, v, d).contains(u));
    }
    if reaches(edges, Direction::Incoming, v, u) {
        let d = choose|d: nat| reach_up_to(edges, Direction::Incoming, v, d).contains(u);
        lemma_dual_step(edges, Direction::Incoming, v, u, d);
        assert(reach_up_to(edges, Direction::Outgoing, u, d).contains(v));
    }
}

/// Every reached node is a node of the graph.
pub proof fn lemma_reach_in_range(
    edges: Seq<(usize, usize)>,
    dir: Direction,
    seed: usize,
    d: nat,
    n: int,
)
    requires
        edges_in_range(edges, n),
        seed < n,
    ensures
        forall|v: usize| reach_up_to(edges, dir, seed, d).contains(v) ==> v < n,
    decreases d,
{
    if d > 0 {
        lemma_reach_in_range(edges, dir, seed, (d - 1) as nat, n);
        let prev = reach_up_to(edges, dir, seed, (d - 1) as nat);
        assert forall|v: usize| reach_up_to(edges, dir, seed, d).contains(v) implies v < n by {
            if !prev.contains(v) {
                let u = choose|u: usize| prev.contains(u) && has_edge(edges, dir, u, v);
                match dir {
                    Direction::Outgoing => {
                        let k = choose|k: int|
                            0 <= k < edges.len() && edges[k] == (u, v);
                        assert(edges[k].1 < n);
                    },
                    Direction::Incoming => {
                        let k = choose|k: int|
                            0 <= k < edges.len() && edges[k] == (v, u);
                        assert(edges[k].0 < n);
                    },
                }
            }
        }
    }
}

/// Expanding exactly the newest layer expands the whole reached set.
proof fn lemma_expand_layer(edges: Seq<(usize, usize)>, dir: Direction, seed: usize, d: nat)
    ensures
        reach_up_to(edges, dir, seed, d + 1) == reach_up_to(edges, dir, seed, d).union(
            step_set(edges, dir, layer(edges, dir, seed, d)),
        ),
{
    let r = reach_up_to(edges, dir, seed, d);
    let l = layer(edges, dir, seed, d);
    assert(l <= r);
    lemma_step_monotone(edges, dir, l, r);
    assert forall|v: usize| reach_up_to(edges, dir, seed, d + 1).contains(v) implies r.union(
        step_set(edges, dir, l),
    ).contains(v) by {
        if !r.contains(v) {
            let u = choose|u: usize| r.contains(u) && has_edge(edges, dir, u, v);
            if !l.contains(u) {
                assert(d > 0);
                let prev = reach_up_to(edges, dir, seed, (d - 1) as nat);
                assert(prev.contains(u));
                assert(step_set(edges, dir, prev).contains(v));
                assert(r.contains(v));
            } else {
                assert(step_set(edges, dir, l).contains(v));
            }
        }
    }
    assert(reach_up_to(edges, dir, seed, d + 1) =~= r.union(step_set(edges, dir, l)));
}

// ---------------------------------------------------------------------------
// Counting marks
// ---------------------------------------------------------------------------

/// How many positions of the mark vector are set.
pub open spec fn count_true(s: Seq<bool>) -> int
    decreases s.len(),
{
    if s.len() == 0 {
        0
    } else {
        count_true(s.drop_last()) + if s.last() {
            1int
        } else {
            0int
        }
    }
}

/// The count of set marks lies between zero and the vector's length.
pub proof fn lemma_count_true_bound(s: Seq<bool>)
    ensures
        0 <= count_true(s) <= s.len(),
    decreases s.len(),
{
    if s.len() > 0 {
        lemma_count_true_bound(s.drop_last());
    }
}

/// Setting an unset mark raises the count by one.
pub proof fn lemma_count_true_update(s: Seq<bool>, i: int)
    requires
        0 <= i < s.len(),
        !s[i],
    ensures
        count_true(s.update(i, true)) == count_true(s) + 1,
    decreases s.len(),
{
    if i == s.len() - 1 {
        assert(s.update(i, true).drop_last() =~= s.drop_last());
    } else {
        assert(s.update(i, true).drop_last() =~= s.drop_last().update(i, true));
        lemma_count_true_update(s.drop_last(), i);
    }
}

// ---------------------------------------------------------------------------
// The verified expansion
// ---------------------------------------------------------------------------

/// The set of marked node indices.
pub open spec fn marked_set(seen: Seq<bool>) -> Set<usize> {
    Set::new(|v: usize| v < seen.len() && seen[v as int])
}

/// A bounded expansion of the module graph from a seed node.
pub struct DepthFirstExpansion<'a> {
    pub graph: &'a ModuleGraph,
    pub direction: Direction,
    pub max_depth: u32,
    pub seed: usize,
}

impl<'a> DepthFirstExpansion<'a> {
    /// A well-posed expansion: the seed is a node and the graph is well
    /// within its index type.
    pub open spec fn wf(&self) -> bool {
        &&& (self.seed as int) < graph_nodes(*self.graph).len()
        &&& graph_nodes(*self.graph).len() < 0xFFFF_FFFF
        &&& edges_in_range(graph_edges(*self.graph), graph_nodes(*self.graph).len() as int)
    }

    /// Set up an expansion with the given starting point.
    pub fn new(graph: &'a ModuleGraph, direction: Direction, max_depth: u32, seed: usize) -> (r:
        Self)
        requires
            (seed as int) < graph_nodes(*graph).len(),
            graph_nodes(*graph).len() < 0xFFFF_FFFF,
            edges_in_range(graph_edges(*graph), graph_nodes(*graph).len() as int),
        ensures
            r.wf(),
            r.graph == graph,
            r.direction == direction,
            r.max_depth == max_depth,
            r.seed == seed,
    {
        DepthFirstExpansion { graph, direction, max_depth, seed }
    }

    /// Run the expansion to completion: the node indices within the depth
    /// bound of the seed, each exactly once, in ascending order.
    pub fn run(self) -> (r: Vec<usize>)
        requires
            self.wf(),
        ensures
            forall|v: usize|
                #[trigger] r@.contains(v) <==> reach_bounded(
                    graph_edges(*self.graph),
                    self.direction,
                    self.seed,
                    self.max_depth,
                ).contains(v),
            forall|x: int, y: int| 0 <= x < y < r@.len() ==> r@[x] < r@[y],
    {
        let ghost edges = graph_edges(*self.graph);
        let ghost dir = self.direction;
        let ghost seed = self.seed;
        let n = graph_node_count(self.graph);
        let mut seen: Vec<bool> = Vec::new();
        let mut z: usize = 0;
        while z < n
            invariant
                z <= n,
                seen@.len() == z,
                forall|t: int| 0 <= t < z ==> !seen@[t],
                count_true(seen@) == 0,
            decreases n - z,
        {
            let ghost prev = seen@;
            seen.push(false);
            proof {
                assert(seen@.drop_last() =~= prev);
            }
            z += 1;
        }
        let mut frontier: Vec<usize> = Vec::new();
        frontier.push(self.seed);
        let ghost before_mark = seen@;
        seen[self.seed] = true;
        let mut visited_count: usize = 1;
        let mut depth: u32 = 0;
        proof {
            lemma_count_true_update(before_mark, seed as int);
            assert(marked_set(seen@) =~= reach_up_to(edges, dir, seed, 0));
            lemma_to_set_push(Seq::<usize>::empty(), seed);
            assert(Seq::<usize>::empty().to_set() =~= Set::<usize>::empty());
            assert(frontier@ == Seq::<usize>::empty().push(seed));
            assert(frontier@.to_set() =~= layer(edges, dir, seed, 0));
        }
        loop
            invariant
                self.wf(),
                n == graph_nodes(*self.graph).len(),
                edges == graph_edges(*self.graph),
                dir == self.direction,
                seed == self.seed,
                seen@.len() == n,
                visited_count == count_true(seen@),
                visited_count <= n,
                depth as int + 1 <= visited_count,
                marked_set(seen@) == reach_up_to(edges, dir, seed, depth as nat),
                frontier@.to_set() == layer(edges, dir, seed, depth as nat),
                forall|t: int| 0 <= t < frontier@.len() ==> (#[trigger] frontier@[t]) < n,
                self.max_depth > 0 ==> depth <= self.max_depth,
            ensures
                marked_set(seen@) == reach_bounded(edges, dir, seed, self.max_depth),
                seen@.len() == n,
            decreases n - visited_count,
        {
            if self.max_depth > 0 && depth >= self.max_depth {
                proof {
                    assert(depth == self.max_depth);
                    assert(marked_set(seen@) == reach_bounded(edges, dir, seed, self.max_depth));
                }
                break;
            }
            let ghost start_marked = marked_set(seen@);
            let ghost start_count = visited_count as int;
            let mut next: Vec<usize> = Vec::new();
            let mut idx: usize = 0;
            while idx < frontier.len()
                invariant
                    self.wf(),
                    n == graph_nodes(*self.graph).len(),
                    edges == graph_edges(*self.graph),
                    dir == self.direction,
                    seed == self.seed,
                    seen@.len() == n,
                    visited_count == count_true(seen@),
                    visited_count <= n,
                    idx <= frontier@.len(),
                    start_marked == reach_up_to(edges, dir, seed, depth as nat),
                    frontier@.to_set() == layer(edges, dir, seed, depth as nat),
                    forall|t: int| 0 <= t < frontier@.len() ==> (#[trigger] frontier@[t]) < n,
                    marked_set(seen@) == start_marked.union(
                        step_set(edges, dir, frontier@.take(idx as int).to_set()),
                    ),
                    next@.to_set() == marked_set(seen@).difference(start_marked),
                    forall|t: int| 0 <= t < next@.len() ==> (#[trigger] next@[t]) < n,
                    visited_count >= start_count + next@.len(),
                decreases frontier@.len() - idx,
            {
                let u = frontier[idx];
                let nbrs = graph_neighbors(self.graph, u, self.direction);
                let mut jdx: usize = 0;
                while jdx < nbrs.len()
                    invariant
                        self.wf(),
                        n == graph_nodes(*self.graph).len(),
                        edges == graph_edges(*self.graph),
                        dir == self.direction,
                        seed == self.seed,
                        seen@.len() == n,
                        visited_count == count_true(seen@),
                        visited_count <= n,
                        idx < frontier@.len(),
                        u == frontier@[idx as int],
                        u < n,
                        jdx <= nbrs@.len(),
                        forall|v: usize|
                            #[trigger] nbrs@.contains(v) <==> has_edge(edges, dir, u, v),
                        start_marked == reach_up_to(edges, dir, seed, depth as nat),
                        frontier@.to_set() == layer(edges, dir, seed, depth as nat),
                        forall|t: int| 0 <= t < frontier@.len() ==> (#[trigger] frontier@[t]) < n,
                        marked_set(seen@) == start_marked.union(
                            step_set(edges, dir, frontier@.take(idx as int).to_set()),
                        ).union(nbrs@.take(jdx as int).to_set()),
                        next@.to_set() == marked_set(seen@).difference(start_marked),
                        forall|t: int| 0 <= t < next@.len() ==> (#[trigger] next@[t]) < n,
                        visited_count >= start_count + next@.len(),
                    decreases nbrs@.len() - jdx,
                {
                    let v = nbrs[jdx];
                    proof {
                        assert(nbrs@.contains(nbrs@[jdx as int]));
                        assert(has_edge(edges, dir, u, v));
                        match dir {
                            Direction::Outgoing => {
                                let k = choose|k: int| 0 <= k < edges.len() && edges[k] == (u, v);
                                assert(edges[k].1 < n);
                            },
                            Direction::Incoming => {
                                let k = choose|k: int| 0 <= k < edges.len() && edges[k] == (v, u);
                                assert(edges[k].0 < n);
                            },
                        }
                        assert(v < n);
                    }
                    if !seen[v] {
                        let ghost old_seen = seen@;
                        let ghost old_next = next@;
                        seen[v] = true;
                        next.push(v);
                        visited_count = visited_count + 1;
                        proof {
                            lemma_count_true_update(old_seen, v as int);
                            lemma_count_true_bound(seen@);
                            assert(marked_set(seen@) =~= marked_set(old_seen).insert(v));
                            lemma_to_set_push(old_next, v);
                            assert(!marked_set(old_seen).contains(v));
                            assert(!start_marked.contains(v));
                            assert(next@.to_set() =~= marked_set(seen@).difference(start_marked));
                        }
                    }
                    proof {
                        assert(nbrs@.take(jdx + 1) =~= nbrs@.take(jdx as int).push(
                            nbrs@[jdx as int],
                        ));
                        lemma_to_set_push(nbrs@.take(jdx as int), nbrs@[jdx as int]);
                        assert(marked_set(seen@) =~= start_marked.union(
                            step_set(edges, dir, frontier@.take(idx as int).to_set()),
                        ).union(nbrs@.take(jdx + 1).to_set()));
                    }
                    jdx += 1;
                }
                proof {
                    assert(nbrs@.take(nbrs@.len() as int) =~= nbrs@);
                    assert(frontier@.take(idx + 1) =~= frontier@.take(idx as int).push(
                        frontier@[idx as int],
                    ));
                    lemma_to_set_push(frontier@.take(idx as int), frontier@[idx as int]);
                    assert forall|v: usize| #[trigger] nbrs@.to_set().contains(v) <==> has_edge(
                        edges,
                        dir,
                        u,
                        v,
                    ) by {
                        if nbrs@.to_set().contains(v) {
                            assert(nbrs@.contains(v));
                        }
                        if has_edge(edges, dir, u, v) {
                            assert(nbrs@.contains(v));
                            let t = choose|t: int| 0 <= t < nbrs@.len() && nbrs@[t] == v;
                            assert(nbrs@.to_set().contains(nbrs@[t]));
                        }
                    }
                    lemma_step_insert(
                        edges,
                        dir,
                        frontier@.take(idx as int).to_set(),
                        u,
                        nbrs@.to_set(),
                    );
                    assert(marked_set(seen@) =~= start_marked.union(
                        step_set(edges, dir, frontier@.take(idx + 1).to_set()),
                    ));
                }
                idx += 1;
            }
            proof {
                assert(frontier@.take(frontier@.len() as int) =~= frontier@);
                lemma_expand_layer(edges, dir, seed, depth as nat);
                assert(marked_set(seen@) =~= reach_up_to(edges, dir, seed, depth as nat + 1));
            }
            if next.len() == 0 {
                proof {
                    assert(next@.to_set() =~= Set::<usize>::empty());
                    lemma_reach_widens(edges, dir, seed, depth as nat);
                    assert forall|x: usize|
                        reach_up_to(edges, dir, seed, depth as nat + 1).contains(x)
                        implies reach_up_to(edges, dir, seed, depth as nat).contains(x) by {
                        if !reach_up_to(edges, dir, seed, depth as nat).contains(x) {
                            assert(marked_set(seen@).contains(x));
                            assert(marked_set(seen@).difference(start_marked).contains(x));
                            assert(next@.to_set().contains(x));
                        }
                    }
                    assert(reach_up_to(edges, dir, seed, depth as nat + 1) =~= reach_up_to(
                        edges,
                        dir,
                        seed,
                        depth as nat,
                    ));
                    if self.max_depth == 0 {
                        assert forall|v: usize|
                            marked_set(seen@).contains(v) == reach_bounded(
                                edges,
                                dir,
                                seed,
                                self.max_depth,
                            ).contains(v) by {
                            if reaches(edges, dir, seed, v) {
                                let dd = choose|dd: nat|
                                    reach_up_to(edges, dir, seed, dd).contains(v);
                                if dd > depth as nat {
                                    lemma_reach_fixpoint(edges, dir, seed, depth as nat, dd);
                                } else {
                                    lemma_reach_monotone(edges, dir, seed, dd, depth as nat);
                                }
                            }
                            if marked_set(seen@).contains(v) {
                                assert(reach_up_to(edges, dir, seed, depth as nat).contains(v));
                                assert(reaches(edges, dir, seed, v));
                            }
                        }
                        assert(marked_set(seen@) =~= reach_bounded(
                            edges,
                            dir,
                            seed,
                            self.max_depth,
                        ));
                    } else {
                        lemma_reach_fixpoint(edges, dir, seed, depth as nat, self.max_depth as nat);
                        assert(marked_set(seen@) =~= reach_bounded(
                            edges,
                            dir,
                            seed,
                            self.max_depth,
                        ));
                    }
                }
                break;
            }
            proof {
                assert(next@.len() >= 1);
                assert(next@.to_set() =~= layer(edges, dir, seed, depth as nat + 1));
            }
            frontier = next;
            depth = depth + 1;
        }
        let mut r: Vec<usize> = Vec::new();
        let mut w: usize = 0;
        while w < n
            invariant
                w <= n,
                seen@.len() == n,
                marked_set(seen@) == reach_bounded(edges, dir, seed, self.max_depth),
                forall|x: int, y: int| 0 <= x < y < r@.len() ==> r@[x] < r@[y],
                forall|t: int| 0 <= t < r@.len() ==> (#[trigger] r@[t]) < w,
                forall|v: usize|
                    #[trigger] r@.contains(v) <==> (v < w && marked_set(seen@).contains(v)),
            decreases n - w,
        {
            let ghost old_r = r@;
            if seen[w] {
                r.push(w);
            }
            proof {
                assert forall|v: usize| #[trigger] r@.contains(v) implies (v < w + 1
                    && marked_set(seen@).contains(v)) by {
                    let t = choose|t: int| 0 <= t < r@.len() && r@[t] == v;
                    if t < old_r.len() {
                        assert(old_r[t] == v);
                        assert(old_r.contains(v));
                    } else {
                        assert(v == w);
                        assert(seen@[w as int]);
                    }
                }
                assert forall|v: usize| (v < w + 1 && marked_set(seen@).contains(v))
                    implies #[trigger] r@.contains(v) by {
                    if v == w {
                        assert(seen@[w as int]);
                        assert(r@[r@.len() - 1] == v);
                    } else {
                        assert(old_r.contains(v));
                        let t = choose|t: int| 0 <= t < old_r.len() && old_r[t] == v;
                        assert(r@[t] == v);
                    }
                }
            }
            w += 1;
        }
        proof {
            assert forall|v: usize| #[trigger] r@.contains(v) <==> reach_bounded(
                edges,
                dir,
                seed,
                self.max_depth,
            ).contains(v) by {
                if reach_bounded(edges, dir, seed, self.max_depth).contains(v) {
                    assert(marked_set(seen@).contains(v));
                    assert(v < n);
                }
            }
        }
        r
    }
}

/// A sequence of marks with count zero has no mark set.
proof fn lemma_count_zero_all_false(s: Seq<bool>)
    requires
        count_true(s) == 0,
    ensures
        forall|i: int| 0 <= i < s.len() ==> !s[i],
    decreases s.len(),
{
    if s.len() > 0 {
        lemma_count_true_bound(s.drop_last());
        lemma_count_zero_all_false(s.drop_last());
        assert forall|i: int| 0 <= i < s.len() implies !s[i] by {
            if i < s.len() - 1 {
                assert(s.drop_last()[i] == s[i]);
            }
        }
    }
}

/// Adding a node to the stepped set adds exactly its neighbors.
proof fn lemma_step_insert(
    edges: Seq<(usize, usize)>,
    dir: Direction,
    s: Set<usize>,
    u: usize,
    nb: Set<usize>,
)
    requires
        forall|v: usize| #[trigger] nb.contains(v) <==> has_edge(edges, dir, u, v),
    ensures
        step_set(edges, dir, s.insert(u)) == step_set(edges, dir, s).union(nb),
{
    assert forall|v: usize| step_set(edges, dir, s.insert(u)).contains(v) implies step_set(
        edges,
        dir,
        s,
    ).union(nb).contains(v) by {
        let w = choose|w: usize| s.insert(u).contains(w) && has_edge(edges, dir, w, v);
        if w == u {
            assert(nb.contains(v));
        } else {
            assert(s.contains(w));
            assert(step_set(edges, dir, s).contains(v));
        }
    }
    assert forall|v: usize| step_set(edges, dir, s).union(nb).contains(v) implies step_set(
        edges,
        dir,
        s.insert(u),
    ).contains(v) by {
        if nb.contains(v) {
            assert(s.insert(u).contains(u) && has_edge(edges, dir, u, v));
        } else {
            let w = choose|w: usize| s.contains(w) && has_edge(edges, dir, w, v);
            assert(s.insert(u).contains(w));
        }
    }
    assert(step_set(edges, dir, s.insert(u)) =~= step_set(edges, dir, s).union(nb));
}

/// The set of a pushed sequence is the set of the sequence plus the new
/// element.
proof fn lemma_to_set_push(s: Seq<usize>, v: usize)
    ensures
        s.push(v).to_set() == s.to_set().insert(v),
{
    assert forall|x: usize| s.push(v).to_set().contains(x) implies s.to_set().insert(v).contains(
        x,
    ) by {
        let t = choose|t: int| 0 <= t < s.push(v).len() && s.push(v)[t] == x;
        if t < s.len() {
            assert(s[t] == x);
        }
    }
    assert forall|x: usize| s.to_set().insert(v).contains(x) implies s.push(v).to_set().contains(
        x,
    ) by {
        if x == v {
            assert(s.push(v)[s.len() as int] == x);
        } else {
            let t = choose|t: int| 0 <= t < s.len() && s[t] == x;
            assert(s.push(v)[t] == x);
        }
    }
    assert(s.push(v).to_set() =~= s.to_set().insert(v));
}

} // verus!

